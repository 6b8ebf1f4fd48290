//! The whole system: resource capacities fixed at creation, processes added
//! one at a time through a validating builder, and the read-only state that
//! the safety check runs on.
use vstd::prelude::*;

use crate::error::ValidationError;
use crate::process::{Process, ProcessView};
use crate::safety::{
    as_ints, fits_work, initial_state, is_safe_order, lemma_no_verdict_no_safe_order,
    lemma_unfinished_bound, lemma_unfinished_mark, lemma_unfinished_none_done,
    lemma_verdict_is_safe_order, release_into, run, safe_sequence, scan, scan_prefix, unfinished,
    SimState,
};
use crate::vector::{first_excess, fits_within, is_first_excess};

verus! {

/// Units of resource `k` that the processes hold together.
pub open spec fn column_sum(procs: Seq<ProcessView>, k: int) -> int
    decreases procs.len(),
{
    if procs.len() == 0 {
        0
    } else {
        column_sum(procs.drop_last(), k) + procs.last().allocation[k]
    }
}

/// `k` is the lowest resource index at which the processes together hold
/// more than the system has.
pub open spec fn is_first_overcommit(procs: Seq<ProcessView>, resources: Seq<u8>, k: int) -> bool {
    &&& 0 <= k < resources.len()
    &&& column_sum(procs, k) > resources[k]
    &&& forall|j: int| 0 <= j < k ==> column_sum(procs, j) <= resources[j]
}

/// What the processes leave free of each resource type.
pub open spec fn free_units(procs: Seq<ProcessView>, resources: Seq<u8>) -> Seq<u8> {
    Seq::new(resources.len(), |k: int| (resources[k] - column_sum(procs, k)) as u8)
}

/// The processes are numbered by position, valid, sized to the resource
/// vector, and never need more than the system has.
pub open spec fn admitted(procs: Seq<ProcessView>, resources: Seq<u8>) -> bool {
    forall|i: int|
        0 <= i < procs.len() ==> {
            &&& (#[trigger] procs[i]).id == i
            &&& procs[i].valid()
            &&& procs[i].allocation.len() == resources.len()
            &&& fits_within(procs[i].max_need, resources)
        }
}

/// The mathematical content of a [`SystemBuilder`].
pub struct BuilderView {
    pub resources: Seq<u8>,
    pub processes: Seq<ProcessView>,
}

/// The mathematical content of a [`BankersAlgorithm`].
pub struct SystemView {
    pub resources: Seq<u8>,
    pub processes: Seq<ProcessView>,
    pub available: Seq<u8>,
}

impl SystemView {
    /// A finalized system: at least one resource type, at least one admitted
    /// process, and for every resource type what the processes hold plus what
    /// is free is exactly the capacity.
    pub open spec fn wf(self) -> bool {
        &&& self.resources.len() > 0
        &&& self.processes.len() > 0
        &&& admitted(self.processes, self.resources)
        &&& self.available.len() == self.resources.len()
        &&& forall|k: int|
            0 <= k < self.resources.len() ==> column_sum(self.processes, k) + self.available[k]
                == self.resources[k]
    }
}

/// Collects processes against fixed resource capacities, validating each one
/// before it is admitted.
pub struct SystemBuilder {
    resources: Vec<u8>,
    processes: Vec<Process>,
    total_allocated: Vec<u128>,
}

impl View for SystemBuilder {
    type V = BuilderView;

    closed spec fn view(&self) -> BuilderView {
        BuilderView {
            resources: self.resources@,
            processes: self.processes@.map_values(|p: Process| p@),
        }
    }
}

impl SystemBuilder {
    /// The admitted processes satisfy `admitted`, and the running totals are
    /// their column sums.
    pub closed spec fn wf(&self) -> bool {
        &&& self@.resources.len() > 0
        &&& admitted(self@.processes, self@.resources)
        &&& self.total_allocated@.len() == self.resources@.len()
        &&& forall|k: int|
            0 <= k < self.resources@.len() ==> {
                &&& self.total_allocated@[k] == column_sum(self@.processes, k)
                &&& self.total_allocated@[k] <= 255 * self.processes@.len()
            }
    }

    /// Starts a system with the given capacity of each resource type (at
    /// least one type) and no process.
    pub fn new(resources: Vec<u8>) -> (r: SystemBuilder)
        requires
            resources@.len() > 0,
        ensures
            r.wf(),
            r@.resources == resources@,
            r@.processes == Seq::<ProcessView>::empty(),
    {
        let mut total_allocated: Vec<u128> = Vec::with_capacity(resources.len());
        let mut k: usize = 0;
        while k < resources.len()
            invariant
                k <= resources@.len(),
                total_allocated@.len() == k,
                forall|j: int| 0 <= j < k ==> total_allocated@[j] == 0,
            decreases resources@.len() - k,
        {
            total_allocated.push(0);
            k = k + 1;
        }
        let r = SystemBuilder { resources, processes: Vec::new(), total_allocated };
        assert(r@.processes =~= Seq::<ProcessView>::empty());
        r
    }

    /// Validates a process and, if it passes, admits it under the next id.
    ///
    /// Fails, leaving the builder as it was, with `LengthMismatch` when either
    /// vector's length differs from the number of resource types; with
    /// `OverAllocation` where the allocation exceeds the maximum need (as
    /// `Process::new` decides); and with `ExceedsCapacity` at the lowest index
    /// where the maximum need, and so possibly the allocation, exceeds the
    /// capacity, reporting that maximum need and the capacity.
    pub fn add_process(&mut self, allocation: Vec<u8>, max_need: Vec<u8>) -> (r: Result<
        usize,
        ValidationError,
    >)
        requires
            old(self).wf(),
        ensures
            final(self).wf(),
            match r {
                Ok(id) => {
                    &&& id == old(self)@.processes.len()
                    &&& allocation@.len() == old(self)@.resources.len()
                    &&& fits_within(allocation@, max_need@)
                    &&& fits_within(max_need@, old(self)@.resources)
                    &&& final(self)@.resources == old(self)@.resources
                    &&& final(self)@.processes == old(self)@.processes.push(
                        ProcessView::derived(id as nat, allocation@, max_need@),
                    )
                },
                Err(e) => {
                    &&& final(self)@ == old(self)@
                    &&& match e {
                        ValidationError::LengthMismatch => allocation@.len() != old(
                            self,
                        )@.resources.len() || max_need@.len() != old(self)@.resources.len(),
                        ValidationError::OverAllocation { index } => {
                            &&& allocation@.len() == old(self)@.resources.len()
                            &&& max_need@.len() == old(self)@.resources.len()
                            &&& is_first_excess(allocation@, max_need@, index as int)
                        },
                        ValidationError::ExceedsCapacity { index, value, limit } => {
                            &&& allocation@.len() == old(self)@.resources.len()
                            &&& fits_within(allocation@, max_need@)
                            &&& is_first_excess(max_need@, old(self)@.resources, index as int)
                            &&& value == max_need@[index as int]
                            &&& limit == old(self)@.resources[index as int]
                        },
                        _ => false,
                    }
                },
            },
    {
        let id = self.processes.len();
        if allocation.len() != self.resources.len() || max_need.len() != self.resources.len() {
            return Err(ValidationError::LengthMismatch);
        }
        let process = match Process::new(id, allocation, max_need) {
            Ok(p) => p,
            Err(e) => return Err(e),
        };
        if let Some(index) = first_excess(process.max_need(), &self.resources) {
            return Err(
                ValidationError::ExceedsCapacity {
                    index,
                    value: process.max_need()[index],
                    limit: self.resources[index],
                },
            );
        }
        let ghost procs0 = self@.processes;
        let ghost totals0 = self.total_allocated@;
        let ghost vec0 = self.processes@;
        let ghost res0 = self.resources@;
        let held = process.allocation();
        proof {
            assert(usize::MAX <= 0xffff_ffff_ffff_ffff);
        }
        let mut k: usize = 0;
        while k < held.len()
            invariant
                self.processes@ == vec0,
                self.resources@ == res0,
                procs0 == vec0.map_values(|p: Process| p@),
                held@ == process@.allocation,
                process@.id == id,
                held@.len() == self.resources@.len(),
                self.total_allocated@.len() == totals0.len(),
                totals0.len() == self.resources@.len(),
                k <= held@.len(),
                id <= usize::MAX,
                usize::MAX <= 0xffff_ffff_ffff_ffff,
                forall|j: int| 0 <= j < self.resources@.len() ==> totals0[j] <= 255 * id,
                forall|j: int| 0 <= j < k ==> self.total_allocated@[j] == totals0[j] + held@[j],
                forall|j: int| k <= j < totals0.len() ==> self.total_allocated@[j] == totals0[j],
            decreases held@.len() - k,
        {
            assert(self.total_allocated@[k as int] == totals0[k as int]);
            let t = self.total_allocated[k] + held[k] as u128;
            self.total_allocated.set(k, t);
            k = k + 1;
        }
        self.processes.push(process);
        proof {
            let procs1 = self@.processes;
            assert(procs1 =~= procs0.push(process@));
            assert(procs1.drop_last() =~= procs0);
            assert forall|j: int| 0 <= j < self.resources@.len() implies {
                &&& self.total_allocated@[j] == column_sum(self@.processes, j)
                &&& self.total_allocated@[j] <= 255 * self.processes@.len()
            } by {
                assert(self.total_allocated@[j] == totals0[j] + held@[j]);
            }
            assert forall|i: int| 0 <= i < procs1.len() implies {
                &&& (#[trigger] procs1[i]).id == i
                &&& procs1[i].valid()
                &&& procs1[i].allocation.len() == self@.resources.len()
                &&& fits_within(procs1[i].max_need, self@.resources)
            } by {
                if i < procs0.len() {
                    assert(procs1[i] == procs0[i]);
                }
            }
        }
        Ok(id)
    }

    /// Ends the setup: computes what is free of each resource type and
    /// returns the read-only system.
    ///
    /// Fails with `EmptySystem` when no process was admitted, and with
    /// `OverCommitted` at the lowest resource index where the processes hold
    /// more than the capacity, reporting by how much.
    pub fn finalize(self) -> (r: Result<BankersAlgorithm, ValidationError>)
        requires
            self.wf(),
        ensures
            match r {
                Ok(s) => {
                    &&& self@.processes.len() > 0
                    &&& forall|k: int|
                        0 <= k < self@.resources.len() ==> column_sum(self@.processes, k)
                            <= self@.resources[k]
                    &&& s@.resources == self@.resources
                    &&& s@.processes == self@.processes
                    &&& s@.available == free_units(self@.processes, self@.resources)
                    &&& s@.wf()
                },
                Err(ValidationError::EmptySystem) => self@.processes.len() == 0,
                Err(ValidationError::OverCommitted { index, deficit }) => {
                    &&& self@.processes.len() > 0
                    &&& is_first_overcommit(self@.processes, self@.resources, index as int)
                    &&& deficit == column_sum(self@.processes, index as int)
                        - self@.resources[index as int]
                },
                Err(_) => false,
            },
    {
        if self.processes.len() == 0 {
            return Err(ValidationError::EmptySystem);
        }
        let ghost procs = self@.processes;
        let num_resources = self.resources.len();
        let mut available: Vec<u8> = Vec::with_capacity(num_resources);
        let mut k: usize = 0;
        while k < num_resources
            invariant
                self.wf(),
                procs == self@.processes,
                num_resources == self.resources@.len(),
                k <= num_resources,
                available@.len() == k,
                forall|j: int| 0 <= j < k ==> column_sum(procs, j) <= self.resources@[j],
                forall|j: int|
                    0 <= j < k ==> available@[j] == free_units(procs, self.resources@)[j],
            decreases num_resources - k,
        {
            let total = self.total_allocated[k];
            let capacity = self.resources[k];
            if total > capacity as u128 {
                return Err(
                    ValidationError::OverCommitted { index: k, deficit: total - capacity as u128 },
                );
            }
            available.push((capacity as u128 - total) as u8);
            k = k + 1;
        }
        assert(available@ =~= free_units(procs, self.resources@));
        let SystemBuilder { resources, processes, total_allocated: _ } = self;
        Ok(BankersAlgorithm { resources, processes, available })
    }

    /// Capacity of each resource type.
    pub fn resources(&self) -> (r: &Vec<u8>)
        ensures
            r@ == self@.resources,
    {
        &self.resources
    }

    /// Number of processes admitted so far; also the id the next one gets.
    pub fn process_count(&self) -> (r: usize)
        ensures
            r == self@.processes.len(),
    {
        self.processes.len()
    }
}

/// `r` is the verdict of the safety check on `s`: the sequence in which the
/// processes finish, or `None` when some of them cannot.
pub open spec fn reports_verdict(s: SystemView, r: Option<Vec<usize>>) -> bool {
    match r {
        Some(v) => safe_sequence(s.processes, s.available) == Some(v@),
        None => safe_sequence(s.processes, s.available) is None,
    }
}

/// Running the safety check twice on the same system gives the same verdict
/// and the same sequence.
pub proof fn lemma_check_deterministic(
    s: &BankersAlgorithm,
    r1: Option<Vec<usize>>,
    r2: Option<Vec<usize>>,
)
    requires
        reports_verdict(s@, r1),
        reports_verdict(s@, r2),
    ensures
        r1 is Some <==> r2 is Some,
        r1 is Some ==> r1->Some_0@ == r2->Some_0@,
{
}

/// The simulation state that the executable check holds.
spec fn current(work: Seq<u128>, finish: Seq<bool>, sequence: Seq<usize>) -> SimState {
    SimState { work: as_ints(work), finish, sequence }
}

/// A finalized system: fixed capacities, admitted processes and what they
/// leave free. Nothing changes it after `SystemBuilder::finalize`.
pub struct BankersAlgorithm {
    available: Vec<u8>,
    resources: Vec<u8>,
    processes: Vec<Process>,
}

impl View for BankersAlgorithm {
    type V = SystemView;

    closed spec fn view(&self) -> SystemView {
        SystemView {
            resources: self.resources@,
            processes: self.processes@.map_values(|p: Process| p@),
            available: self.available@,
        }
    }
}

impl BankersAlgorithm {
    #[verifier::type_invariant]
    closed spec fn inv(self) -> bool {
        self@.wf()
    }

    /// Runs the safety check: returns the order in which every process can
    /// run to completion, found by scanning the processes in ascending id
    /// order until a scan lets none finish, or `None` when some process is
    /// left unfinished. The system itself is only read.
    pub fn is_safe_state(&self) -> (r: Option<Vec<usize>>)
        ensures
            reports_verdict(self@, r),
            r is Some ==> is_safe_order(self@.processes, self@.available, r->Some_0@),
            r is None ==> forall|order: Seq<usize>|
                !is_safe_order(self@.processes, self@.available, order),
    {
        proof {
            use_type_invariant(self);
        }
        let num_processes = self.processes.len();
        let num_resources = self.resources.len();
        let ghost procs = self@.processes;
        let ghost start = initial_state(self@.available, procs.len());

        let mut work: Vec<u128> = Vec::with_capacity(num_resources);
        let mut k: usize = 0;
        while k < num_resources
            invariant
                num_resources == self@.available.len(),
                k <= num_resources,
                work@.len() == k,
                forall|j: int| 0 <= j < k ==> work@[j] == self@.available[j] as u128,
            decreases num_resources - k,
        {
            work.push(self.available[k] as u128);
            k = k + 1;
        }
        let mut finish: Vec<bool> = Vec::with_capacity(num_processes);
        let mut i: usize = 0;
        while i < num_processes
            invariant
                i <= num_processes,
                finish@ =~= Seq::new(i as nat, |j: int| false),
            decreases num_processes - i,
        {
            finish.push(false);
            i = i + 1;
        }
        let mut sequence: Vec<usize> = Vec::with_capacity(num_processes);
        let mut left: usize = num_processes;
        proof {
            lemma_unfinished_none_done(procs.len());
            assert(as_ints(work@) =~= start.work);
            assert(sequence@ =~= start.sequence);
            assert(usize::MAX <= 0xffff_ffff_ffff_ffff);
        }
        loop
            invariant_except_break
                run(procs, current(work@, finish@, sequence@)) == run(procs, start),
            invariant
                self@.wf(),
                procs == self@.processes,
                num_processes == procs.len(),
                num_resources == self@.resources.len(),
                num_processes <= 0xffff_ffff_ffff_ffff,
                work@.len() == num_resources,
                finish@.len() == num_processes,
                left == unfinished(finish@),
                left <= num_processes,
                forall|k: int| 0 <= k < num_resources ==> work@[k] <= 255 * (num_processes + 1 - left),
            ensures
                current(work@, finish@, sequence@) == run(procs, start),
            decreases left,
        {
            let ghost s0 = current(work@, finish@, sequence@);
            let before = left;
            let mut i: usize = 0;
            while i < num_processes
                invariant
                    self@.wf(),
                    procs == self@.processes,
                    num_processes == procs.len(),
                    num_resources == self@.resources.len(),
                    num_processes <= 0xffff_ffff_ffff_ffff,
                    i <= num_processes,
                    work@.len() == num_resources,
                    finish@.len() == num_processes,
                    left == unfinished(finish@),
                    left <= before,
                    before == unfinished(s0.finish),
                    forall|k: int|
                        0 <= k < num_resources ==> work@[k] <= 255 * (num_processes + 1 - left),
                    current(work@, finish@, sequence@) == scan_prefix(procs, s0, i as nat),
                decreases num_processes - i,
            {
                let process = &self.processes[i];
                assert(process@ == procs[i as int]);
                if !finish[i] && fits_work(process.need(), &work) {
                    let ghost finish0 = finish@;
                    let ghost work0 = work@;
                    proof {
                        lemma_unfinished_bound(finish@);
                        assert forall|k: int| 0 <= k < num_resources implies work@[k]
                            + process@.allocation[k] <= u128::MAX by {
                            assert(process@.allocation[k] <= 255);
                        }
                    }
                    release_into(&mut work, process.allocation());
                    finish.set(i, true);
                    sequence.push(process.id());
                    proof {
                        lemma_unfinished_mark(finish0, i as int);
                        assert forall|k: int| 0 <= k < num_resources implies work@[k] <= 255 * (
                        num_processes + 1 - (left - 1)) by {
                            assert(work@[k] == work0[k] + process@.allocation[k]);
                        }
                    }
                    left = left - 1;
                }
                i = i + 1;
            }
            assert(current(work@, finish@, sequence@) == scan(procs, s0));
            if left == before {
                break;
            }
        }
        proof {
            if safe_sequence(procs, self@.available) is Some {
                lemma_verdict_is_safe_order(procs, self@.available);
            } else {
                assert forall|order: Seq<usize>| !is_safe_order(procs, self@.available, order) by {
                    lemma_no_verdict_no_safe_order(procs, self@.available, order);
                }
            }
        }
        if left == 0 {
            Some(sequence)
        } else {
            None
        }
    }

    /// Capacity of each resource type.
    pub fn resources(&self) -> (r: &Vec<u8>)
        ensures
            r@ == self@.resources,
    {
        &self.resources
    }

    /// Units of each resource type that no process holds. Together with what
    /// the processes hold, it makes up the capacity exactly.
    pub fn available(&self) -> (r: &Vec<u8>)
        ensures
            r@ == self@.available,
            self@.wf(),
    {
        proof {
            use_type_invariant(self);
        }
        &self.available
    }

    /// The processes, in id order.
    pub fn processes(&self) -> (r: &Vec<Process>)
        ensures
            r@.map_values(|p: Process| p@) == self@.processes,
    {
        &self.processes
    }
}

} // verus!
