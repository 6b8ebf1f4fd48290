//! One process: what it holds, the most it may ever hold, and what it may
//! still ask for.
use vstd::prelude::*;

use crate::error::ValidationError;
use crate::vector::{first_excess, fits_within, is_first_excess, remaining};

verus! {

/// The mathematical content of a [`Process`].
pub struct ProcessView {
    pub id: nat,
    pub allocation: Seq<u8>,
    pub max_need: Seq<u8>,
    pub need: Seq<u8>,
}

impl ProcessView {
    /// The allocation fits within the maximum need, and the need is exactly
    /// what separates them.
    pub open spec fn valid(self) -> bool {
        &&& fits_within(self.allocation, self.max_need)
        &&& self.need == remaining(self.max_need, self.allocation)
    }

    /// The process that `Process::new` builds from valid arguments.
    pub open spec fn derived(id: nat, allocation: Seq<u8>, max_need: Seq<u8>) -> ProcessView {
        ProcessView { id, allocation, max_need, need: remaining(max_need, allocation) }
    }
}

/// A validated process. Its need is computed once, when it is built, and none
/// of its vectors can change afterwards.
#[derive(Debug)]
pub struct Process {
    id: usize,
    allocation: Vec<u8>,
    max_need: Vec<u8>,
    need: Vec<u8>,
}

impl View for Process {
    type V = ProcessView;

    closed spec fn view(&self) -> ProcessView {
        ProcessView {
            id: self.id as nat,
            allocation: self.allocation@,
            max_need: self.max_need@,
            need: self.need@,
        }
    }
}

impl Process {
    #[verifier::type_invariant]
    closed spec fn inv(self) -> bool {
        self@.valid()
    }

    /// Validates a process's vectors and derives its need.
    ///
    /// Fails with `LengthMismatch` when the two vectors differ in length, and
    /// otherwise with `OverAllocation` at the lowest index where the
    /// allocation exceeds the maximum need.
    pub fn new(id: usize, allocation: Vec<u8>, max_need: Vec<u8>) -> (r: Result<
        Process,
        ValidationError,
    >)
        ensures
            match r {
                Ok(p) => {
                    &&& fits_within(allocation@, max_need@)
                    &&& p@ == ProcessView::derived(id as nat, allocation@, max_need@)
                    &&& p@.valid()
                },
                Err(ValidationError::LengthMismatch) => allocation@.len() != max_need@.len(),
                Err(ValidationError::OverAllocation { index }) => {
                    &&& allocation@.len() == max_need@.len()
                    &&& is_first_excess(allocation@, max_need@, index as int)
                },
                Err(_) => false,
            },
            allocation@.len() == max_need@.len() && (exists|k: int|
                0 <= k < allocation@.len() && allocation@[k] > max_need@[k])
                ==> matches!(r, Err(ValidationError::OverAllocation { .. })),
    {
        if allocation.len() != max_need.len() {
            return Err(ValidationError::LengthMismatch);
        }
        if let Some(index) = first_excess(&allocation, &max_need) {
            return Err(ValidationError::OverAllocation { index });
        }
        let mut need: Vec<u8> = Vec::with_capacity(allocation.len());
        let mut k: usize = 0;
        while k < allocation.len()
            invariant
                fits_within(allocation@, max_need@),
                k <= allocation@.len(),
                need@ =~= remaining(max_need@, allocation@).take(k as int),
            decreases allocation@.len() - k,
        {
            need.push(max_need[k] - allocation[k]);
            k = k + 1;
        }
        assert(need@ =~= remaining(max_need@, allocation@));
        Ok(Process { id, allocation, max_need, need })
    }

    /// The process's identifier.
    pub fn id(&self) -> (r: usize)
        ensures
            r as nat == self@.id,
    {
        self.id
    }

    /// Units of each resource type the process holds.
    pub fn allocation(&self) -> (r: &Vec<u8>)
        ensures
            r@ == self@.allocation,
    {
        &self.allocation
    }

    /// The most of each resource type the process may ever hold.
    pub fn max_need(&self) -> (r: &Vec<u8>)
        ensures
            r@ == self@.max_need,
    {
        &self.max_need
    }

    /// Units of each resource type the process may still ask for: at every
    /// resource index, the maximum need less the allocation, which never
    /// exceeds the maximum need.
    pub fn need(&self) -> (r: &Vec<u8>)
        ensures
            r@ == self@.need,
            self@.valid(),
    {
        proof {
            use_type_invariant(self);
        }
        &self.need
    }
}

} // verus!
