//! The Banker's safety check as a mathematical model: a simulation that
//! repeatedly scans the processes in ascending id order, lets every process
//! whose need fits the work vector finish and release its allocation, and
//! stops after a scan in which no process finished.
use vstd::prelude::*;

use crate::process::ProcessView;

verus! {

/// One point of the simulation: units free to hand out (`work`), which
/// processes have finished, and the order in which they did.
pub struct SimState {
    pub work: Seq<int>,
    pub finish: Seq<bool>,
    pub sequence: Seq<usize>,
}

/// A process whose remaining need is `need` can run to completion with the
/// units in `work`.
pub open spec fn can_finish(need: Seq<u8>, work: Seq<int>) -> bool {
    forall|k: int| 0 <= k < need.len() ==> need[k] <= work[k]
}

/// `work` after a finished process hands back its allocation.
pub open spec fn release(work: Seq<int>, allocation: Seq<u8>) -> Seq<int> {
    Seq::new(work.len(), |k: int| work[k] + allocation[k])
}

/// Number of processes that have not finished.
pub open spec fn unfinished(finish: Seq<bool>) -> nat
    decreases finish.len(),
{
    if finish.len() == 0 {
        0
    } else {
        unfinished(finish.drop_last()) + if finish.last() {
            0nat
        } else {
            1nat
        }
    }
}

/// The state the simulation starts from: `available` as work, nothing
/// finished.
pub open spec fn initial_state(available: Seq<u8>, n: nat) -> SimState {
    SimState {
        work: Seq::new(available.len(), |k: int| available[k] as int),
        finish: Seq::new(n, |i: int| false),
        sequence: Seq::empty(),
    }
}

/// Looks at process `i`: if it has not finished and its need fits, it
/// finishes and releases its allocation.
pub open spec fn visit(procs: Seq<ProcessView>, s: SimState, i: int) -> SimState {
    if !s.finish[i] && can_finish(procs[i].need, s.work) {
        SimState {
            work: release(s.work, procs[i].allocation),
            finish: s.finish.update(i, true),
            sequence: s.sequence.push(procs[i].id as usize),
        }
    } else {
        s
    }
}

/// A scan that has visited processes `0 .. i`, in that order.
pub open spec fn scan_prefix(procs: Seq<ProcessView>, s: SimState, i: nat) -> SimState
    decreases i,
{
    if i == 0 {
        s
    } else {
        visit(procs, scan_prefix(procs, s, (i - 1) as nat), i - 1)
    }
}

/// One full scan over all processes in ascending id order.
pub open spec fn scan(procs: Seq<ProcessView>, s: SimState) -> SimState {
    scan_prefix(procs, s, procs.len())
}

/// Scans until a scan lets no further process finish.
pub open spec fn run(procs: Seq<ProcessView>, s: SimState) -> SimState
    decreases unfinished(s.finish),
{
    let next = scan(procs, s);
    if unfinished(next.finish) < unfinished(s.finish) {
        run(procs, next)
    } else {
        next
    }
}

/// The verdict of the safety check: the order in which the processes finished
/// when all of them did, and `None` otherwise.
pub open spec fn safe_sequence(procs: Seq<ProcessView>, available: Seq<u8>) -> Option<Seq<usize>> {
    let end = run(procs, initial_state(available, procs.len()));
    if unfinished(end.finish) == 0 {
        Some(end.sequence)
    } else {
        None
    }
}

/// The work vector of the executable check, read as integers.
pub open spec fn as_ints(v: Seq<u128>) -> Seq<int> {
    Seq::new(v.len(), |k: int| v[k] as int)
}

/// Tells whether a process with remaining need `need` can finish with `work`.
pub(crate) fn fits_work(need: &Vec<u8>, work: &Vec<u128>) -> (r: bool)
    requires
        need@.len() == work@.len(),
    ensures
        r == can_finish(need@, as_ints(work@)),
{
    let mut k: usize = 0;
    while k < need.len()
        invariant
            need@.len() == work@.len(),
            k <= need@.len(),
            forall|j: int| 0 <= j < k ==> need@[j] <= work@[j],
        decreases need@.len() - k,
    {
        if need[k] as u128 > work[k] {
            return false;
        }
        k = k + 1;
    }
    true
}

/// Hands a finished process's allocation back to `work`.
pub(crate) fn release_into(work: &mut Vec<u128>, allocation: &Vec<u8>)
    requires
        allocation@.len() == old(work)@.len(),
        forall|k: int| 0 <= k < allocation@.len() ==> old(work)@[k] + allocation@[k] <= u128::MAX,
    ensures
        as_ints(final(work)@) == release(as_ints(old(work)@), allocation@),
        final(work)@.len() == old(work)@.len(),
        forall|k: int| 0 <= k < allocation@.len() ==> final(work)@[k] == old(work)@[k] + allocation@[k],
{
    let ghost w0 = work@;
    let mut k: usize = 0;
    while k < allocation.len()
        invariant
            allocation@.len() == w0.len(),
            work@.len() == w0.len(),
            k <= w0.len(),
            forall|k: int| 0 <= k < allocation@.len() ==> w0[k] + allocation@[k] <= u128::MAX,
            forall|j: int| 0 <= j < k ==> work@[j] == w0[j] + allocation@[j],
            forall|j: int| k <= j < w0.len() ==> work@[j] == w0[j],
        decreases w0.len() - k,
    {
        assert(work@[k as int] == w0[k as int]);
        let v = work[k] + allocation[k] as u128;
        work.set(k, v);
        k = k + 1;
    }
    assert(as_ints(work@) =~= release(as_ints(w0), allocation@));
}

/// What is free once the processes in `done` have finished, in that order,
/// and released their allocations.
pub open spec fn work_after(procs: Seq<ProcessView>, available: Seq<u8>, done: Seq<usize>) -> Seq<
    int,
>
    decreases done.len(),
{
    if done.len() == 0 {
        Seq::new(available.len(), |k: int| available[k] as int)
    } else {
        release(
            work_after(procs, available, done.drop_last()),
            procs[done.last() as int].allocation,
        )
    }
}

/// `order` is a safe completion order: it names every process exactly once,
/// and each process's need fits in what is free once the processes before it
/// have finished.
pub open spec fn is_safe_order(procs: Seq<ProcessView>, available: Seq<u8>, order: Seq<usize>) -> bool {
    &&& order.len() == procs.len()
    &&& forall|j: int| 0 <= j < order.len() ==> (order[j] as int) < procs.len()
    &&& forall|a: int, b: int| 0 <= a < b < order.len() ==> order[a] != order[b]
    &&& forall|j: int|
        0 <= j < order.len() ==> can_finish(
            #[trigger] procs[order[j] as int].need,
            work_after(procs, available, order.take(j)),
        )
}

/// What holds at every point of the simulation: the finished processes are
/// exactly those in the sequence, each once and in an order in which each
/// could finish, and the work vector is what they freed.
pub open spec fn consistent(procs: Seq<ProcessView>, available: Seq<u8>, s: SimState) -> bool {
    &&& s.finish.len() == procs.len()
    &&& s.work == work_after(procs, available, s.sequence)
    &&& s.sequence.len() + unfinished(s.finish) == procs.len()
    &&& forall|j: int| 0 <= j < s.sequence.len() ==> (s.sequence[j] as int) < procs.len()
    &&& forall|a: int, b: int| 0 <= a < b < s.sequence.len() ==> s.sequence[a] != s.sequence[b]
    &&& forall|i: int| 0 <= i < procs.len() ==> (s.finish[i] <==> s.sequence.contains(i as usize))
    &&& forall|j: int|
        0 <= j < s.sequence.len() ==> can_finish(
            #[trigger] procs[s.sequence[j] as int].need,
            work_after(procs, available, s.sequence.take(j)),
        )
}

proof fn lemma_visit_consistent(procs: Seq<ProcessView>, available: Seq<u8>, s: SimState, i: int)
    requires
        procs.len() <= usize::MAX,
        forall|p: int| 0 <= p < procs.len() ==> (#[trigger] procs[p]).id == p,
        0 <= i < procs.len(),
        consistent(procs, available, s),
    ensures
        consistent(procs, available, visit(procs, s, i)),
{
    let t = visit(procs, s, i);
    if t != s {
        let seq0 = s.sequence;
        let seq1 = t.sequence;
        assert(seq1 == seq0.push(i as usize));
        assert(seq1.drop_last() =~= seq0);
        assert(seq1.take(seq0.len() as int) =~= seq0);
        lemma_unfinished_mark(s.finish, i);
        assert(!seq0.contains(i as usize));
        assert forall|a: int, b: int| 0 <= a < b < seq1.len() implies seq1[a] != seq1[b] by {
            if b == seq0.len() {
                assert(seq0[a] == seq1[a]);
            }
        }
        assert forall|p: int| 0 <= p < procs.len() implies (t.finish[p] <==> seq1.contains(
            p as usize,
        )) by {
            if seq0.contains(p as usize) {
                let w = choose|w: int| 0 <= w < seq0.len() && seq0[w] == p as usize;
                assert(seq1[w] == p as usize);
            }
            if seq1.contains(p as usize) && p != i {
                let w = choose|w: int| 0 <= w < seq1.len() && seq1[w] == p as usize;
                assert(seq0[w] == p as usize);
            }
            if p == i {
                assert(seq1[seq0.len() as int] == p as usize);
            }
        }
        assert forall|j: int| 0 <= j < seq1.len() implies can_finish(
            #[trigger] procs[seq1[j] as int].need,
            work_after(procs, available, seq1.take(j)),
        ) by {
            if j < seq0.len() {
                assert(seq1.take(j) =~= seq0.take(j));
                assert(seq1[j] == seq0[j]);
            }
        }
    }
}

proof fn lemma_scan_prefix_consistent(
    procs: Seq<ProcessView>,
    available: Seq<u8>,
    s: SimState,
    i: nat,
)
    requires
        procs.len() <= usize::MAX,
        forall|p: int| 0 <= p < procs.len() ==> (#[trigger] procs[p]).id == p,
        i <= procs.len(),
        consistent(procs, available, s),
    ensures
        consistent(procs, available, scan_prefix(procs, s, i)),
    decreases i,
{
    if i > 0 {
        lemma_scan_prefix_consistent(procs, available, s, (i - 1) as nat);
        lemma_visit_consistent(procs, available, scan_prefix(procs, s, (i - 1) as nat), i - 1);
    }
}

proof fn lemma_run_consistent(procs: Seq<ProcessView>, available: Seq<u8>, s: SimState)
    requires
        procs.len() <= usize::MAX,
        forall|p: int| 0 <= p < procs.len() ==> (#[trigger] procs[p]).id == p,
        consistent(procs, available, s),
    ensures
        consistent(procs, available, run(procs, s)),
    decreases unfinished(s.finish),
{
    let next = scan(procs, s);
    lemma_scan_prefix_consistent(procs, available, s, procs.len());
    if unfinished(next.finish) < unfinished(s.finish) {
        lemma_run_consistent(procs, available, next);
    }
}

/// Whenever the safety check returns a sequence, it is a safe completion
/// order: every process appears once, and each one's remaining need fits in
/// what is free after those before it have finished, so no entry of the
/// work vector ever goes below zero.
pub proof fn lemma_verdict_is_safe_order(procs: Seq<ProcessView>, available: Seq<u8>)
    requires
        procs.len() <= usize::MAX,
        forall|p: int| 0 <= p < procs.len() ==> (#[trigger] procs[p]).id == p,
        safe_sequence(procs, available) is Some,
    ensures
        is_safe_order(procs, available, safe_sequence(procs, available)->Some_0),
{
    let s0 = initial_state(available, procs.len());
    lemma_unfinished_none_done(procs.len());
    assert(s0.work =~= work_after(procs, available, s0.sequence));
    assert forall|i: int| 0 <= i < procs.len() implies (s0.finish[i] <==> s0.sequence.contains(
        i as usize,
    )) by {}
    lemma_run_consistent(procs, available, s0);
}

/// Each process is valid and has one entry per resource type.
pub open spec fn sized_to(procs: Seq<ProcessView>, available: Seq<u8>) -> bool {
    forall|p: int|
        0 <= p < procs.len() ==> (#[trigger] procs[p]).valid() && procs[p].allocation.len()
            == available.len()
}

/// No id occurs twice in `s`, and each names a process.
pub open spec fn distinct_ids(s: Seq<usize>, n: nat) -> bool {
    &&& forall|j: int| 0 <= j < s.len() ==> (s[j] as int) < n
    &&& forall|a: int, b: int| 0 <= a < b < s.len() ==> s[a] != s[b]
}

proof fn lemma_work_len(procs: Seq<ProcessView>, available: Seq<u8>, b: Seq<usize>)
    ensures
        work_after(procs, available, b).len() == available.len(),
    decreases b.len(),
{
    if b.len() > 0 {
        lemma_work_len(procs, available, b.drop_last());
    }
}

proof fn lemma_work_at_least(procs: Seq<ProcessView>, available: Seq<u8>, b: Seq<usize>, k: int)
    requires
        0 <= k < available.len(),
    ensures
        work_after(procs, available, b)[k] >= available[k],
    decreases b.len(),
{
    if b.len() > 0 {
        lemma_work_at_least(procs, available, b.drop_last(), k);
        lemma_work_len(procs, available, b.drop_last());
    }
}

/// What `b` frees is what `b` without its `j`-th entry frees, plus that
/// entry's allocation.
proof fn lemma_work_remove(
    procs: Seq<ProcessView>,
    available: Seq<u8>,
    b: Seq<usize>,
    j: int,
    k: int,
)
    requires
        0 <= j < b.len(),
        0 <= k < available.len(),
    ensures
        work_after(procs, available, b)[k] == work_after(procs, available, b.remove(j))[k]
            + procs[b[j] as int].allocation[k],
    decreases b.len(),
{
    lemma_work_len(procs, available, b.drop_last());
    if j == b.len() - 1 {
        assert(b.remove(j) =~= b.drop_last());
    } else {
        lemma_work_remove(procs, available, b.drop_last(), j, k);
        assert(b.remove(j).drop_last() =~= b.drop_last().remove(j));
        lemma_work_len(procs, available, b.remove(j).drop_last());
    }
}

/// A set of processes frees no more than a larger set does.
proof fn lemma_work_subset(procs: Seq<ProcessView>, available: Seq<u8>, a: Seq<usize>, b: Seq<usize>)
    requires
        distinct_ids(a, procs.len()),
        distinct_ids(b, procs.len()),
        forall|i: int| 0 <= i < a.len() ==> b.contains(#[trigger] a[i]),
    ensures
        a.len() <= b.len(),
        forall|k: int|
            0 <= k < available.len() ==> work_after(procs, available, a)[k] <= work_after(
                procs,
                available,
                b,
            )[k],
    decreases a.len(),
{
    if a.len() == 0 {
        assert forall|k: int| 0 <= k < available.len() implies work_after(procs, available, a)[k]
            <= work_after(procs, available, b)[k] by {
            lemma_work_at_least(procs, available, b, k);
        }
    } else {
        let x = a.last();
        assert(b.contains(a[a.len() - 1]));
        let j = choose|j: int| 0 <= j < b.len() && b[j] == x;
        let a2 = a.drop_last();
        let b2 = b.remove(j);
        assert forall|i: int| 0 <= i < a2.len() implies b2.contains(#[trigger] a2[i]) by {
            assert(b.contains(a[i]));
            let m = choose|m: int| 0 <= m < b.len() && b[m] == a[i];
            assert(a[i] != a[a.len() - 1]);
            if m < j {
                assert(b2[m] == a2[i]);
            } else {
                assert(b2[m - 1] == a2[i]);
            }
        }
        lemma_work_subset(procs, available, a2, b2);
        lemma_work_len(procs, available, a2);
        assert forall|k: int| 0 <= k < available.len() implies work_after(procs, available, a)[k]
            <= work_after(procs, available, b)[k] by {
            lemma_work_remove(procs, available, b, j, k);
        }
    }
}

/// A scan either lets some process finish or changes nothing; in the second
/// case each process it looked at was finished or did not fit.
proof fn lemma_scan_prefix_stuck(procs: Seq<ProcessView>, available: Seq<u8>, s: SimState, i: nat)
    requires
        procs.len() <= usize::MAX,
        forall|p: int| 0 <= p < procs.len() ==> (#[trigger] procs[p]).id == p,
        i <= procs.len(),
        consistent(procs, available, s),
    ensures
        unfinished(scan_prefix(procs, s, i).finish) <= unfinished(s.finish),
        unfinished(scan_prefix(procs, s, i).finish) == unfinished(s.finish) ==> {
            &&& scan_prefix(procs, s, i) == s
            &&& forall|p: int| 0 <= p < i ==> s.finish[p] || !can_finish(procs[p].need, s.work)
        },
    decreases i,
{
    if i > 0 {
        let t = scan_prefix(procs, s, (i - 1) as nat);
        lemma_scan_prefix_stuck(procs, available, s, (i - 1) as nat);
        lemma_scan_prefix_consistent(procs, available, s, (i - 1) as nat);
        if !t.finish[i - 1] && can_finish(procs[i - 1].need, t.work) {
            lemma_unfinished_mark(t.finish, i - 1);
        }
    }
}

/// Where the simulation stops, every unfinished process needs more than is
/// free.
proof fn lemma_run_stuck(procs: Seq<ProcessView>, available: Seq<u8>, s: SimState)
    requires
        procs.len() <= usize::MAX,
        forall|p: int| 0 <= p < procs.len() ==> (#[trigger] procs[p]).id == p,
        consistent(procs, available, s),
    ensures
        forall|p: int|
            0 <= p < procs.len() ==> run(procs, s).finish[p] || !can_finish(
                procs[p].need,
                run(procs, s).work,
            ),
    decreases unfinished(s.finish),
{
    let next = scan(procs, s);
    lemma_scan_prefix_stuck(procs, available, s, procs.len());
    if unfinished(next.finish) < unfinished(s.finish) {
        lemma_scan_prefix_consistent(procs, available, s, procs.len());
        lemma_run_stuck(procs, available, next);
        assert(run(procs, s) == run(procs, next));
    } else {
        assert(run(procs, s) == next);
        assert(next == s);
    }
}

proof fn lemma_first_unfinished(order: Seq<usize>, finish: Seq<bool>, j: int) -> (j0: int)
    requires
        0 <= j < order.len(),
        forall|m: int| 0 <= m < order.len() ==> (order[m] as int) < finish.len(),
        !finish[order[j] as int],
    ensures
        0 <= j0 <= j,
        !finish[order[j0] as int],
        forall|m: int| 0 <= m < j0 ==> finish[order[m] as int],
    decreases j,
{
    if exists|m: int| 0 <= m < j && !finish[order[m] as int] {
        let m = choose|m: int| 0 <= m < j && !finish[order[m] as int];
        lemma_first_unfinished(order, finish, m)
    } else {
        j
    }
}

/// When the safety check finds no sequence, there is none: no order lets
/// every process finish.
pub proof fn lemma_no_verdict_no_safe_order(
    procs: Seq<ProcessView>,
    available: Seq<u8>,
    order: Seq<usize>,
)
    requires
        procs.len() <= usize::MAX,
        forall|p: int| 0 <= p < procs.len() ==> (#[trigger] procs[p]).id == p,
        sized_to(procs, available),
        safe_sequence(procs, available) is None,
    ensures
        !is_safe_order(procs, available, order),
{
    if is_safe_order(procs, available, order) {
        let s0 = initial_state(available, procs.len());
        lemma_unfinished_none_done(procs.len());
        assert(s0.work =~= work_after(procs, available, s0.sequence));
        assert forall|i: int| 0 <= i < procs.len() implies (s0.finish[i] <==> s0.sequence.contains(
            i as usize,
        )) by {}
        lemma_run_consistent(procs, available, s0);
        lemma_run_stuck(procs, available, s0);
        let e = run(procs, s0);
        if forall|j: int| 0 <= j < order.len() ==> e.finish[order[j] as int] {
            assert forall|i: int| 0 <= i < order.len() implies e.sequence.contains(
                #[trigger] order[i],
            ) by {
                assert(e.finish[order[i] as int]);
            }
            lemma_work_subset(procs, available, order, e.sequence);
        }
        let j = choose|j: int| 0 <= j < order.len() && !e.finish[order[j] as int];
        let j0 = lemma_first_unfinished(order, e.finish, j);
        let prefix = order.take(j0);
        assert forall|i: int| 0 <= i < prefix.len() implies e.sequence.contains(
            #[trigger] prefix[i],
        ) by {
            assert(prefix[i] == order[i]);
            assert(e.finish[order[i] as int]);
        }
        lemma_work_subset(procs, available, prefix, e.sequence);
        let p = order[j0] as int;
        assert(procs[p].valid());
        assert(can_finish(procs[p].need, work_after(procs, available, prefix)));
        assert(procs[p].need.len() == available.len());
        lemma_work_len(procs, available, prefix);
        assert(can_finish(procs[p].need, e.work));
    }
}

/// A lone process whose allocation already equals its maximum need needs
/// nothing more, so it finishes at once, whatever is available.
pub proof fn lemma_satisfied_process_safe(p: ProcessView, available: Seq<u8>)
    requires
        p.id == 0,
        p.valid(),
        p.allocation == p.max_need,
        p.allocation.len() == available.len(),
    ensures
        safe_sequence(seq![p], available) == Some(seq![0usize]),
{
    let procs = seq![p];
    let s0 = initial_state(available, 1);
    assert(procs[0] == p);
    assert forall|k: int| 0 <= k < p.need.len() implies p.need[k] <= s0.work[k] by {
        assert(p.need[k] == 0);
    }
    let s1 = scan(procs, s0);
    assert(scan_prefix(procs, s0, 0) == s0);
    assert(s1 == visit(procs, s0, 0));
    assert(s1.finish =~= seq![true]);
    assert(s0.finish =~= seq![false]);
    assert(seq![true].drop_last() =~= Seq::<bool>::empty());
    assert(seq![false].drop_last() =~= Seq::<bool>::empty());
    assert(unfinished(Seq::<bool>::empty()) == 0);
    assert(seq![true].last());
    assert(!seq![false].last());
    assert(unfinished(seq![true]) == 0);
    assert(unfinished(s1.finish) == 0);
    assert(unfinished(s0.finish) == 1);
    let s2 = scan(procs, s1);
    assert(scan_prefix(procs, s1, 0) == s1);
    assert(s2 == s1);
    assert(run(procs, s1) == s1);
    assert(run(procs, s0) == s1);
    assert(s1.sequence =~= seq![0usize]);
}

pub(crate) proof fn lemma_unfinished_bound(finish: Seq<bool>)
    ensures
        unfinished(finish) <= finish.len(),
    decreases finish.len(),
{
    if finish.len() > 0 {
        lemma_unfinished_bound(finish.drop_last());
    }
}

pub(crate) proof fn lemma_unfinished_none_done(n: nat)
    ensures
        unfinished(Seq::new(n, |i: int| false)) == n,
    decreases n,
{
    if n > 0 {
        lemma_unfinished_none_done((n - 1) as nat);
        assert(Seq::new(n, |i: int| false).drop_last() =~= Seq::new((n - 1) as nat, |i: int| false));
    }
}

/// Marking one unfinished process as finished leaves one fewer unfinished.
pub(crate) proof fn lemma_unfinished_mark(finish: Seq<bool>, i: int)
    requires
        0 <= i < finish.len(),
        !finish[i],
    ensures
        unfinished(finish.update(i, true)) + 1 == unfinished(finish),
    decreases finish.len(),
{
    let f2 = finish.update(i, true);
    if i == finish.len() - 1 {
        assert(f2.drop_last() =~= finish.drop_last());
    } else {
        lemma_unfinished_mark(finish.drop_last(), i);
        assert(f2.drop_last() =~= finish.drop_last().update(i, true));
    }
}

} // verus!
