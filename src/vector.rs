//! Element-wise comparisons over resource vectors: one count per resource
//! type, indexed by position.
use vstd::prelude::*;

verus! {

/// `a` and `b` have one entry per resource type, and `a` is at most `b` at
/// every one of them.
pub open spec fn fits_within(a: Seq<u8>, b: Seq<u8>) -> bool {
    &&& a.len() == b.len()
    &&& forall|k: int| 0 <= k < a.len() ==> a[k] <= b[k]
}

/// `k` is the lowest index at which `a` exceeds `b`.
pub open spec fn is_first_excess(a: Seq<u8>, b: Seq<u8>, k: int) -> bool {
    &&& 0 <= k < a.len()
    &&& k < b.len()
    &&& a[k] > b[k]
    &&& forall|j: int| 0 <= j < k ==> a[j] <= b[j]
}

/// What is left of `b` once `a` is taken from it, entry by entry.
pub open spec fn remaining(b: Seq<u8>, a: Seq<u8>) -> Seq<u8> {
    Seq::new(a.len(), |k: int| (b[k] - a[k]) as u8)
}

/// Returns the lowest index at which `a` exceeds `b`, or `None` where `a`
/// fits within `b`. Both have one entry per resource type.
pub fn first_excess(a: &Vec<u8>, b: &Vec<u8>) -> (r: Option<usize>)
    requires
        a@.len() == b@.len(),
    ensures
        match r {
            Some(k) => is_first_excess(a@, b@, k as int),
            None => fits_within(a@, b@),
        },
{
    let mut k: usize = 0;
    while k < a.len()
        invariant
            a@.len() == b@.len(),
            k <= a@.len(),
            forall|j: int| 0 <= j < k ==> a@[j] <= b@[j],
        decreases a@.len() - k,
    {
        if a[k] > b[k] {
            return Some(k);
        }
        k = k + 1;
    }
    None
}

} // verus!
