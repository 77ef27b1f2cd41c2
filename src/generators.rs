//! Compaction of the generator list when some generators are rejected (by
//! a wall added later, say): survivors keep their order and are numbered
//! afresh from zero.
use vstd::prelude::*;

verus! {

/// The entries among the first `n` of `items` whose mark is set, in order.
pub open spec fn marked(items: Seq<usize>, keep: Seq<bool>, n: int) -> Seq<usize>
    decreases n,
{
    if n <= 0 {
        seq![]
    } else {
        marked(items, keep, n - 1) + if keep[n - 1] {
            seq![items[n - 1]]
        } else {
            seq![]
        }
    }
}

/// The indices `i` with `keep[i]` set, in increasing order: survivor `k`
/// of a compaction is the generator that had index `r[k]`.
pub fn surviving_indices(keep: &Vec<bool>) -> (r: Vec<usize>)
    ensures
        r@ == marked(Seq::new(keep.len() as nat, |i: int| i as usize), keep@, keep.len() as int),
{
    let ghost ids = Seq::new(keep.len() as nat, |i: int| i as usize);
    let mut r: Vec<usize> = Vec::new();
    let mut i: usize = 0;
    while i < keep.len()
        invariant
            i <= keep.len(),
            ids == Seq::new(keep.len() as nat, |i: int| i as usize),
            r@ == marked(ids, keep@, i as int),
        decreases keep.len() - i,
    {
        if keep[i] {
            r.push(i);
        }
        assert(ids[i as int] == i);
        i = i + 1;
    }
    r
}

/// Whether any generator would be dropped: a compaction is then needed.
pub fn any_rejected(keep: &Vec<bool>) -> (r: bool)
    ensures
        r == exists|i: int| 0 <= i < keep.len() && !keep@[i],
{
    let mut i: usize = 0;
    while i < keep.len()
        invariant
            i <= keep.len(),
            forall|j: int| 0 <= j < i ==> keep@[j],
        decreases keep.len() - i,
    {
        if !keep[i] {
            return true;
        }
        i = i + 1;
    }
    false
}

} // verus!
