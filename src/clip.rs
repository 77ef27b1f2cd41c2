//! Vocabulary shared by the clippers: where a vertex lies relative to a
//! clipping plane, and what a cut did to a cell.
use vstd::prelude::*;

verus! {

/// Position of a vertex relative to an oriented clipping plane, after the
/// caller has compared its signed distance `d` with the tolerance `eps`.
#[derive(Clone, Copy, Debug, PartialEq, Eq, Structural)]
pub enum Side {
    /// `d < -eps`: strictly on the kept side.
    Below,
    /// `|d| <= eps`: on the plane, counted as kept.
    On,
    /// `d > eps`: on the discarded side.
    Above,
}

/// What a clip did to a cell.
#[derive(Debug)]
pub enum ClipOutcome<T> {
    /// No vertex lies above the plane: the cell is untouched.
    Unchanged,
    /// No vertex lies below the plane: the cell collapses to nothing.
    Emptied,
    /// The plane crosses the cell; the payload describes the new cell.
    Cut(T),
}

/// A vertex survives a cut unless it lies strictly above the plane.
pub open spec fn kept(s: Side) -> bool {
    s != Side::Above
}

/// Index of the element after `i` in a cyclic sequence of length `n`.
pub open spec fn cyclic_next(i: int, n: int) -> int {
    if i + 1 >= n {
        0
    } else {
        i + 1
    }
}

/// Every vertex is kept.
pub open spec fn all_kept(sides: Seq<Side>) -> bool {
    forall|v: int| 0 <= v < sides.len() ==> kept(#[trigger] sides[v])
}

/// No vertex lies strictly below the plane.
pub open spec fn none_below(sides: Seq<Side>) -> bool {
    forall|v: int| 0 <= v < sides.len() ==> #[trigger] sides[v] != Side::Below
}

pub fn is_kept(s: Side) -> (r: bool)
    ensures
        r == kept(s),
{
    match s {
        Side::Above => false,
        _ => true,
    }
}

/// Decides between the untouched, emptied and cut outcomes.
pub fn classify(sides: &Vec<Side>) -> (r: (bool, bool))
    ensures
        r.0 == all_kept(sides@),
        r.1 == none_below(sides@),
{
    let mut all_in = true;
    let mut all_out = true;
    let mut i: usize = 0;
    while i < sides.len()
        invariant
            i <= sides.len(),
            all_in == (forall|v: int| 0 <= v < i ==> kept(#[trigger] sides@[v])),
            all_out == (forall|v: int| 0 <= v < i ==> #[trigger] sides@[v] != Side::Below),
        decreases sides.len() - i,
    {
        match sides[i] {
            Side::Above => {
                all_in = false;
            },
            Side::Below => {
                all_out = false;
            },
            Side::On => {},
        }
        i = i + 1;
    }
    (all_in, all_out)
}

} // verus!
