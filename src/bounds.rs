//! Neighbour labels of the domain box and of walls.
use vstd::prelude::*;

verus! {

/// Largest id a wall may carry; every wall id is at or below it.
pub const WALL_ID_MAX: i32 = -1000;

/// Label of the domain-box face at the low end of the x axis.
pub const BOX_ID_LEFT: i32 = -1;
/// Label of the domain-box face at the high end of the x axis.
pub const BOX_ID_RIGHT: i32 = -2;
/// Label of the domain-box face at the low end of the y axis.
pub const BOX_ID_FRONT: i32 = -3;
/// Label of the domain-box face at the high end of the y axis.
pub const BOX_ID_BACK: i32 = -4;
/// Label of the domain-box face at the low end of the z axis.
pub const BOX_ID_BOTTOM: i32 = -5;
/// Label of the domain-box face at the high end of the z axis.
pub const BOX_ID_TOP: i32 = -6;

/// Label of the face of the domain box on the given axis and side.
pub open spec fn box_side_spec(axis: int, is_max: bool) -> int {
    -1 - (2 * axis + if is_max { 1int } else { 0int })
}

/// Neighbour label of a domain-box face: `-1 - (2 * axis + is_max)`, so the
/// faces of a box in `D` dimensions are labelled `-1 ..= -2D`.
pub fn box_side(axis: usize, is_max: bool) -> (r: i32)
    requires
        2 * axis + 1 <= i32::MAX,
    ensures
        r as int == box_side_spec(axis as int, is_max),
{
    let side: i32 = if is_max { 1 } else { 0 };
    -1 - (2 * (axis as i32) + side)
}

/// Whether `id` may label a wall (it lies at or below `WALL_ID_MAX`).
pub fn is_wall_id(id: i32) -> (r: bool)
    ensures
        r == (id <= WALL_ID_MAX),
{
    id <= WALL_ID_MAX
}

} // verus!
