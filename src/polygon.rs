//! Clipping a 2D cell, a polygon with counter-clockwise vertices whose edge
//! `i` runs from vertex `i` to vertex `(i + 1) % n`.
use vstd::prelude::*;
use crate::clip::{Side, ClipOutcome, kept, all_kept, none_below, classify, is_kept, cyclic_next};

verus! {

/// A vertex of a clipped polygon, named through the polygon it was cut from.
#[derive(Clone, Copy, Debug, PartialEq, Eq, Structural)]
pub enum PolyPoint {
    /// The old vertex with this index, kept as it is.
    Vertex(usize),
    /// The point where the plane crosses the old edge from the first vertex
    /// to the second (`a + t (b - a)` with `t = d_a / (d_a - d_b)`).
    Crossing(usize, usize),
}

/// The polygon left by a cut: its vertices in order, and the label of the
/// edge that starts at each of them.
#[derive(Debug)]
pub struct PolygonCut {
    pub points: Vec<PolyPoint>,
    pub neighbors: Vec<i32>,
}

/// What walking old edge `i` (from `i` to `i + 1`, cyclically) contributes
/// to the new vertex list.
pub open spec fn step_points(sides: Seq<Side>, i: int) -> Seq<PolyPoint> {
    let j = cyclic_next(i, sides.len() as int);
    if kept(sides[i]) {
        if kept(sides[j]) {
            seq![PolyPoint::Vertex(i as usize)]
        } else {
            seq![PolyPoint::Vertex(i as usize), PolyPoint::Crossing(i as usize, j as usize)]
        }
    } else if kept(sides[j]) {
        seq![PolyPoint::Crossing(i as usize, j as usize)]
    } else {
        seq![]
    }
}

/// The labels of the new edges that start at the points of `step_points`:
/// an edge keeps its label, and the edge that leaves the exit crossing lies
/// on the clipping plane and takes `label`.
pub open spec fn step_labels(sides: Seq<Side>, nbs: Seq<i32>, label: i32, i: int) -> Seq<i32> {
    let j = cyclic_next(i, sides.len() as int);
    if kept(sides[i]) {
        if kept(sides[j]) {
            seq![nbs[i]]
        } else {
            seq![nbs[i], label]
        }
    } else if kept(sides[j]) {
        seq![nbs[i]]
    } else {
        seq![]
    }
}

/// New vertices contributed by the first `k` old edges.
pub open spec fn cut_points(sides: Seq<Side>, k: int) -> Seq<PolyPoint>
    decreases k,
{
    if k <= 0 {
        seq![]
    } else {
        cut_points(sides, k - 1) + step_points(sides, k - 1)
    }
}

/// Edge labels contributed by the first `k` old edges.
pub open spec fn cut_labels(sides: Seq<Side>, nbs: Seq<i32>, label: i32, k: int) -> Seq<i32>
    decreases k,
{
    if k <= 0 {
        seq![]
    } else {
        cut_labels(sides, nbs, label, k - 1) + step_labels(sides, nbs, label, k - 1)
    }
}

proof fn lemma_cut_points_mono(sides: Seq<Side>, m: int, k: int)
    requires
        0 <= m <= k,
    ensures
        cut_points(sides, m).len() <= cut_points(sides, k).len(),
    decreases k,
{
    if m < k {
        lemma_cut_points_mono(sides, m, k - 1);
    }
}

/// A kept vertex, or one whose successor lies on the other side, adds at
/// least one point; a kept vertex whose successor is dropped adds two.
proof fn lemma_step_len(sides: Seq<Side>, i: int)
    requires
        0 <= i < sides.len(),
    ensures
        step_points(sides, i).len() >= (if kept(sides[i]) { 1int } else { 0int }) + (if kept(sides[i])
            != kept(sides[cyclic_next(i, sides.len() as int)]) {
            1int
        } else {
            0int
        }),
{
}

/// A vertex at which the kept side changes, scanning forward from `from`.
proof fn lemma_change_after(sides: Seq<Side>, from: int, x: int) -> (i: int)
    requires
        0 <= from < x < sides.len(),
        kept(sides[from]) != kept(sides[x]),
    ensures
        from <= i < x,
        kept(sides[i]) == kept(sides[from]),
        kept(sides[i + 1]) != kept(sides[from]),
    decreases x - from,
{
    if kept(sides[from + 1]) != kept(sides[from]) {
        from
    } else {
        lemma_change_after(sides, from + 1, x)
    }
}

/// A cut, which keeps some vertex and drops another, leaves at least three
/// points.
proof fn lemma_cut_has_three(sides: Seq<Side>)
    requires
        sides.len() >= 3,
        !all_kept(sides),
        !none_below(sides),
    ensures
        cut_points(sides, sides.len() as int).len() >= 3,
{
    let n = sides.len() as int;
    let b = choose|v: int| 0 <= v < n && !kept(sides[v]);
    let a = choose|v: int| 0 <= v < n && sides[v] == Side::Below;
    assert(kept(sides[a]));
    // first change of side, from vertex 0 on
    let x = if kept(sides[0]) { b } else { a };
    assert(kept(sides[0]) != kept(sides[x]));
    let t1 = lemma_change_after(sides, 0, x);
    // a second change: back to the side of vertex 0, or across the wrap
    let t2 = if exists|y: int| t1 + 1 < y < n && kept(#[trigger] sides[y]) == kept(sides[0]) {
        let y = choose|y: int| t1 + 1 < y < n && kept(#[trigger] sides[y]) == kept(sides[0]);
        lemma_change_after(sides, t1 + 1, y)
    } else {
        n - 1
    };
    if t2 == n - 1 && t1 + 1 != n - 1 {
        assert(kept(sides[n - 1]) != kept(sides[0]));
    }
    assert(t1 < t2);
    assert(kept(sides[t2]) != kept(sides[cyclic_next(t2, n)]));
    assert(kept(sides[t1]) != kept(sides[cyclic_next(t1, n)]));
    lemma_step_len(sides, t1);
    lemma_step_len(sides, t2);
    lemma_step_len(sides, a);
    lemma_cut_points_mono(sides, t2 + 1, n);
    lemma_cut_points_mono(sides, t1 + 1, t2);
    if a != t1 && a != t2 {
        if a < t1 {
            lemma_cut_points_mono(sides, a + 1, t1);
        } else if a < t2 {
            lemma_cut_points_mono(sides, t1 + 1, a);
            lemma_cut_points_mono(sides, a + 1, t2);
        } else {
            lemma_cut_points_mono(sides, t2 + 1, a);
            lemma_cut_points_mono(sides, a + 1, n);
        }
    }
}

/// Clips a polygon by a half-plane, given the side of each vertex.
///
/// A polygon of fewer than three vertices, or one with no vertex above the
/// plane, is left as it is; one with no vertex below the plane vanishes.
/// Otherwise every kept vertex stays in order, a crossing point is inserted
/// on each edge that leaves or enters the kept side, straddling edges keep
/// their labels and the new edge on the plane is labelled `neighbor_id`.
pub fn clip_polygon(sides: &Vec<Side>, edge_neighbors: &Vec<i32>, neighbor_id: i32) -> (r:
    ClipOutcome<PolygonCut>)
    requires
        sides.len() == edge_neighbors.len(),
    ensures
        match r {
            ClipOutcome::Unchanged => sides.len() < 3 || all_kept(sides@),
            ClipOutcome::Emptied => sides.len() >= 3 && !all_kept(sides@) && none_below(sides@),
            ClipOutcome::Cut(c) => {
                &&& sides.len() >= 3
                &&& !all_kept(sides@)
                &&& !none_below(sides@)
                &&& c.points@ == cut_points(sides@, sides.len() as int)
                &&& c.points.len() >= 3
                &&& c.neighbors@ == cut_labels(
                    sides@,
                    edge_neighbors@,
                    neighbor_id,
                    sides.len() as int,
                )
            },
        },
{
    let n = sides.len();
    if n < 3 {
        return ClipOutcome::Unchanged;
    }
    let (all_in, all_out) = classify(sides);
    if all_in {
        return ClipOutcome::Unchanged;
    }
    if all_out {
        return ClipOutcome::Emptied;
    }
    let mut points: Vec<PolyPoint> = Vec::new();
    let mut neighbors: Vec<i32> = Vec::new();
    let mut i: usize = 0;
    while i < n
        invariant
            n == sides.len(),
            n == edge_neighbors.len(),
            n >= 3,
            i <= n,
            points@ == cut_points(sides@, i as int),
            neighbors@ == cut_labels(sides@, edge_neighbors@, neighbor_id, i as int),
        decreases n - i,
    {
        let j: usize = if i + 1 == n { 0 } else { i + 1 };
        let nb = edge_neighbors[i];
        if is_kept(sides[i]) {
            points.push(PolyPoint::Vertex(i));
            neighbors.push(nb);
            if !is_kept(sides[j]) {
                points.push(PolyPoint::Crossing(i, j));
                neighbors.push(neighbor_id);
            }
        } else if is_kept(sides[j]) {
            points.push(PolyPoint::Crossing(i, j));
            neighbors.push(nb);
        }
        proof {
            assert(points@ == cut_points(sides@, i as int + 1));
            assert(neighbors@ == cut_labels(sides@, edge_neighbors@, neighbor_id, i as int + 1));
        }
        i = i + 1;
    }
    proof {
        lemma_cut_has_three(sides@);
    }
    ClipOutcome::Cut(PolygonCut { points, neighbors })
}

} // verus!
