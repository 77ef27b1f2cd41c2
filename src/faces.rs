//! The face-indexed cell: its structure as a list of vertex rings, one per
//! face, each with a neighbour label, and the clip of that structure by a
//! half-space.
use vstd::prelude::*;
use crate::bounds::{box_side, box_side_spec};
use crate::clip::{Side, ClipOutcome, kept, all_kept, none_below, classify, is_kept, cyclic_next};

verus! {

/// Structure of a convex cell: `num_vertices` vertices (their coordinates
/// are kept by the caller, in the same order) and its faces, each a ring of
/// vertex indices in outward orientation, with `neighbors[f]` the label of
/// face `f`.
#[derive(Clone, Debug)]
pub struct FaceTopology {
    pub num_vertices: usize,
    pub faces: Vec<Vec<usize>>,
    pub neighbors: Vec<i32>,
}

/// The new structure left by a cut that crossed the cell.
///
/// New vertex `k < kept.len()` is old vertex `kept[k]`; new vertex
/// `kept.len() + k` is the point where the plane crosses the old edge
/// `crossings[k]`, taken in the direction in which it was first walked.
#[derive(Debug)]
pub struct FacesCut {
    pub kept: Vec<usize>,
    pub crossings: Vec<(usize, usize)>,
    pub topology: FaceTopology,
}

pub open spec fn face_view(faces: Seq<Vec<usize>>) -> Seq<Seq<usize>> {
    faces.map_values(|f: Vec<usize>| f@)
}

/// Every face has at least three vertices, all of them existing ones.
pub open spec fn faces_wf(fv: Seq<Seq<usize>>, num_vertices: int) -> bool {
    &&& forall|f: int| 0 <= f < fv.len() ==> #[trigger] fv[f].len() >= 3
    &&& forall|f: int, k: int|
        0 <= f < fv.len() && 0 <= k < fv[f].len() ==> #[trigger] fv[f][k] < num_vertices
}

/// Faces of the domain box over its corners, numbered 0 to 7 in the order
/// (0,0,0), (1,0,0), (1,1,0), (0,1,0), (0,0,1), (1,0,1), (1,1,1), (0,1,1)
/// (each lower square counter-clockwise seen from above): bottom, top,
/// front, back, left, right.
pub open spec fn box_faces() -> Seq<Seq<usize>> {
    seq![
        seq![3usize, 2, 1, 0],
        seq![4usize, 5, 6, 7],
        seq![0usize, 1, 5, 4],
        seq![2usize, 3, 7, 6],
        seq![0usize, 4, 7, 3],
        seq![1usize, 2, 6, 5],
    ]
}

/// Labels of `box_faces`: each the `box_side` label of its axis and end.
pub open spec fn box_labels() -> Seq<int> {
    seq![
        box_side_spec(2, false),
        box_side_spec(2, true),
        box_side_spec(1, false),
        box_side_spec(1, true),
        box_side_spec(0, false),
        box_side_spec(0, true),
    ]
}

impl FaceTopology {
    pub open spec fn wf(&self) -> bool {
        &&& self.faces.len() == self.neighbors.len()
        &&& faces_wf(face_view(self.faces@), self.num_vertices as int)
    }

    /// The seed cell: the domain box, with its eight corners and six faces.
    pub fn new_box() -> (r: FaceTopology)
        ensures
            r.wf(),
            r.num_vertices == 8,
            face_view(r.faces@) == box_faces(),
            r.neighbors@.len() == 6,
            forall|f: int| 0 <= f < 6 ==> r.neighbors@[f] as int == #[trigger] box_labels()[f],
    {
        let faces: Vec<Vec<usize>> = vec![
            vec![3, 2, 1, 0],
            vec![4, 5, 6, 7],
            vec![0, 1, 5, 4],
            vec![2, 3, 7, 6],
            vec![0, 4, 7, 3],
            vec![1, 2, 6, 5],
        ];
        let neighbors: Vec<i32> = vec![
            box_side(2, false),
            box_side(2, true),
            box_side(1, false),
            box_side(1, true),
            box_side(0, false),
            box_side(0, true),
        ];
        let r = FaceTopology { num_vertices: 8, faces, neighbors };
        assert(face_view(r.faces@) =~= box_faces());
        r
    }
}

/// Number of vertex slots in the first `j` faces.
pub open spec fn total_len(fv: Seq<Seq<usize>>, j: int) -> int
    decreases j,
{
    if j <= 0 {
        0
    } else {
        total_len(fv, j - 1) + fv[j - 1].len()
    }
}

/// Number of kept vertices among the first `v`.
pub open spec fn rank(sides: Seq<Side>, v: int) -> int
    decreases v,
{
    if v <= 0 {
        0
    } else {
        rank(sides, v - 1) + if kept(sides[v - 1]) {
            1int
        } else {
            0int
        }
    }
}

/// The kept vertices among the first `v`, in increasing order.
pub open spec fn kept_indices(sides: Seq<Side>, v: int) -> Seq<usize>
    decreases v,
{
    if v <= 0 {
        seq![]
    } else {
        kept_indices(sides, v - 1) + if kept(sides[v - 1]) {
            seq![(v - 1) as usize]
        } else {
            seq![]
        }
    }
}

/// `p` is the edge between `a` and `b`, in either direction.
pub open spec fn same_edge(p: (usize, usize), a: usize, b: usize) -> bool {
    (p.0 == a && p.1 == b) || (p.0 == b && p.1 == a)
}

/// Position of the first entry of `cr` that is the edge between `a` and
/// `b`, or -1.
pub open spec fn find_edge(cr: Seq<(usize, usize)>, a: usize, b: usize) -> int
    decreases cr.len(),
{
    if cr.len() == 0 {
        -1
    } else {
        let f = find_edge(cr.drop_last(), a, b);
        if f >= 0 {
            f
        } else if same_edge(cr.last(), a, b) {
            cr.len() - 1
        } else {
            -1
        }
    }
}

/// The edges of `s`, each undirected edge once, at its first occurrence.
pub open spec fn dedup_edges(s: Seq<(usize, usize)>) -> Seq<(usize, usize)>
    decreases s.len(),
{
    if s.len() == 0 {
        seq![]
    } else {
        let d = dedup_edges(s.drop_last());
        if find_edge(d, s.last().0, s.last().1) >= 0 {
            d
        } else {
            d.push(s.last())
        }
    }
}

/// No undirected edge is listed twice.
pub open spec fn edges_distinct(cr: Seq<(usize, usize)>) -> bool {
    forall|k1: int, k2: int|
        0 <= k1 < cr.len() && 0 <= k2 < cr.len() && k1 != k2 ==> !same_edge(#[trigger] cr[k1], (#[trigger] cr[k2]).0, cr[k2].1)
}

/// The directed edges among the first `i` edges of face ring `f` that join
/// a kept vertex and a dropped one.
pub open spec fn face_crossings(sides: Seq<Side>, f: Seq<usize>, i: int) -> Seq<(usize, usize)>
    decreases i,
{
    if i <= 0 {
        seq![]
    } else {
        let s = f[i - 1];
        let e = f[cyclic_next(i - 1, f.len() as int)];
        face_crossings(sides, f, i - 1) + if kept(sides[s as int]) != kept(sides[e as int]) {
            seq![(s, e)]
        } else {
            seq![]
        }
    }
}

/// Crossed edges of the first `j` faces, face after face.
pub open spec fn all_crossings(sides: Seq<Side>, fv: Seq<Seq<usize>>, j: int) -> Seq<
    (usize, usize),
>
    decreases j,
{
    if j <= 0 {
        seq![]
    } else {
        all_crossings(sides, fv, j - 1) + face_crossings(sides, fv[j - 1], fv[j - 1].len() as int)
    }
}

/// New indices that walking the directed face edge from `s` to `e` adds to
/// the clipped ring: the end if kept, preceded by the crossing point when
/// the edge enters the kept side; only the crossing when it leaves.
pub open spec fn emit(sides: Seq<Side>, nk: int, cr: Seq<(usize, usize)>, s: usize, e: usize) -> Seq<
    usize,
> {
    let x = (nk + find_edge(cr, s, e)) as usize;
    let ne = rank(sides, e as int) as usize;
    if kept(sides[s as int]) {
        if kept(sides[e as int]) {
            seq![ne]
        } else {
            seq![x]
        }
    } else if kept(sides[e as int]) {
        seq![x, ne]
    } else {
        seq![]
    }
}

/// The clipped ring of face `f` after walking its first `i` edges.
pub open spec fn ring(sides: Seq<Side>, nk: int, cr: Seq<(usize, usize)>, f: Seq<usize>, i: int) -> Seq<
    usize,
>
    decreases i,
{
    if i <= 0 {
        seq![]
    } else {
        ring(sides, nk, cr, f, i - 1) + emit(sides, nk, cr, f[i - 1], f[cyclic_next(i - 1, f.len() as int)])
    }
}

pub open spec fn full_ring(sides: Seq<Side>, nk: int, cr: Seq<(usize, usize)>, f: Seq<usize>) -> Seq<usize> {
    ring(sides, nk, cr, f, f.len() as int)
}

/// Clipped rings of the first `j` faces that keep at least three vertices.
pub open spec fn cut_faces(sides: Seq<Side>, nk: int, cr: Seq<(usize, usize)>, fv: Seq<Seq<usize>>, j: int) -> Seq<
    Seq<usize>,
>
    decreases j,
{
    if j <= 0 {
        seq![]
    } else {
        let r = full_ring(sides, nk, cr, fv[j - 1]);
        cut_faces(sides, nk, cr, fv, j - 1) + if r.len() >= 3 {
            seq![r]
        } else {
            seq![]
        }
    }
}

/// Labels of the faces in `cut_faces`: each keeps its own.
pub open spec fn cut_labels(sides: Seq<Side>, nk: int, cr: Seq<(usize, usize)>, fv: Seq<Seq<usize>>, nbs: Seq<i32>, j: int) -> Seq<
    i32,
>
    decreases j,
{
    if j <= 0 {
        seq![]
    } else {
        let r = full_ring(sides, nk, cr, fv[j - 1]);
        cut_labels(sides, nk, cr, fv, nbs, j - 1) + if r.len() >= 3 {
            seq![nbs[j - 1]]
        } else {
            seq![]
        }
    }
}

/// Lid segments of the first `i` edges of a clipped ring: each edge between
/// two crossing points (indices at or above `nk`), reversed.
pub open spec fn ring_segments(nk: int, r: Seq<usize>, i: int) -> Seq<(usize, usize)>
    decreases i,
{
    if i <= 0 {
        seq![]
    } else {
        let u = r[i - 1];
        let v = r[cyclic_next(i - 1, r.len() as int)];
        ring_segments(nk, r, i - 1) + if u >= nk && v >= nk {
            seq![(v, u)]
        } else {
            seq![]
        }
    }
}

/// Lid segments of a list of clipped rings, ring after ring.
pub open spec fn all_segments(nk: int, rs: Seq<Seq<usize>>) -> Seq<(usize, usize)>
    decreases rs.len(),
{
    if rs.len() == 0 {
        seq![]
    } else {
        all_segments(nk, rs.drop_last()) + ring_segments(nk, rs.last(), rs.last().len() as int)
    }
}

/// The vertex that follows `x` along the lid: the end of the last segment
/// that starts at `x`.
pub open spec fn segment_next(segs: Seq<(usize, usize)>, x: usize) -> Option<usize>
    decreases segs.len(),
{
    if segs.len() == 0 {
        None
    } else if segs.last().0 == x {
        Some(segs.last().1)
    } else {
        segment_next(segs.drop_last(), x)
    }
}

/// Follows the lid from `cur`, after `acc`, until the start recurs, no
/// segment continues, or more vertices than segments were collected.
pub open spec fn lid_walk(segs: Seq<(usize, usize)>, start: usize, cur: usize, acc: Seq<usize>) -> Seq<
    usize,
>
    decreases segs.len() + 1 - acc.len(),
{
    if cur == start || acc.len() > segs.len() {
        acc
    } else {
        match segment_next(segs, cur) {
            Some(n) => lid_walk(segs, start, n, acc.push(cur)),
            None => acc.push(cur),
        }
    }
}

/// The lid polygon stitched from the segments, starting at the first.
pub open spec fn lid(segs: Seq<(usize, usize)>) -> Seq<usize> {
    if segs.len() == 0 {
        seq![]
    } else {
        lid_walk(segs, segs[0].0, segs[0].1, seq![segs[0].0])
    }
}

/// Faces of a cut cell: the surviving clipped faces, then the lid when it
/// has at least three vertices.
pub open spec fn clipped_faces(sides: Seq<Side>, fv: Seq<Seq<usize>>) -> Seq<Seq<usize>> {
    let nk = rank(sides, sides.len() as int);
    let cr = dedup_edges(all_crossings(sides, fv, fv.len() as int));
    let kept_faces = cut_faces(sides, nk, cr, fv, fv.len() as int);
    let l = lid(all_segments(nk, kept_faces));
    kept_faces + if l.len() >= 3 {
        seq![l]
    } else {
        seq![]
    }
}

/// Labels of `clipped_faces`; the lid takes `label`.
pub open spec fn clipped_labels(sides: Seq<Side>, fv: Seq<Seq<usize>>, nbs: Seq<i32>, label: i32) -> Seq<i32> {
    let nk = rank(sides, sides.len() as int);
    let cr = dedup_edges(all_crossings(sides, fv, fv.len() as int));
    let kept_faces = cut_faces(sides, nk, cr, fv, fv.len() as int);
    let l = lid(all_segments(nk, kept_faces));
    cut_labels(sides, nk, cr, fv, nbs, fv.len() as int) + if l.len() >= 3 {
        seq![label]
    } else {
        seq![]
    }
}


proof fn lemma_rank(sides: Seq<Side>, v: int)
    requires
        0 <= v <= sides.len(),
    ensures
        kept_indices(sides, v).len() == rank(sides, v),
        0 <= rank(sides, v) <= v,
        forall|w: int| 0 <= w < v && kept(sides[w]) ==> {
            &&& #[trigger] rank(sides, w) < rank(sides, v)
            &&& kept_indices(sides, v)[rank(sides, w)] == w as usize
        },
        forall|k: int| 0 <= k < kept_indices(sides, v).len() ==> #[trigger] kept_indices(sides, v)[k] < v,
    decreases v,
{
    if v > 0 {
        lemma_rank(sides, v - 1);
        let p = kept_indices(sides, v - 1);
        let q = kept_indices(sides, v);
        assert forall|w: int| 0 <= w < v && kept(sides[w]) implies {
            &&& rank(sides, w) < rank(sides, v)
            &&& q[rank(sides, w)] == w as usize
        } by {
            let tail = if kept(sides[v - 1]) {
                seq![(v - 1) as usize]
            } else {
                seq![]
            };
            assert(q == p + tail);
            lemma_rank(sides, w);
            if w < v - 1 {
                assert(rank(sides, w) < rank(sides, v - 1));
                assert(q[rank(sides, w)] == p[rank(sides, w)]);
            }
        }
        assert forall|k: int| 0 <= k < q.len() implies #[trigger] q[k] < v by {
            if k < p.len() {
                assert(q[k] == p[k]);
            }
        }
    }
}

proof fn lemma_find_edge(cr: Seq<(usize, usize)>, a: usize, b: usize)
    ensures
        -1 <= find_edge(cr, a, b) < cr.len(),
        find_edge(cr, a, b) == -1 <==> forall|k: int| 0 <= k < cr.len() ==> !same_edge(#[trigger] cr[k], a, b),
        find_edge(cr, a, b) >= 0 ==> {
            &&& same_edge(cr[find_edge(cr, a, b)], a, b)
            &&& forall|k: int| 0 <= k < find_edge(cr, a, b) ==> !same_edge(#[trigger] cr[k], a, b)
        },
    decreases cr.len(),
{
    if cr.len() > 0 {
        let d = cr.drop_last();
        lemma_find_edge(d, a, b);
        assert forall|k: int| 0 <= k < d.len() implies cr[k] == #[trigger] d[k] by {}
        if find_edge(d, a, b) >= 0 {
            assert forall|k: int| 0 <= k < find_edge(cr, a, b) implies !same_edge(#[trigger] cr[k], a, b) by {
                assert(cr[k] == d[k]);
            }
            assert(cr[find_edge(cr, a, b)] == d[find_edge(d, a, b)]);
        }
        if find_edge(d, a, b) == -1 && same_edge(cr.last(), a, b) {
            assert forall|k: int| 0 <= k < find_edge(cr, a, b) implies !same_edge(#[trigger] cr[k], a, b) by {
                assert(cr[k] == d[k]);
            }
        }
        if find_edge(d, a, b) == -1 && !same_edge(cr.last(), a, b) {
            assert forall|k: int| 0 <= k < cr.len() implies !same_edge(#[trigger] cr[k], a, b) by {
                if k < d.len() {
                    assert(cr[k] == d[k]);
                }
            }
        }
    }
}

proof fn lemma_dedup_distinct(s: Seq<(usize, usize)>)
    ensures
        edges_distinct(dedup_edges(s)),
    decreases s.len(),
{
    if s.len() > 0 {
        let d = dedup_edges(s.drop_last());
        let x = s.last();
        lemma_dedup_distinct(s.drop_last());
        if find_edge(d, x.0, x.1) < 0 {
            lemma_find_edge(d, x.0, x.1);
            let e = d.push(x);
            assert forall|k1: int, k2: int|
                0 <= k1 < e.len() && 0 <= k2 < e.len() && k1 != k2 implies !same_edge(#[trigger] e[k1], (#[trigger] e[k2]).0, e[k2].1) by {
                if k1 < d.len() && k2 < d.len() {
                    assert(e[k1] == d[k1] && e[k2] == d[k2]);
                } else if k1 < d.len() {
                    assert(e[k1] == d[k1]);
                    assert(!same_edge(d[k1], x.0, x.1));
                } else {
                    assert(e[k2] == d[k2]);
                    assert(!same_edge(d[k2], x.0, x.1));
                }
            }
        }
    }
}

proof fn lemma_dedup_len(s: Seq<(usize, usize)>)
    ensures
        dedup_edges(s).len() <= s.len(),
    decreases s.len(),
{
    if s.len() > 0 {
        lemma_dedup_len(s.drop_last());
    }
}

proof fn lemma_find_push(d: Seq<(usize, usize)>, y: (usize, usize), a: usize, b: usize)
    requires
        find_edge(d, a, b) >= 0 || same_edge(y, a, b),
    ensures
        find_edge(d.push(y), a, b) >= 0,
{
    assert(d.push(y).drop_last() == d);
}

proof fn lemma_dedup_covers(s: Seq<(usize, usize)>, x: (usize, usize))
    requires
        s.contains(x),
    ensures
        find_edge(dedup_edges(s), x.0, x.1) >= 0,
    decreases s.len(),
{
    let t = s.drop_last();
    let y = s.last();
    let d = dedup_edges(t);
    if x == y {
        if find_edge(d, y.0, y.1) < 0 {
            lemma_find_push(d, y, x.0, x.1);
        }
    } else {
        let k = choose|k: int| 0 <= k < s.len() && s[k] == x;
        assert(t[k] == x);
        lemma_dedup_covers(t, x);
        if find_edge(d, y.0, y.1) < 0 {
            lemma_find_push(d, y, x.0, x.1);
        }
    }
}

proof fn lemma_contains_concat(a: Seq<(usize, usize)>, b: Seq<(usize, usize)>, x: (usize, usize))
    requires
        a.contains(x) || b.contains(x),
    ensures
        (a + b).contains(x),
{
    if a.contains(x) {
        let k = choose|k: int| 0 <= k < a.len() && a[k] == x;
        assert((a + b)[k] == x);
    } else {
        let k = choose|k: int| 0 <= k < b.len() && b[k] == x;
        assert((a + b)[a.len() + k] == x);
    }
}

proof fn lemma_face_crossings_len(sides: Seq<Side>, f: Seq<usize>, i: int)
    requires
        0 <= i,
    ensures
        face_crossings(sides, f, i).len() <= i,
    decreases i,
{
    if i > 0 {
        lemma_face_crossings_len(sides, f, i - 1);
    }
}

proof fn lemma_face_crossings_contains(sides: Seq<Side>, f: Seq<usize>, i: int, m: int)
    requires
        0 <= i < m <= f.len(),
        kept(sides[f[i] as int]) != kept(sides[f[cyclic_next(i, f.len() as int)] as int]),
    ensures
        face_crossings(sides, f, m).contains((f[i], f[cyclic_next(i, f.len() as int)])),
    decreases m,
{
    let x = (f[i], f[cyclic_next(i, f.len() as int)]);
    if m == i + 1 {
        assert(face_crossings(sides, f, m)[face_crossings(sides, f, i).len() as int] == x);
    } else {
        lemma_face_crossings_contains(sides, f, i, m - 1);
        let e = f[cyclic_next(m - 1, f.len() as int)];
        lemma_contains_concat(
            face_crossings(sides, f, m - 1),
            if kept(sides[f[m - 1] as int]) != kept(sides[e as int]) {
                seq![(f[m - 1], e)]
            } else {
                seq![]
            },
            x,
        );
    }
}

proof fn lemma_all_crossings(sides: Seq<Side>, fv: Seq<Seq<usize>>, j: int, m: int, x: (usize, usize))
    requires
        0 <= j < m <= fv.len(),
        face_crossings(sides, fv[j], fv[j].len() as int).contains(x),
    ensures
        all_crossings(sides, fv, m).contains(x),
    decreases m,
{
    if m == j + 1 {
        lemma_contains_concat(
            all_crossings(sides, fv, j),
            face_crossings(sides, fv[j], fv[j].len() as int),
            x,
        );
    } else {
        lemma_all_crossings(sides, fv, j, m - 1, x);
        lemma_contains_concat(
            all_crossings(sides, fv, m - 1),
            face_crossings(sides, fv[m - 1], fv[m - 1].len() as int),
            x,
        );
    }
}

proof fn lemma_all_crossings_len(sides: Seq<Side>, fv: Seq<Seq<usize>>, j: int)
    requires
        0 <= j,
    ensures
        all_crossings(sides, fv, j).len() <= total_len(fv, j),
    decreases j,
{
    if j > 0 {
        lemma_all_crossings_len(sides, fv, j - 1);
        lemma_face_crossings_len(sides, fv[j - 1], fv[j - 1].len() as int);
    }
}

/// Every edge crossed by the plane has a place among the crossings.
proof fn lemma_crossing_found(sides: Seq<Side>, fv: Seq<Seq<usize>>, j: int, i: int)
    requires
        0 <= j < fv.len(),
        0 <= i < fv[j].len(),
        kept(sides[fv[j][i] as int]) != kept(sides[fv[j][cyclic_next(i, fv[j].len() as int)] as int]),
    ensures
        find_edge(
            dedup_edges(all_crossings(sides, fv, fv.len() as int)),
            fv[j][i],
            fv[j][cyclic_next(i, fv[j].len() as int)],
        ) >= 0,
{
    let f = fv[j];
    let x = (f[i], f[cyclic_next(i, f.len() as int)]);
    lemma_face_crossings_contains(sides, f, i, f.len() as int);
    lemma_all_crossings(sides, fv, j, fv.len() as int, x);
    lemma_dedup_covers(all_crossings(sides, fv, fv.len() as int), x);
}


/// Position of the first entry of `cr` that is the edge between `a` and `b`.
fn find_pair(cr: &Vec<(usize, usize)>, a: usize, b: usize) -> (r: Option<usize>)
    ensures
        match r {
            Some(k) => k as int == find_edge(cr@, a, b),
            None => find_edge(cr@, a, b) == -1,
        },
{
    proof {
        lemma_find_edge(cr@, a, b);
    }
    let mut k: usize = 0;
    while k < cr.len()
        invariant
            k <= cr.len(),
            forall|m: int| 0 <= m < k ==> !same_edge(#[trigger] cr@[m], a, b),
            -1 <= find_edge(cr@, a, b) < cr.len(),
            find_edge(cr@, a, b) == -1 <==> forall|m: int|
                0 <= m < cr.len() ==> !same_edge(#[trigger] cr@[m], a, b),
            find_edge(cr@, a, b) >= 0 ==> {
                &&& same_edge(cr@[find_edge(cr@, a, b)], a, b)
                &&& forall|m: int| 0 <= m < find_edge(cr@, a, b) ==> !same_edge(#[trigger] cr@[m], a, b)
            },
        decreases cr.len() - k,
    {
        let (p, q) = cr[k];
        if (p == a && q == b) || (p == b && q == a) {
            assert(same_edge(cr@[k as int], a, b));
            return Some(k);
        }
        k = k + 1;
    }
    None
}

/// The kept vertices in order, and for each kept vertex its new index.
fn keep_vertices(sides: &Vec<Side>) -> (r: (Vec<usize>, Vec<usize>))
    ensures
        r.0@ == kept_indices(sides@, sides.len() as int),
        r.1.len() == sides.len(),
        forall|v: int| 0 <= v < sides.len() && kept(sides@[v]) ==> #[trigger] r.1@[v] as int == rank(sides@, v),
{
    let mut kept_list: Vec<usize> = Vec::new();
    let mut old_to_new: Vec<usize> = Vec::new();
    let mut i: usize = 0;
    while i < sides.len()
        invariant
            i <= sides.len(),
            kept_list@ == kept_indices(sides@, i as int),
            old_to_new.len() == i,
            forall|v: int| 0 <= v < i && kept(sides@[v]) ==> #[trigger] old_to_new@[v] as int == rank(sides@, v),
        decreases sides.len() - i,
    {
        proof {
            lemma_rank(sides@, i as int);
        }
        old_to_new.push(kept_list.len());
        if is_kept(sides[i]) {
            kept_list.push(i);
        }
        i = i + 1;
    }
    (kept_list, old_to_new)
}

/// The crossed edges of all faces, each undirected edge once.
fn collect_crossings(faces: &Vec<Vec<usize>>, sides: &Vec<Side>) -> (cr: Vec<(usize, usize)>)
    requires
        faces_wf(face_view(faces@), sides.len() as int),
    ensures
        cr@ == dedup_edges(all_crossings(sides@, face_view(faces@), faces.len() as int)),
{
    let ghost fv = face_view(faces@);
    let mut cr: Vec<(usize, usize)> = Vec::new();
    let mut j: usize = 0;
    while j < faces.len()
        invariant
            fv == face_view(faces@),
            faces_wf(fv, sides.len() as int),
            j <= faces.len(),
            cr@ == dedup_edges(all_crossings(sides@, fv, j as int)),
        decreases faces.len() - j,
    {
        let face = &faces[j];
        assert(face@ == fv[j as int]);
        let len = face.len();
        let ghost before = all_crossings(sides@, fv, j as int);
        let mut i: usize = 0;
        while i < len
            invariant
                fv == face_view(faces@),
                faces_wf(fv, sides.len() as int),
                j < faces.len(),
                face@ == fv[j as int],
                len == face.len(),
                i <= len,
                before == all_crossings(sides@, fv, j as int),
                cr@ == dedup_edges(before + face_crossings(sides@, face@, i as int)),
            decreases len - i,
        {
            let nx: usize = if i + 1 >= len { 0 } else { i + 1 };
            let s = face[i];
            let e = face[nx];
            assert(fv[j as int][i as int] < sides.len());
            assert(fv[j as int][nx as int] < sides.len());
            let ghost old_seq = before + face_crossings(sides@, face@, i as int);
            if is_kept(sides[s]) != is_kept(sides[e]) {
                assert(before + face_crossings(sides@, face@, i + 1) == old_seq.push((s, e)));
                assert(old_seq.push((s, e)).drop_last() == old_seq);
                if find_pair(&cr, s, e).is_none() {
                    cr.push((s, e));
                }
            } else {
                assert(before + face_crossings(sides@, face@, i + 1) == old_seq);
            }
            i = i + 1;
        }
        j = j + 1;
    }
    cr
}

/// Appends what walking the face edge from `s` to `e` adds to a ring.
fn push_emit(
    r: &mut Vec<usize>,
    s: usize,
    e: usize,
    sides: &Vec<Side>,
    old_to_new: &Vec<usize>,
    nk: usize,
    cr: &Vec<(usize, usize)>,
)
    requires
        s < sides.len(),
        e < sides.len(),
        old_to_new.len() == sides.len(),
        forall|v: int| 0 <= v < sides.len() && kept(sides@[v]) ==> #[trigger] old_to_new@[v] as int == rank(sides@, v),
        forall|w: int| 0 <= w < sides.len() && kept(sides@[w]) ==> #[trigger] rank(sides@, w) < rank(sides@, sides.len() as int),
        nk == rank(sides@, sides.len() as int),
        nk + cr.len() <= usize::MAX,
        kept(sides@[s as int]) != kept(sides@[e as int]) ==> find_edge(cr@, s, e) >= 0,
        forall|k: int| 0 <= k < old(r).len() ==> #[trigger] old(r)@[k] < nk + cr.len(),
    ensures
        final(r)@ == old(r)@ + emit(sides@, nk as int, cr@, s, e),
        forall|k: int| 0 <= k < final(r).len() ==> #[trigger] final(r)@[k] < nk + cr.len(),
{
    let ks = is_kept(sides[s]);
    let ke = is_kept(sides[e]);
    if ks != ke {
        proof {
            lemma_find_edge(cr@, s, e);
        }
        let k = match find_pair(cr, s, e) {
            Some(k) => k,
            None => 0,
        };
        r.push(nk + k);
        if !ks {
            r.push(old_to_new[e]);
        }
    } else if ks {
        r.push(old_to_new[e]);
    }
}

/// The clipped ring of one face.
fn clip_ring(
    face: &Vec<usize>,
    sides: &Vec<Side>,
    old_to_new: &Vec<usize>,
    nk: usize,
    cr: &Vec<(usize, usize)>,
) -> (r: Vec<usize>)
    requires
        forall|k: int| 0 <= k < face.len() ==> #[trigger] face@[k] < sides.len(),
        old_to_new.len() == sides.len(),
        forall|v: int| 0 <= v < sides.len() && kept(sides@[v]) ==> #[trigger] old_to_new@[v] as int == rank(sides@, v),
        nk == rank(sides@, sides.len() as int),
        nk + cr.len() <= usize::MAX,
        forall|i: int|
            0 <= i < face.len() && kept(sides@[face@[i] as int]) != kept(
                sides@[face@[cyclic_next(i, face.len() as int)] as int],
            ) ==> find_edge(cr@, #[trigger] face@[i], face@[cyclic_next(i, face.len() as int)]) >= 0,
    ensures
        r@ == full_ring(sides@, nk as int, cr@, face@),
        forall|k: int| 0 <= k < r.len() ==> #[trigger] r@[k] < nk + cr.len(),
{
    let len = face.len();
    let mut r: Vec<usize> = Vec::new();
    let mut i: usize = 0;
    proof {
        lemma_rank(sides@, sides.len() as int);
    }
    while i < len
        invariant
            len == face.len(),
            i <= len,
            forall|k: int| 0 <= k < face.len() ==> #[trigger] face@[k] < sides.len(),
            old_to_new.len() == sides.len(),
            forall|v: int| 0 <= v < sides.len() && kept(sides@[v]) ==> #[trigger] old_to_new@[v] as int == rank(sides@, v),
            forall|w: int| 0 <= w < sides.len() && kept(sides@[w]) ==> #[trigger] rank(sides@, w) < rank(sides@, sides.len() as int),
            nk == rank(sides@, sides.len() as int),
            nk + cr.len() <= usize::MAX,
            forall|i: int|
                0 <= i < face.len() && kept(sides@[face@[i] as int]) != kept(
                    sides@[face@[cyclic_next(i, face.len() as int)] as int],
                ) ==> find_edge(cr@, #[trigger] face@[i], face@[cyclic_next(i, face.len() as int)]) >= 0,
            r@ == ring(sides@, nk as int, cr@, face@, i as int),
            forall|k: int| 0 <= k < r.len() ==> #[trigger] r@[k] < nk + cr.len(),
        decreases len - i,
    {
        let nx: usize = if i + 1 >= len { 0 } else { i + 1 };
        let s = face[i];
        let e = face[nx];
        assert(face@[i as int] == s);
        push_emit(&mut r, s, e, sides, old_to_new, nk, cr);
        i = i + 1;
    }
    r
}

/// Appends the lid segments of a clipped ring.
fn push_ring_segments(nk: usize, r: &Vec<usize>, segs: &mut Vec<(usize, usize)>)
    ensures
        final(segs)@ == old(segs)@ + ring_segments(nk as int, r@, r.len() as int),
{
    let len = r.len();
    let mut i: usize = 0;
    while i < len
        invariant
            len == r.len(),
            i <= len,
            segs@ == old(segs)@ + ring_segments(nk as int, r@, i as int),
        decreases len - i,
    {
        let nx: usize = if i + 1 >= len { 0 } else { i + 1 };
        let u = r[i];
        let v = r[nx];
        if u >= nk && v >= nk {
            segs.push((v, u));
        }
        proof {
            assert(segs@ == old(segs)@ + ring_segments(nk as int, r@, i as int + 1));
        }
        i = i + 1;
    }
}

/// Stitches the lid polygon from its segments, following for each vertex
/// the last segment that starts there.
fn stitch_lid(segs: &Vec<(usize, usize)>, total: usize) -> (r: Vec<usize>)
    requires
        total < usize::MAX,
        forall|k: int| 0 <= k < segs.len() ==> (#[trigger] segs@[k]).0 < total && segs@[k].1 < total,
    ensures
        r@ == lid(segs@),
{
    let mut r: Vec<usize> = Vec::new();
    if segs.len() == 0 {
        return r;
    }
    let mut next_of: Vec<usize> = Vec::new();
    let mut x: usize = 0;
    while x < total
        invariant
            x <= total,
            next_of.len() == x,
            forall|y: int| 0 <= y < x ==> #[trigger] next_of@[y] == usize::MAX,
        decreases total - x,
    {
        next_of.push(usize::MAX);
        x = x + 1;
    }
    let mut i: usize = 0;
    while i < segs.len()
        invariant
            i <= segs.len(),
            total < usize::MAX,
            forall|k: int| 0 <= k < segs.len() ==> (#[trigger] segs@[k]).0 < total && segs@[k].1 < total,
            next_of.len() == total,
            forall|y: int| 0 <= y < total ==> #[trigger] next_of@[y] == match segment_next(segs@.subrange(0, i as int), y as usize) {
                Some(n) => n,
                None => usize::MAX,
            },
        decreases segs.len() - i,
    {
        let (u, v) = segs[i];
        next_of.set(u, v);
        proof {
            let p = segs@.subrange(0, i as int + 1);
            assert(p.drop_last() == segs@.subrange(0, i as int));
            assert(p.last() == (u, v));
        }
        i = i + 1;
    }
    proof {
        assert(segs@.subrange(0, segs.len() as int) == segs@);
    }
    let (start, first_next) = segs[0];
    r.push(start);
    let mut current = first_next;
    let mut done = false;
    while !done && current != start && r.len() <= segs.len()
        invariant
            segs.len() > 0,
            start == segs@[0].0,
            total < usize::MAX,
            forall|k: int| 0 <= k < segs.len() ==> (#[trigger] segs@[k]).0 < total && segs@[k].1 < total,
            next_of.len() == total,
            forall|y: int| 0 <= y < total ==> #[trigger] next_of@[y] == match segment_next(segs@, y as usize) {
                Some(n) => n,
                None => usize::MAX,
            },
            1 <= r.len() <= segs.len() + 1,
            !done ==> current < total,
            done ==> r@ == lid(segs@),
            !done ==> lid_walk(segs@, start, current, r@) == lid(segs@),
        decreases segs.len() + 1 - r.len(), if done { 0int } else { 1int },
    {
        let ghost acc = r@;
        r.push(current);
        let n = next_of[current];
        proof {
            lemma_segment_next_bound(segs@, current, total as int);
        }
        if n == usize::MAX {
            done = true;
        } else {
            current = n;
        }
    }
    r
}

proof fn lemma_segment_next_bound(segs: Seq<(usize, usize)>, x: usize, total: int)
    requires
        forall|k: int| 0 <= k < segs.len() ==> (#[trigger] segs[k]).0 < total && segs[k].1 < total,
    ensures
        match segment_next(segs, x) {
            Some(n) => n < total,
            None => true,
        },
    decreases segs.len(),
{
    if segs.len() > 0 {
        let d = segs.drop_last();
        assert forall|k: int| 0 <= k < d.len() implies (#[trigger] d[k]).0 < total && d[k].1 < total by {
            assert(d[k] == segs[k]);
        }
        assert(segs.last() == segs[segs.len() - 1]);
        lemma_segment_next_bound(d, x, total);
    }
}


/// Clips the structure of a cell by a half-space, given the side of each
/// vertex.
///
/// With no vertex above the plane the cell is untouched; otherwise, with no
/// vertex below it, the cell vanishes. Otherwise the kept vertices come
/// first, in order, then one new vertex per crossed edge. Each face is
/// walked edge by edge: a kept end is emitted, preceded by the crossing
/// point when the edge enters the kept side, and a leaving edge emits its
/// crossing point. Faces left with three or more vertices keep their label.
/// The edges between two crossing points, reversed, are stitched into the
/// lid, which is labelled `label` when it has three or more vertices.
#[verifier::rlimit(40)]
pub fn clip_faces(topo: &FaceTopology, sides: &Vec<Side>, label: i32) -> (r: ClipOutcome<FacesCut>)
    requires
        topo.wf(),
        sides.len() == topo.num_vertices,
        topo.num_vertices + total_len(face_view(topo.faces@), topo.faces.len() as int) < usize::MAX,
    ensures
        match r {
            ClipOutcome::Unchanged => all_kept(sides@),
            ClipOutcome::Emptied => !all_kept(sides@) && none_below(sides@),
            ClipOutcome::Cut(c) => {
                &&& !all_kept(sides@)
                &&& !none_below(sides@)
                &&& c.kept@ == kept_indices(sides@, sides.len() as int)
                &&& c.crossings@ == dedup_edges(
                    all_crossings(sides@, face_view(topo.faces@), topo.faces.len() as int),
                )
                &&& edges_distinct(c.crossings@)
                &&& c.topology.num_vertices == c.kept.len() + c.crossings.len()
                &&& face_view(c.topology.faces@) == clipped_faces(sides@, face_view(topo.faces@))
                &&& c.topology.neighbors@ == clipped_labels(
                    sides@,
                    face_view(topo.faces@),
                    topo.neighbors@,
                    label,
                )
                &&& c.topology.wf()
            },
        },
{
    let (all_in, all_out) = classify(sides);
    if all_in {
        return ClipOutcome::Unchanged;
    }
    if all_out {
        return ClipOutcome::Emptied;
    }
    let ghost fv = face_view(topo.faces@);
    let ghost sv = sides@;
    let (kept_list, old_to_new) = keep_vertices(sides);
    let cr = collect_crossings(&topo.faces, sides);
    proof {
        lemma_rank(sv, sv.len() as int);
        lemma_dedup_len(all_crossings(sv, fv, fv.len() as int));
        lemma_dedup_distinct(all_crossings(sv, fv, fv.len() as int));
        lemma_all_crossings_len(sv, fv, fv.len() as int);
    }
    let nk = kept_list.len();
    let total = nk + cr.len();
    let ghost crv = cr@;
    let mut faces: Vec<Vec<usize>> = Vec::new();
    let mut neighbors: Vec<i32> = Vec::new();
    let mut segs: Vec<(usize, usize)> = Vec::new();
    let mut j: usize = 0;
    while j < topo.faces.len()
        invariant
            topo.wf(),
            fv == face_view(topo.faces@),
            sv == sides@,
            sides.len() == topo.num_vertices,
            crv == cr@,
            crv == dedup_edges(all_crossings(sv, fv, fv.len() as int)),
            old_to_new.len() == sides.len(),
            forall|v: int| 0 <= v < sides.len() && kept(sides@[v]) ==> #[trigger] old_to_new@[v] as int == rank(sides@, v),
            nk == rank(sv, sv.len() as int),
            total == nk + cr.len(),
            total < usize::MAX,
            j <= topo.faces.len(),
            face_view(faces@) == cut_faces(sv, nk as int, crv, fv, j as int),
            neighbors@ == cut_labels(sv, nk as int, crv, fv, topo.neighbors@, j as int),
            faces.len() == neighbors.len(),
            faces_wf(face_view(faces@), total as int),
            segs@ == all_segments(nk as int, face_view(faces@)),
            forall|k: int| 0 <= k < segs.len() ==> (#[trigger] segs@[k]).0 < total && segs@[k].1 < total,
        decreases topo.faces.len() - j,
    {
        let face = &topo.faces[j];
        assert(face@ == fv[j as int]);
        assert forall|k: int| 0 <= k < face.len() implies #[trigger] face@[k] < sides.len() by {
            assert(fv[j as int][k] == face@[k]);
        }
        assert forall|i: int|
            0 <= i < face.len() && kept(sides@[face@[i] as int]) != kept(
                sides@[face@[cyclic_next(i, face.len() as int)] as int],
            ) implies find_edge(cr@, #[trigger] face@[i], face@[cyclic_next(i, face.len() as int)]) >= 0 by {
            lemma_crossing_found(sv, fv, j as int, i);
        }
        let r = clip_ring(face, sides, &old_to_new, nk, &cr);
        let ghost old_faces = faces@;
        let ghost old_segs = segs@;
        if r.len() >= 3 {
            push_ring_segments(nk, &r, &mut segs);
            proof {
                assert forall|k: int| 0 <= k < segs.len() implies (#[trigger] segs@[k]).0 < total && segs@[k].1 < total by {
                    if k >= old_segs.len() {
                        lemma_ring_segments_bound(nk as int, r@, r.len() as int, total as int, k - old_segs.len());
                    }
                }
            }
            faces.push(r);
            neighbors.push(topo.neighbors[j]);
            proof {
                assert(face_view(faces@) == face_view(old_faces).push(r@));
                assert(face_view(faces@).drop_last() == face_view(old_faces));
                assert forall|f: int, k: int|
                    0 <= f < face_view(faces@).len() && 0 <= k < face_view(faces@)[f].len()
                    implies #[trigger] face_view(faces@)[f][k] < total by {
                    if f < old_faces.len() {
                        assert(face_view(faces@)[f] == face_view(old_faces)[f]);
                    }
                }
            }
        }
        j = j + 1;
    }
    let l = stitch_lid(&segs, total);
    let ghost kf = face_view(faces@);
    let ghost kl = neighbors@;
    assert(kf == cut_faces(sv, nk as int, crv, fv, fv.len() as int));
    assert(kl == cut_labels(sv, nk as int, crv, fv, topo.neighbors@, fv.len() as int));
    assert(l@ == lid(all_segments(nk as int, kf)));
    if l.len() >= 3 {
        let ghost old_faces = faces@;
        faces.push(l);
        neighbors.push(label);
        proof {
            assert(face_view(faces@) == face_view(old_faces).push(l@));
            assert forall|f: int, k: int|
                0 <= f < face_view(faces@).len() && 0 <= k < face_view(faces@)[f].len()
                implies #[trigger] face_view(faces@)[f][k] < total by {
                if f < old_faces.len() {
                    assert(face_view(faces@)[f] == face_view(old_faces)[f]);
                } else {
                    lemma_lid_bound(segs@, total as int, k);
                }
            }
            assert(face_view(faces@) == kf + seq![l@]);
            assert(neighbors@ == kl + seq![label]);
        }
    } else {
        assert(kf + seq![] == kf);
        assert(kl + seq![] == kl);
    }
    ClipOutcome::Cut(
        FacesCut {
            kept: kept_list,
            crossings: cr,
            topology: FaceTopology { num_vertices: total, faces, neighbors },
        },
    )
}

proof fn lemma_ring_segments_bound(nk: int, r: Seq<usize>, i: int, total: int, k: int)
    requires
        0 <= i <= r.len(),
        forall|m: int| 0 <= m < r.len() ==> #[trigger] r[m] < total,
        0 <= k < ring_segments(nk, r, i).len(),
    ensures
        ring_segments(nk, r, i)[k].0 < total,
        ring_segments(nk, r, i)[k].1 < total,
    decreases i,
{
    let p = ring_segments(nk, r, i - 1);
    if k < p.len() {
        lemma_ring_segments_bound(nk, r, i - 1, total, k);
        assert(ring_segments(nk, r, i)[k] == p[k]);
    } else {
        let nx = cyclic_next(i - 1, r.len() as int);
        assert(r[nx] < total);
        assert(r[i - 1] < total);
    }
}

proof fn lemma_lid_walk_bound(segs: Seq<(usize, usize)>, start: usize, cur: usize, acc: Seq<usize>, total: int)
    requires
        forall|k: int| 0 <= k < segs.len() ==> (#[trigger] segs[k]).0 < total && segs[k].1 < total,
        forall|k: int| 0 <= k < acc.len() ==> #[trigger] acc[k] < total,
        cur < total,
    ensures
        forall|k: int| 0 <= k < lid_walk(segs, start, cur, acc).len() ==> #[trigger] lid_walk(segs, start, cur, acc)[k] < total,
    decreases segs.len() + 1 - acc.len(),
{
    if !(cur == start || acc.len() > segs.len()) {
        let acc2 = acc.push(cur);
        assert forall|k: int| 0 <= k < acc2.len() implies #[trigger] acc2[k] < total by {
            if k < acc.len() {
                assert(acc2[k] == acc[k]);
            }
        }
        lemma_segment_next_bound(segs, cur, total);
        match segment_next(segs, cur) {
            Some(n) => {
                assert(lid_walk(segs, start, cur, acc) == lid_walk(segs, start, n, acc2));
                lemma_lid_walk_bound(segs, start, n, acc2, total);
            },
            None => {
                assert(lid_walk(segs, start, cur, acc) == acc2);
            },
        }
    }
}

proof fn lemma_lid_bound(segs: Seq<(usize, usize)>, total: int, k: int)
    requires
        0 <= total < usize::MAX,
        forall|m: int| 0 <= m < segs.len() ==> (#[trigger] segs[m]).0 < total && segs[m].1 < total,
        0 <= k < lid(segs).len(),
    ensures
        lid(segs)[k] < total,
{
    if segs.len() > 0 {
        assert(segs[0].0 < total && segs[0].1 < total);
        let acc = seq![segs[0].0];
        assert forall|m: int| 0 <= m < acc.len() implies #[trigger] acc[m] < total by {}
        lemma_lid_walk_bound(segs, segs[0].0, segs[0].1, acc, total);
    }
}

} // verus!
