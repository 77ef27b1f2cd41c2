//! The adjacency-graph cell: for each vertex its outgoing edges in cyclic
//! order, each with the label of the face on its left; its clip by a
//! half-space, and the walk that reads the faces back from the graph.
use vstd::prelude::*;
use crate::bounds::{box_side, box_side_spec};
use crate::clip::{Side, ClipOutcome, kept, all_kept, none_below, classify, is_kept};
use crate::polygon::PolyPoint;

verus! {

/// The new graph left by a cut that crossed the cell, and where each of
/// its vertices comes from.
#[derive(Debug)]
pub struct EdgesCut {
    pub vertices: Vec<PolyPoint>,
    pub topology: EdgeTopology,
}

/// Structure of a cell as a graph: `out[v]` lists the far ends of the edges
/// leaving vertex `v`, and `left[v][k]` labels the face on the left of edge
/// `out[v][k]`.
#[derive(Clone, Debug)]
pub struct EdgeTopology {
    pub out: Vec<Vec<usize>>,
    pub left: Vec<Vec<i32>>,
}

pub open spec fn rows_view<T>(v: Seq<Vec<T>>) -> Seq<Seq<T>> {
    v.map_values(|r: Vec<T>| r@)
}

/// `left` has a label for every edge of `out`, and every edge ends at a
/// vertex of the graph.
pub open spec fn graph_wf(out: Seq<Seq<usize>>, left: Seq<Seq<i32>>) -> bool {
    &&& out.len() == left.len()
    &&& forall|v: int| 0 <= v < out.len() ==> #[trigger] out[v].len() == left[v].len()
    &&& forall|v: int, k: int| 0 <= v < out.len() && 0 <= k < out[v].len() ==> #[trigger] out[v][k] < out.len()
}

/// Number of edges leaving the first `v` vertices.
pub open spec fn total_edges(out: Seq<Seq<usize>>, v: int) -> int
    decreases v,
{
    if v <= 0 {
        0
    } else {
        total_edges(out, v - 1) + out[v - 1].len()
    }
}

/// Position of the first edge in `ls` with face label `f`, or -1.
pub open spec fn find_label(ls: Seq<i32>, f: i32) -> int
    decreases ls.len(),
{
    if ls.len() == 0 {
        -1
    } else {
        let p = find_label(ls.drop_last(), f);
        if p >= 0 {
            p
        } else if ls.last() == f {
            ls.len() - 1
        } else {
            -1
        }
    }
}

/// No edge visited yet.
pub open spec fn unvisited(out: Seq<Seq<usize>>) -> Seq<Seq<bool>> {
    Seq::new(out.len(), |v: int| Seq::new(out[v].len(), |k: int| false))
}

pub open spec fn mark(vis: Seq<Seq<bool>>, v: int, k: int) -> Seq<Seq<bool>> {
    vis.update(v, vis[v].update(k, true))
}

/// Number of marked edges in one vertex's row.
pub open spec fn row_marks(r: Seq<bool>) -> int
    decreases r.len(),
{
    if r.len() == 0 {
        0
    } else {
        row_marks(r.drop_last()) + if r.last() {
            1int
        } else {
            0int
        }
    }
}

/// Number of marked edges among those of the first `n` vertices.
pub open spec fn marks(vis: Seq<Seq<bool>>, n: int) -> int
    decreases n,
{
    if n <= 0 {
        0
    } else {
        marks(vis, n - 1) + row_marks(vis[n - 1])
    }
}

/// Total number of vertices over a list of faces.
pub open spec fn faces_len(fs: Seq<Seq<usize>>) -> int
    decreases fs.len(),
{
    if fs.len() == 0 {
        0
    } else {
        faces_len(fs.drop_last()) + fs.last().len()
    }
}

/// Walks the face `f` from edge `slot` of `curr`, after the vertices `acc`:
/// records `curr`, marks the edge, and moves on along the first edge of the
/// far end that carries `f`, until the walk returns to `u`, finds no such
/// edge, finds that edge already walked, or runs out of `fuel`.
pub open spec fn walk(
    out: Seq<Seq<usize>>,
    left: Seq<Seq<i32>>,
    f: i32,
    u: usize,
    curr: usize,
    slot: int,
    acc: Seq<usize>,
    vis: Seq<Seq<bool>>,
    fuel: nat,
) -> (Seq<usize>, Seq<Seq<bool>>)
    decreases fuel,
{
    let acc2 = acc.push(curr);
    let vis2 = mark(vis, curr as int, slot);
    let next = out[curr as int][slot];
    let m = find_label(left[next as int], f);
    if fuel == 0 || m < 0 || next == u || vis2[next as int][m] {
        (acc2, vis2)
    } else {
        walk(out, left, f, u, next, m, acc2, vis2, (fuel - 1) as nat)
    }
}

/// Faces found so far, their labels, and the visited edges.
pub type ScanState = (Seq<Seq<usize>>, Seq<i32>, Seq<Seq<bool>>);

/// Looks at edge `k` of vertex `u`: an unvisited edge starts a new face.
pub open spec fn scan_step(out: Seq<Seq<usize>>, left: Seq<Seq<i32>>, st: ScanState, u: int, k: int, fuel: nat) -> ScanState {
    if st.2[u][k] {
        st
    } else {
        let w = walk(out, left, left[u][k], u as usize, u as usize, k, seq![], st.2, fuel);
        (st.0.push(w.0), st.1.push(left[u][k]), w.1)
    }
}

/// State after looking at the first `k` edges of vertex `u`, all edges of
/// the vertices before it having been looked at.
pub open spec fn scan(out: Seq<Seq<usize>>, left: Seq<Seq<i32>>, u: int, k: int, fuel: nat) -> ScanState
    decreases u, k,
{
    if u <= 0 && k <= 0 {
        (seq![], seq![], unvisited(out))
    } else if k <= 0 {
        scan(out, left, u - 1, out[u - 1].len() as int, fuel)
    } else {
        scan_step(out, left, scan(out, left, u, k - 1, fuel), u, k - 1, fuel)
    }
}

/// The faces read from the graph, and their labels.
pub open spec fn graph_faces(out: Seq<Seq<usize>>, left: Seq<Seq<i32>>) -> (Seq<Seq<usize>>, Seq<i32>) {
    let st = scan(out, left, out.len() as int, 0, total_edges(out, out.len() as int) as nat);
    (st.0, st.1)
}

/// Outgoing edges of the box corners (numbered as for the face-indexed
/// cell), each corner's three edges in cyclic order.
pub open spec fn box_out() -> Seq<Seq<usize>> {
    seq![
        seq![1usize, 4, 3],
        seq![2usize, 5, 0],
        seq![3usize, 6, 1],
        seq![0usize, 7, 2],
        seq![5usize, 7, 0],
        seq![1usize, 6, 4],
        seq![2usize, 7, 5],
        seq![3usize, 4, 6],
    ]
}

/// Face labels on the left of the edges of `box_out`.
pub open spec fn box_left() -> Seq<Seq<int>> {
    let (xl, xh) = (box_side_spec(0, false), box_side_spec(0, true));
    let (yl, yh) = (box_side_spec(1, false), box_side_spec(1, true));
    let (zl, zh) = (box_side_spec(2, false), box_side_spec(2, true));
    seq![
        seq![yl, xl, zl],
        seq![xh, yl, zl],
        seq![yh, xh, zl],
        seq![xl, yh, zl],
        seq![zh, xl, yl],
        seq![xh, zh, yl],
        seq![yh, zh, xh],
        seq![xl, zh, yh],
    ]
}

impl EdgeTopology {
    pub open spec fn wf(&self) -> bool {
        graph_wf(rows_view(self.out@), rows_view(self.left@))
    }

    /// The seed cell: the domain box as a graph of its eight corners.
    pub fn new_box() -> (r: EdgeTopology)
        ensures
            r.wf(),
            rows_view(r.out@) == box_out(),
            r.left.len() == 8,
            forall|v: int, k: int| 0 <= v < 8 && 0 <= k < 3 ==> (#[trigger] r.left@[v]@[k]) as int == box_left()[v][k],
    {
        let xl = box_side(0, false);
        let xh = box_side(0, true);
        let yl = box_side(1, false);
        let yh = box_side(1, true);
        let zl = box_side(2, false);
        let zh = box_side(2, true);
        let out: Vec<Vec<usize>> = vec![
            vec![1, 4, 3],
            vec![2, 5, 0],
            vec![3, 6, 1],
            vec![0, 7, 2],
            vec![5, 7, 0],
            vec![1, 6, 4],
            vec![2, 7, 5],
            vec![3, 4, 6],
        ];
        let left: Vec<Vec<i32>> = vec![
            vec![yl, xl, zl],
            vec![xh, yl, zl],
            vec![yh, xh, zl],
            vec![xl, yh, zl],
            vec![zh, xl, yl],
            vec![xh, zh, yl],
            vec![yh, zh, xh],
            vec![xl, zh, yh],
        ];
        let r = EdgeTopology { out, left };
        assert(rows_view(r.out@) =~= box_out());
        r
    }
}


/// Record of one crossing point `p` on an edge leaving the kept vertex with
/// new index `a`: `(p, a, face on the left of the edge, face on its right)`.
pub type CutInfo = (usize, usize, i32, i32);

/// What the first pass has built: the new vertices, the crossing points
/// each face has received, and the crossing records.
pub type CutState = (Seq<PolyPoint>, Seq<(i32, usize)>, Seq<CutInfo>);

/// Index of the edge before `k` around a vertex with `n` edges.
pub open spec fn cyclic_prev(k: int, n: int) -> int {
    if k <= 0 {
        n - 1
    } else {
        k - 1
    }
}

/// One edge of a kept vertex in the first pass: an edge to a dropped
/// vertex gets a new crossing point, recorded on the faces on either side.
pub open spec fn cut_step(out: Seq<Seq<usize>>, left: Seq<Seq<i32>>, sides: Seq<Side>, st: CutState, i: int, a: int, k: int) -> CutState {
    let nb = out[i][k];
    if kept(sides[nb as int]) {
        st
    } else {
        let p = st.0.len() as usize;
        let fl = left[i][k];
        let fr = left[i][cyclic_prev(k, out[i].len() as int)];
        let verts = st.0.push(PolyPoint::Crossing(i as usize, nb));
        (verts, st.1.push((fl, p)).push((fr, p)), st.2.push((p, a as usize, fl, fr)))
    }
}

/// First-pass state after all vertices before `i`.
pub open spec fn pass_before(out: Seq<Seq<usize>>, left: Seq<Seq<i32>>, sides: Seq<Side>, i: int) -> CutState
    decreases i, 0nat, 0nat,
{
    if i <= 0 {
        (seq![], seq![], seq![])
    } else {
        pass_edges(out, left, sides, i - 1, out[i - 1].len() as int)
    }
}

/// New index of old vertex `i` when it is kept.
pub open spec fn anchor(out: Seq<Seq<usize>>, left: Seq<Seq<i32>>, sides: Seq<Side>, i: int) -> int {
    pass_before(out, left, sides, i).0.len() as int
}

/// First-pass state after vertex `i` was added (when kept) and its first
/// `k` edges were looked at.
pub open spec fn pass_edges(out: Seq<Seq<usize>>, left: Seq<Seq<i32>>, sides: Seq<Side>, i: int, k: int) -> CutState
    decreases i, 1nat, k,
{
    if k <= 0 {
        let st = pass_before(out, left, sides, i);
        if kept(sides[i]) {
            (st.0.push(PolyPoint::Vertex(i as usize)), st.1, st.2)
        } else {
            st
        }
    } else {
        let st = pass_edges(out, left, sides, i, k - 1);
        if kept(sides[i]) {
            cut_step(out, left, sides, st, i, pass_before(out, left, sides, i).0.len() as int, k - 1)
        } else {
            st
        }
    }
}

/// Position of the first record, from `m` on, of a crossing point next to
/// new vertex `a` with face `fl` on its left, or -1.
pub open spec fn find_info(infos: Seq<CutInfo>, a: usize, fl: i32, m: int) -> int
    decreases infos.len() - m,
{
    if m < 0 || m >= infos.len() {
        -1
    } else if infos[m].1 == a && infos[m].2 == fl {
        m
    } else {
        find_info(infos, a, fl, m + 1)
    }
}

/// Position of the first crossing point, from `m` on, recorded on face `f`
/// other than `p`, or -1.
pub open spec fn find_other(fcm: Seq<(i32, usize)>, f: i32, p: usize, m: int) -> int
    decreases fcm.len() - m,
{
    if m < 0 || m >= fcm.len() {
        -1
    } else if fcm[m].0 == f && fcm[m].1 != p {
        m
    } else {
        find_other(fcm, f, p, m + 1)
    }
}

/// New outgoing edges, with their left faces, of kept old vertex `i`,
/// after its first `k` old edges: an edge to a kept vertex is kept, an edge
/// to a dropped one now ends at the recorded crossing point, if any.
pub open spec fn kept_edges(
    out: Seq<Seq<usize>>,
    left: Seq<Seq<i32>>,
    sides: Seq<Side>,
    infos: Seq<CutInfo>,
    i: int,
    k: int,
) -> (Seq<usize>, Seq<i32>)
    decreases k,
{
    if k <= 0 {
        (seq![], seq![])
    } else {
        let st = kept_edges(out, left, sides, infos, i, k - 1);
        let nb = out[i][k - 1];
        let fl = left[i][k - 1];
        if kept(sides[nb as int]) {
            (st.0.push(anchor(out, left, sides, nb as int) as usize), st.1.push(fl))
        } else {
            let q = find_info(infos, anchor(out, left, sides, i) as usize, fl, 0);
            if q >= 0 {
                (st.0.push(infos[q].0), st.1.push(fl))
            } else {
                st
            }
        }
    }
}

/// Outgoing edges of the crossing point of record `q`: back to its kept
/// vertex with the right face on the left, to the other crossing point of
/// the right face with the lid on the left, and to the other crossing point
/// of the left face with that face on the left; the last two when present.
pub open spec fn lid_edges(fcm: Seq<(i32, usize)>, info: CutInfo, label: i32) -> (Seq<usize>, Seq<i32>) {
    let (p, u, fl, fr) = info;
    let prev = find_other(fcm, fr, p, 0);
    let next = find_other(fcm, fl, p, 0);
    let e1 = (seq![u], seq![fr]);
    let e2 = if prev >= 0 {
        (e1.0.push(fcm[prev].1), e1.1.push(label))
    } else {
        e1
    };
    if next >= 0 {
        (e2.0.push(fcm[next].1), e2.1.push(fl))
    } else {
        e2
    }
}

fn find_info_exec(infos: &Vec<CutInfo>, a: usize, fl: i32) -> (r: Option<usize>)
    ensures
        match r {
            Some(q) => q as int == find_info(infos@, a, fl, 0) && q < infos.len(),
            None => find_info(infos@, a, fl, 0) == -1,
        },
{
    let mut m: usize = 0;
    while m < infos.len()
        invariant
            m <= infos.len(),
            find_info(infos@, a, fl, m as int) == find_info(infos@, a, fl, 0),
        decreases infos.len() - m,
    {
        if infos[m].1 == a && infos[m].2 == fl {
            return Some(m);
        }
        m = m + 1;
    }
    None
}

fn find_other_exec(fcm: &Vec<(i32, usize)>, f: i32, p: usize) -> (r: Option<usize>)
    ensures
        match r {
            Some(m) => m as int == find_other(fcm@, f, p, 0) && m < fcm.len(),
            None => find_other(fcm@, f, p, 0) == -1,
        },
{
    let mut m: usize = 0;
    while m < fcm.len()
        invariant
            m <= fcm.len(),
            find_other(fcm@, f, p, m as int) == find_other(fcm@, f, p, 0),
        decreases fcm.len() - m,
    {
        if fcm[m].0 == f && fcm[m].1 != p {
            return Some(m);
        }
        m = m + 1;
    }
    None
}

/// Facts about the first pass that the later passes rely on.
pub open spec fn pass_facts(
    out: Seq<Seq<usize>>,
    left: Seq<Seq<i32>>,
    sides: Seq<Side>,
    verts: Seq<PolyPoint>,
    fcm: Seq<(i32, usize)>,
    infos: Seq<CutInfo>,
    anchors: Seq<usize>,
    done: int,
) -> bool {
    &&& forall|v: int| 0 <= v < verts.len() ==> match #[trigger] verts[v] {
        PolyPoint::Vertex(j) => j < done && kept(sides[j as int]) && anchors[j as int] == v,
        PolyPoint::Crossing(_, _) => true,
    }
    &&& forall|j: int| 0 <= j < done && kept(sides[j]) ==> {
        &&& #[trigger] anchors[j] as int == anchor(out, left, sides, j)
        &&& anchors[j] < verts.len()
        &&& verts[anchors[j] as int] == PolyPoint::Vertex(j as usize)
    }
    &&& forall|q: int| 0 <= q < infos.len() ==> {
        &&& (#[trigger] infos[q]).0 < verts.len()
        &&& verts[infos[q].0 as int] is Crossing
        &&& infos[q].1 < verts.len()
    }
    &&& forall|q1: int, q2: int| 0 <= q1 < q2 < infos.len() ==> (#[trigger] infos[q1]).0 < (#[trigger] infos[q2]).0
    &&& forall|m: int| 0 <= m < fcm.len() ==> (#[trigger] fcm[m]).1 < verts.len()
    &&& forall|v: int|
        0 <= v < verts.len() && (#[trigger] verts[v]) is Crossing ==> exists|q: int| 0 <= q < infos.len() && infos[q].0 == v
    &&& forall|q: int|
        0 <= q < infos.len() ==> fcm.contains(((#[trigger] infos[q]).2, infos[q].0)) && fcm.contains((infos[q].3, infos[q].0))
}

/// Every edge from a kept vertex to a dropped one, among the first `i`
/// vertices and the first `kk` edges of vertex `i`, has a crossing record
/// naming that kept vertex and that edge's left face.
pub open spec fn records_cover(
    out: Seq<Seq<usize>>,
    left: Seq<Seq<i32>>,
    sides: Seq<Side>,
    infos: Seq<CutInfo>,
    anchors: Seq<usize>,
    i: int,
    kk: int,
) -> bool {
    forall|j: int, k: int|
        0 <= j < out.len() && 0 <= k < out[j].len() && (j < i || (j == i && k < kk)) && kept(sides[j]) && !kept(
            sides[#[trigger] out[j][k] as int],
        ) ==> exists|q: int| 0 <= q < infos.len() && infos[q].1 == anchors[j] && infos[q].2 == left[j][k]
}

/// First pass: keeps the kept vertices and creates a crossing point on each
/// edge from a kept vertex to a dropped one.
fn cut_pass(t: &EdgeTopology, sides: &Vec<Side>) -> (r: (Vec<PolyPoint>, Vec<usize>, Vec<(i32, usize)>, Vec<CutInfo>))
    requires
        t.wf(),
        sides.len() == t.out.len(),
    ensures
        (r.0@, r.2@, r.3@) == pass_before(rows_view(t.out@), rows_view(t.left@), sides@, sides.len() as int),
        r.1.len() == sides.len(),
        pass_facts(rows_view(t.out@), rows_view(t.left@), sides@, r.0@, r.2@, r.3@, r.1@, sides.len() as int),
        records_cover(rows_view(t.out@), rows_view(t.left@), sides@, r.3@, r.1@, sides.len() as int, 0),
{
    let ghost out = rows_view(t.out@);
    let ghost left = rows_view(t.left@);
    let n = sides.len();
    let mut verts: Vec<PolyPoint> = Vec::new();
    let mut anchors: Vec<usize> = Vec::new();
    let mut fcm: Vec<(i32, usize)> = Vec::new();
    let mut infos: Vec<CutInfo> = Vec::new();
    let mut i: usize = 0;
    while i < n
        invariant
            t.wf(),
            out == rows_view(t.out@),
            left == rows_view(t.left@),
            n == sides.len(),
            n == out.len(),
            i <= n,
            (verts@, fcm@, infos@) == pass_before(out, left, sides@, i as int),
            anchors.len() == i,
            pass_facts(out, left, sides@, verts@, fcm@, infos@, anchors@, i as int),
            records_cover(out, left, sides@, infos@, anchors@, i as int, 0),
        decreases n - i,
    {
        let a = verts.len();
        let ki = is_kept(sides[i]);
        let ghost anchors0 = anchors@;
        let ghost verts0 = verts@;
        anchors.push(a);
        if ki {
            verts.push(PolyPoint::Vertex(i));
        }
        proof {
            assert(anchor(out, left, sides@, i as int) == a);
            assert forall|j: int| 0 <= j < i implies anchors@[j] == anchors0[j] by {}
            assert forall|v: int| 0 <= v < verts0.len() implies verts@[v] == verts0[v] by {}
            assert forall|v: int| 0 <= v < verts.len() implies match #[trigger] verts@[v] {
                PolyPoint::Vertex(j) => j < i + 1 && kept(sides@[j as int]) && anchors@[j as int] == v,
                PolyPoint::Crossing(_, _) => true,
            } by {
                if v < verts0.len() {
                    assert(verts@[v] == verts0[v]);
                }
            }
            assert forall|j: int| 0 <= j < i + 1 && kept(sides@[j]) implies {
                &&& #[trigger] anchors@[j] as int == anchor(out, left, sides@, j)
                &&& anchors@[j] < verts.len()
                &&& verts@[anchors@[j] as int] == PolyPoint::Vertex(j as usize)
            } by {
                if j < i {
                    assert(anchors@[j] == anchors0[j]);
                }
            }
            assert forall|q: int| 0 <= q < infos.len() implies {
                &&& (#[trigger] infos@[q]).0 < verts.len()
                &&& verts@[infos@[q].0 as int] is Crossing
                &&& infos@[q].1 < verts.len()
            } by {
                assert(verts@[infos@[q].0 as int] == verts0[infos@[q].0 as int]);
            }
            assert forall|v: int| 0 <= v < verts.len() && (#[trigger] verts@[v]) is Crossing implies exists|q: int|
                0 <= q < infos.len() && infos@[q].0 == v by {
                assert(verts@[v] == verts0[v]);
            }
        }
        proof {
            assert forall|j: int, k: int|
                0 <= j < out.len() && 0 <= k < out[j].len() && (j < i || (j == i && k < 0)) && kept(sides@[j]) && !kept(
                    sides@[#[trigger] out[j][k] as int],
                ) implies exists|q: int| 0 <= q < infos@.len() && infos@[q].1 == anchors@[j] && infos@[q].2 == left[j][k] by {
                assert(anchors@[j] == anchors0[j]);
            }
        }
        let deg = t.out[i].len();
        assert(out[i as int].len() == deg);
        let mut k: usize = 0;
        while k < deg
            invariant
                t.wf(),
                out == rows_view(t.out@),
                left == rows_view(t.left@),
                n == sides.len(),
                n == out.len(),
                i < n,
                deg == out[i as int].len(),
                k <= deg,
                ki == kept(sides@[i as int]),
                a as int == anchor(out, left, sides@, i as int),
                (verts@, fcm@, infos@) == pass_edges(out, left, sides@, i as int, k as int),
                anchors.len() == i + 1,
                anchors@[i as int] == a,
                ki ==> a < verts.len() && verts@[a as int] == PolyPoint::Vertex(i),
                pass_facts(out, left, sides@, verts@, fcm@, infos@, anchors@, i + 1),
                records_cover(out, left, sides@, infos@, anchors@, i as int, k as int),
            decreases deg - k,
        {
            let ghost infos_start = infos@;
            if ki {
                let nb = t.out[i][k];
                assert(out[i as int][k as int] == nb);
                if !is_kept(sides[nb]) {
                    let p = verts.len();
                    let fl = t.left[i][k];
                    let kp: usize = if k == 0 { deg - 1 } else { k - 1 };
                    let fr = t.left[i][kp];
                    assert(left[i as int][k as int] == fl);
                    assert(left[i as int][kp as int] == fr);
                    let ghost verts0 = verts@;
                    let ghost fcm0 = fcm@;
                    let ghost infos0 = infos@;
                    verts.push(PolyPoint::Crossing(i, nb));
                    proof {
                        assert forall|v: int| 0 <= v < verts0.len() implies verts@[v] == verts0[v] by {}
                    }
                    fcm.push((fl, p));
                    fcm.push((fr, p));
                    infos.push((p, a, fl, fr));
                    proof {
                        assert forall|m: int| 0 <= m < fcm.len() implies (#[trigger] fcm@[m]).1 < verts.len() by {
                            if m < fcm0.len() {
                                assert(fcm@[m] == fcm0[m]);
                            }
                        }
                        assert forall|q: int| 0 <= q < infos.len() implies {
                            &&& (#[trigger] infos@[q]).0 < verts.len()
                            &&& verts@[infos@[q].0 as int] is Crossing
                            &&& infos@[q].1 < verts.len()
                        } by {
                            if q < infos0.len() {
                                assert(infos@[q] == infos0[q]);
                            }
                        }
                        assert forall|q1: int, q2: int| 0 <= q1 < q2 < infos.len() implies (#[trigger] infos@[q1]).0 < (#[trigger] infos@[q2]).0 by {
                            assert(infos@[q1] == infos0[q1]);
                            if q2 < infos0.len() {
                                assert(infos@[q2] == infos0[q2]);
                            }
                        }
                        assert forall|q: int|
                            0 <= q < infos.len() implies fcm@.contains(((#[trigger] infos@[q]).2, infos@[q].0)) && fcm@.contains(
                            (infos@[q].3, infos@[q].0),
                        ) by {
                            if q < infos0.len() {
                                assert(infos@[q] == infos0[q]);
                                let m1 = choose|m: int| 0 <= m < fcm0.len() && fcm0[m] == (infos0[q].2, infos0[q].0);
                                let m2 = choose|m: int| 0 <= m < fcm0.len() && fcm0[m] == (infos0[q].3, infos0[q].0);
                                assert(fcm@[m1] == fcm0[m1]);
                                assert(fcm@[m2] == fcm0[m2]);
                            } else {
                                assert(fcm@[fcm0.len() as int] == (fl, p));
                                assert(fcm@[fcm0.len() as int + 1] == (fr, p));
                            }
                        }
                        assert forall|v: int| 0 <= v < verts.len() && (#[trigger] verts@[v]) is Crossing implies exists|q: int|
                            0 <= q < infos.len() && infos@[q].0 == v by {
                            if v < verts0.len() {
                                assert(verts@[v] == verts0[v]);
                                let q = choose|q: int| 0 <= q < infos0.len() && infos0[q].0 == v;
                                assert(infos@[q] == infos0[q]);
                            } else {
                                assert(infos@[infos0.len() as int].0 == v);
                            }
                        }
                    }
                }
            }
            proof {
                assert forall|j: int, kx: int|
                    0 <= j < out.len() && 0 <= kx < out[j].len() && (j < i || (j == i && kx < k + 1)) && kept(sides@[j])
                        && !kept(sides@[#[trigger] out[j][kx] as int]) implies exists|q: int|
                    0 <= q < infos@.len() && infos@[q].1 == anchors@[j] && infos@[q].2 == left[j][kx] by {
                    if j < i || kx < k {
                        let q = choose|q: int|
                            0 <= q < infos_start.len() && infos_start[q].1 == anchors@[j] && infos_start[q].2 == left[j][kx];
                        assert(infos@[q] == infos_start[q]);
                    } else {
                        assert(infos@[infos_start.len() as int].1 == anchors@[j]);
                    }
                }
            }
            k = k + 1;
        }
        i = i + 1;
    }
    (verts, anchors, fcm, infos)
}

/// An edge of a kept vertex towards a kept vertex is among its new edges.
proof fn lemma_kept_edge_survives(
    out: Seq<Seq<usize>>,
    left: Seq<Seq<i32>>,
    sides: Seq<Side>,
    infos: Seq<CutInfo>,
    i: int,
    k: int,
    m: int,
)
    requires
        0 <= k < m,
        kept(sides[out[i][k] as int]),
    ensures
        kept_edges(out, left, sides, infos, i, m).0.contains(anchor(out, left, sides, out[i][k] as int) as usize),
    decreases m,
{
    let prev = kept_edges(out, left, sides, infos, i, m - 1);
    let cur = kept_edges(out, left, sides, infos, i, m);
    let x = anchor(out, left, sides, out[i][k] as int) as usize;
    if k == m - 1 {
        assert(cur.0[prev.0.len() as int] == x);
    } else {
        lemma_kept_edge_survives(out, left, sides, infos, i, k, m - 1);
        let w = choose|w: int| 0 <= w < prev.0.len() && prev.0[w] == x;
        assert(cur.0[w] == x);
    }
}

proof fn lemma_find_info_found(infos: Seq<CutInfo>, a: usize, fl: i32, q: int, m: int)
    requires
        0 <= m <= q < infos.len(),
        infos[q].1 == a && infos[q].2 == fl,
    ensures
        m <= find_info(infos, a, fl, m) < infos.len(),
        infos[find_info(infos, a, fl, m)].1 == a,
        infos[find_info(infos, a, fl, m)].2 == fl,
    decreases q - m,
{
    if m < q && !(infos[m].1 == a && infos[m].2 == fl) {
        lemma_find_info_found(infos, a, fl, q, m + 1);
    }
}

proof fn lemma_kept_edges_len(
    out: Seq<Seq<usize>>,
    left: Seq<Seq<i32>>,
    sides: Seq<Side>,
    infos: Seq<CutInfo>,
    i: int,
    m: int,
)
    ensures
        kept_edges(out, left, sides, infos, i, m).0.len() == kept_edges(out, left, sides, infos, i, m).1.len(),
    decreases m,
{
    if m > 0 {
        lemma_kept_edges_len(out, left, sides, infos, i, m - 1);
    }
}

/// An edge of a kept vertex towards a dropped vertex now ends at the
/// crossing point of the first record for that kept vertex and that edge's
/// left face, and keeps the left face.
proof fn lemma_cut_edge_survives(
    out: Seq<Seq<usize>>,
    left: Seq<Seq<i32>>,
    sides: Seq<Side>,
    infos: Seq<CutInfo>,
    i: int,
    k: int,
    m: int,
)
    requires
        0 <= k < m,
        !kept(sides[out[i][k] as int]),
        0 <= find_info(infos, anchor(out, left, sides, i) as usize, left[i][k], 0) < infos.len(),
    ensures
        exists|w: int|
            0 <= w < kept_edges(out, left, sides, infos, i, m).0.len() && kept_edges(out, left, sides, infos, i, m).0[w]
                == infos[find_info(infos, anchor(out, left, sides, i) as usize, left[i][k], 0)].0 && kept_edges(
                out,
                left,
                sides,
                infos,
                i,
                m,
            ).1[w] == left[i][k],
    decreases m,
{
    let prev = kept_edges(out, left, sides, infos, i, m - 1);
    let cur = kept_edges(out, left, sides, infos, i, m);
    let p = infos[find_info(infos, anchor(out, left, sides, i) as usize, left[i][k], 0)].0;
    lemma_kept_edges_len(out, left, sides, infos, i, m - 1);
    if k == m - 1 {
        assert(cur.0[prev.0.len() as int] == p && cur.1[prev.0.len() as int] == left[i][k]);
    } else {
        lemma_cut_edge_survives(out, left, sides, infos, i, k, m - 1);
        let w = choose|w: int| 0 <= w < prev.0.len() && prev.0[w] == p && prev.1[w] == left[i][k];
        assert(cur.0[w] == p && cur.1[w] == left[i][k]);
    }
}

/// The crossing points recorded on face `f` are only `p1` and `p2`.
pub open spec fn face_holds_only(fcm: Seq<(i32, usize)>, f: i32, p1: usize, p2: usize) -> bool {
    forall|m: int| 0 <= m < fcm.len() && (#[trigger] fcm[m]).0 == f ==> fcm[m].1 == p1 || fcm[m].1 == p2
}

proof fn lemma_find_other_is(fcm: Seq<(i32, usize)>, f: i32, p: usize, p2: usize, w: int, m: int)
    requires
        p != p2,
        0 <= m <= w < fcm.len(),
        fcm[w] == (f, p2),
        face_holds_only(fcm, f, p, p2),
    ensures
        0 <= find_other(fcm, f, p, m) < fcm.len(),
        fcm[find_other(fcm, f, p, m)].1 == p2,
    decreases w - m,
{
    if m < w && !(fcm[m].0 == f && fcm[m].1 != p) {
        lemma_find_other_is(fcm, f, p, p2, w, m + 1);
    }
}

/// Position of the first record, from `m` on, whose crossing point is `x`,
/// or -1.
pub open spec fn info_of(infos: Seq<CutInfo>, x: usize, m: int) -> int
    decreases infos.len() - m,
{
    if m < 0 || m >= infos.len() {
        -1
    } else if infos[m].0 == x {
        m
    } else {
        info_of(infos, x, m + 1)
    }
}

proof fn lemma_info_of(infos: Seq<CutInfo>, x: usize, m: int)
    requires
        0 <= m,
    ensures
        info_of(infos, x, m) == -1 || (m <= info_of(infos, x, m) < infos.len() && infos[info_of(infos, x, m)].0 == x),
    decreases infos.len() - m,
{
    if m < infos.len() && infos[m].0 != x {
        lemma_info_of(infos, x, m + 1);
    }
}

proof fn lemma_info_of_found(infos: Seq<CutInfo>, x: usize, q: int, m: int)
    requires
        0 <= m <= q < infos.len(),
        infos[q].0 == x,
    ensures
        info_of(infos, x, m) >= 0,
    decreases q - m,
{
    if m < q && infos[m].0 != x {
        lemma_info_of_found(infos, x, q, m + 1);
    }
}

proof fn lemma_info_of_own(infos: Seq<CutInfo>, q: int, m: int)
    requires
        0 <= m <= q < infos.len(),
        forall|q1: int, q2: int| 0 <= q1 < q2 < infos.len() ==> (#[trigger] infos[q1]).0 < (#[trigger] infos[q2]).0,
    ensures
        info_of(infos, infos[q].0, m) == q,
    decreases q - m,
{
    if m < q {
        assert(infos[m].0 < infos[q].0);
        lemma_info_of_own(infos, q, m + 1);
    }
}

/// The new edge structure of one kept vertex.
fn kept_edges_exec(
    t: &EdgeTopology,
    sides: &Vec<Side>,
    verts: &Vec<PolyPoint>,
    fcm: &Vec<(i32, usize)>,
    infos: &Vec<CutInfo>,
    anchors: &Vec<usize>,
    i: usize,
) -> (r: (Vec<usize>, Vec<i32>))
    requires
        t.wf(),
        sides.len() == t.out.len(),
        anchors.len() == sides.len(),
        i < sides.len(),
        kept(sides@[i as int]),
        pass_facts(rows_view(t.out@), rows_view(t.left@), sides@, verts@, fcm@, infos@, anchors@, sides.len() as int),
    ensures
        (r.0@, r.1@) == kept_edges(rows_view(t.out@), rows_view(t.left@), sides@, infos@, i as int, t.out@[i as int].len() as int),
        r.0.len() == r.1.len(),
        forall|k: int| 0 <= k < r.0.len() ==> #[trigger] r.0@[k] < verts.len(),
{
    let ghost out = rows_view(t.out@);
    let ghost left = rows_view(t.left@);
    let deg = t.out[i].len();
    let a = anchors[i];
    assert(a as int == anchor(out, left, sides@, i as int));
    let mut eo: Vec<usize> = Vec::new();
    let mut el: Vec<i32> = Vec::new();
    let mut k: usize = 0;
    while k < deg
        invariant
            t.wf(),
            out == rows_view(t.out@),
            left == rows_view(t.left@),
            sides.len() == t.out.len(),
            anchors.len() == sides.len(),
            i < sides.len(),
            deg == out[i as int].len(),
            a as int == anchor(out, left, sides@, i as int),
            pass_facts(out, left, sides@, verts@, fcm@, infos@, anchors@, sides.len() as int),
            k <= deg,
            (eo@, el@) == kept_edges(out, left, sides@, infos@, i as int, k as int),
            eo.len() == el.len(),
            forall|m: int| 0 <= m < eo.len() ==> #[trigger] eo@[m] < verts.len(),
        decreases deg - k,
    {
        let nb = t.out[i][k];
        let fl = t.left[i][k];
        assert(out[i as int][k as int] == nb);
        assert(left[i as int][k as int] == fl);
        let ghost eo0 = eo@;
        if is_kept(sides[nb]) {
            eo.push(anchors[nb]);
            el.push(fl);
        } else {
            match find_info_exec(infos, a, fl) {
                Some(q) => {
                    eo.push(infos[q].0);
                    el.push(fl);
                },
                None => {},
            }
        }
        proof {
            assert forall|m: int| 0 <= m < eo.len() implies #[trigger] eo@[m] < verts.len() by {
                if m < eo0.len() {
                    assert(eo@[m] == eo0[m]);
                }
            }
        }
        k = k + 1;
    }
    (eo, el)
}

/// The edges of the crossing point of one record.
fn lid_edges_exec(fcm: &Vec<(i32, usize)>, info: CutInfo, label: i32) -> (r: (Vec<usize>, Vec<i32>))
    ensures
        (r.0@, r.1@) == lid_edges(fcm@, info, label),
{
    let (p, u, fl, fr) = info;
    let mut eo: Vec<usize> = Vec::new();
    let mut el: Vec<i32> = Vec::new();
    eo.push(u);
    el.push(fr);
    match find_other_exec(fcm, fr, p) {
        Some(m) => {
            eo.push(fcm[m].1);
            el.push(label);
        },
        None => {},
    }
    match find_other_exec(fcm, fl, p) {
        Some(m) => {
            eo.push(fcm[m].1);
            el.push(fl);
        },
        None => {},
    }
    (eo, el)
}

/// Every edge of the graph runs both ways: the far end of each edge has an
/// edge back.
pub open spec fn edges_paired(out: Seq<Seq<usize>>) -> bool {
    forall|u: int, k: int|
        0 <= u < out.len() && 0 <= k < out[u].len() ==> out[#[trigger] out[u][k] as int].contains(u as usize)
}

/// In the seed box every directed edge has its opposite.
pub proof fn lemma_box_edges_paired()
    ensures
        edges_paired(box_out()),
{
    let o = box_out();
    assert forall|u: int, k: int| 0 <= u < o.len() && 0 <= k < o[u].len() implies o[#[trigger] o[u][k] as int].contains(
        u as usize,
    ) by {
        if u == 0 && k == 0 {
            assert(o[1][2] == 0);
        } else if u == 0 && k == 1 {
            assert(o[4][2] == 0);
        } else if u == 0 && k == 2 {
            assert(o[3][0] == 0);
        } else if u == 1 && k == 0 {
            assert(o[2][2] == 1);
        } else if u == 1 && k == 1 {
            assert(o[5][0] == 1);
        } else if u == 1 && k == 2 {
            assert(o[0][0] == 1);
        } else if u == 2 && k == 0 {
            assert(o[3][2] == 2);
        } else if u == 2 && k == 1 {
            assert(o[6][0] == 2);
        } else if u == 2 && k == 2 {
            assert(o[1][0] == 2);
        } else if u == 3 && k == 0 {
            assert(o[0][2] == 3);
        } else if u == 3 && k == 1 {
            assert(o[7][0] == 3);
        } else if u == 3 && k == 2 {
            assert(o[2][0] == 3);
        } else if u == 4 && k == 0 {
            assert(o[5][2] == 4);
        } else if u == 4 && k == 1 {
            assert(o[7][1] == 4);
        } else if u == 4 && k == 2 {
            assert(o[0][1] == 4);
        } else if u == 5 && k == 0 {
            assert(o[1][1] == 5);
        } else if u == 5 && k == 1 {
            assert(o[6][2] == 5);
        } else if u == 5 && k == 2 {
            assert(o[4][0] == 5);
        } else if u == 6 && k == 0 {
            assert(o[2][1] == 6);
        } else if u == 6 && k == 1 {
            assert(o[7][2] == 6);
        } else if u == 6 && k == 2 {
            assert(o[5][1] == 6);
        } else if u == 7 && k == 0 {
            assert(o[3][1] == 7);
        } else if u == 7 && k == 1 {
            assert(o[4][1] == 7);
        } else if u == 7 && k == 2 {
            assert(o[6][1] == 7);
        }
    }
}

/// Position of the first label `f` in `ls`.
fn find_label_exec(ls: &Vec<i32>, f: i32) -> (r: Option<usize>)
    ensures
        match r {
            Some(m) => m as int == find_label(ls@, f) && m < ls.len(),
            None => find_label(ls@, f) == -1,
        },
{
    proof {
        lemma_find_label(ls@, f);
    }
    let mut m: usize = 0;
    while m < ls.len()
        invariant
            m <= ls.len(),
            forall|i: int| 0 <= i < m ==> ls@[i] != f,
            -1 <= find_label(ls@, f) < ls.len(),
            find_label(ls@, f) == -1 <==> forall|i: int| 0 <= i < ls.len() ==> ls@[i] != f,
            find_label(ls@, f) >= 0 ==> ls@[find_label(ls@, f)] == f && forall|i: int|
                0 <= i < find_label(ls@, f) ==> ls@[i] != f,
        decreases ls.len() - m,
    {
        if ls[m] == f {
            return Some(m);
        }
        m = m + 1;
    }
    None
}

proof fn lemma_find_label(ls: Seq<i32>, f: i32)
    ensures
        -1 <= find_label(ls, f) < ls.len(),
        find_label(ls, f) == -1 <==> forall|i: int| 0 <= i < ls.len() ==> ls[i] != f,
        find_label(ls, f) >= 0 ==> ls[find_label(ls, f)] == f && forall|i: int|
            0 <= i < find_label(ls, f) ==> ls[i] != f,
    decreases ls.len(),
{
    if ls.len() > 0 {
        let d = ls.drop_last();
        lemma_find_label(d, f);
        assert forall|i: int| 0 <= i < d.len() implies ls[i] == d[i] by {}
    }
}

pub open spec fn vis_shape(vis: Seq<Seq<bool>>, out: Seq<Seq<usize>>) -> bool {
    &&& vis.len() == out.len()
    &&& forall|v: int| 0 <= v < out.len() ==> (#[trigger] vis[v]).len() == out[v].len()
}

proof fn lemma_row_marks_bound(r: Seq<bool>)
    ensures
        0 <= row_marks(r) <= r.len(),
    decreases r.len(),
{
    if r.len() > 0 {
        lemma_row_marks_bound(r.drop_last());
    }
}

proof fn lemma_row_marks_none(r: Seq<bool>)
    requires
        forall|i: int| 0 <= i < r.len() ==> !(#[trigger] r[i]),
    ensures
        row_marks(r) == 0,
    decreases r.len(),
{
    if r.len() > 0 {
        let d = r.drop_last();
        assert forall|i: int| 0 <= i < d.len() implies !(#[trigger] d[i]) by {
            assert(d[i] == r[i]);
        }
        lemma_row_marks_none(d);
    }
}

proof fn lemma_row_marks_set(r: Seq<bool>, k: int)
    requires
        0 <= k < r.len(),
        !r[k],
    ensures
        row_marks(r.update(k, true)) == row_marks(r) + 1,
    decreases r.len(),
{
    let s = r.update(k, true);
    if k == r.len() - 1 {
        assert(s.drop_last() =~= r.drop_last());
    } else {
        assert(s.drop_last() =~= r.drop_last().update(k, true));
        lemma_row_marks_set(r.drop_last(), k);
    }
}

proof fn lemma_marks_same(a: Seq<Seq<bool>>, b: Seq<Seq<bool>>, n: int)
    requires
        forall|x: int| 0 <= x < n ==> #[trigger] a[x] == b[x],
    ensures
        marks(a, n) == marks(b, n),
    decreases n,
{
    if n > 0 {
        lemma_marks_same(a, b, n - 1);
    }
}

/// Marking an unmarked edge adds one mark.
proof fn lemma_marks_set(vis: Seq<Seq<bool>>, v: int, k: int, n: int)
    requires
        0 <= v < n <= vis.len(),
        0 <= k < vis[v].len(),
        !vis[v][k],
    ensures
        marks(mark(vis, v, k), n) == marks(vis, n) + 1,
    decreases n,
{
    let w = mark(vis, v, k);
    if n - 1 == v {
        assert forall|x: int| 0 <= x < n - 1 implies #[trigger] w[x] == vis[x] by {}
        lemma_marks_same(w, vis, n - 1);
        lemma_row_marks_set(vis[v], k);
    } else {
        lemma_marks_set(vis, v, k, n - 1);
        assert(w[n - 1] == vis[n - 1]);
    }
}

proof fn lemma_marks_bound(vis: Seq<Seq<bool>>, out: Seq<Seq<usize>>, n: int)
    requires
        0 <= n <= out.len(),
        vis_shape(vis, out),
    ensures
        marks(vis, n) <= total_edges(out, n),
    decreases n,
{
    if n > 0 {
        lemma_marks_bound(vis, out, n - 1);
        lemma_row_marks_bound(vis[n - 1]);
    }
}

proof fn lemma_marks_none(out: Seq<Seq<usize>>, n: int)
    requires
        0 <= n <= out.len(),
    ensures
        marks(unvisited(out), n) == 0,
    decreases n,
{
    if n > 0 {
        lemma_marks_none(out, n - 1);
        lemma_row_marks_none(unvisited(out)[n - 1]);
    }
}

/// Walks one face from edge `k` of vertex `u`, marking the edges it uses.
fn walk_face(t: &EdgeTopology, f: i32, u: usize, k: usize, vis: &mut Vec<Vec<bool>>, fuel: usize) -> (r: Vec<usize>)
    requires
        t.wf(),
        u < t.out.len(),
        k < t.out@[u as int].len(),
        vis_shape(rows_view(old(vis)@), rows_view(t.out@)),
        !rows_view(old(vis)@)[u as int][k as int],
    ensures
        vis_shape(rows_view(final(vis)@), rows_view(t.out@)),
        marks(rows_view(final(vis)@), t.out.len() as int) == marks(rows_view(old(vis)@), t.out.len() as int) + r.len(),
        (r@, rows_view(final(vis)@)) == walk(
            rows_view(t.out@),
            rows_view(t.left@),
            f,
            u,
            u,
            k as int,
            seq![],
            rows_view(old(vis)@),
            fuel as nat,
        ),
{
    let ghost out = rows_view(t.out@);
    let ghost left = rows_view(t.left@);
    let ghost goal = walk(out, left, f, u, u, k as int, seq![], rows_view(vis@), fuel as nat);
    let ghost start = marks(rows_view(vis@), out.len() as int);
    let mut acc: Vec<usize> = Vec::new();
    let mut curr = u;
    let mut slot = k;
    let mut fuel_left = fuel;
    let mut done = false;
    while !done
        invariant
            t.wf(),
            out == rows_view(t.out@),
            left == rows_view(t.left@),
            vis_shape(rows_view(vis@), out),
            u < out.len(),
            !done ==> curr < out.len() && slot < out[curr as int].len(),
            !done ==> !rows_view(vis@)[curr as int][slot as int],
            marks(rows_view(vis@), out.len() as int) == start + acc.len(),
            !done ==> walk(out, left, f, u, curr, slot as int, acc@, rows_view(vis@), fuel_left as nat) == goal,
            done ==> (acc@, rows_view(vis@)) == goal,
        decreases fuel_left + if done { 0int } else { 1int },
    {
        let ghost acc0 = acc@;
        let ghost vis0 = rows_view(vis@);
        acc.push(curr);
        vis[curr].set(slot, true);
        proof {
            assert(rows_view(vis@) =~= mark(vis0, curr as int, slot as int));
            lemma_marks_set(vis0, curr as int, slot as int, out.len() as int);
            assert forall|v: int| 0 <= v < out.len() implies (#[trigger] rows_view(vis@)[v]).len() == out[v].len() by {
                if v == curr {
                } else {
                    assert(rows_view(vis@)[v] == vis0[v]);
                }
            }
        }
        let next = t.out[curr][slot];
        assert(out[curr as int][slot as int] == next);
        assert(t.left@[next as int]@ == left[next as int]);
        let m = find_label_exec(&t.left[next], f);
        match m {
            Some(mm) => {
                assert(out[next as int].len() == left[next as int].len());
                assert(vis@[next as int]@ == rows_view(vis@)[next as int]);
                if fuel_left == 0 || next == u || vis[next][mm] {
                    done = true;
                } else {
                    assert(out[next as int].len() == left[next as int].len());
                    curr = next;
                    slot = mm;
                    fuel_left = fuel_left - 1;
                }
            },
            None => {
                done = true;
            },
        }
    }
    acc
}

/// Reads the faces of a cell from its graph: every edge not yet visited
/// starts a face, which is walked along its label back to its first vertex.
/// A walk that finds no edge to continue with, or whose next edge was
/// already walked, ends where it stands, so that no directed edge is walked
/// twice: the faces hold no more vertices than the graph has edges.
pub fn faces_of(t: &EdgeTopology) -> (r: (Vec<Vec<usize>>, Vec<i32>))
    requires
        t.wf(),
        total_edges(rows_view(t.out@), t.out.len() as int) <= usize::MAX,
    ensures
        (rows_view(r.0@), r.1@) == graph_faces(rows_view(t.out@), rows_view(t.left@)),
        faces_len(rows_view(r.0@)) <= total_edges(rows_view(t.out@), t.out.len() as int),
{
    let ghost out = rows_view(t.out@);
    let ghost left = rows_view(t.left@);
    let n = t.out.len();
    let mut fuel: usize = 0;
    let mut v: usize = 0;
    while v < n
        invariant
            out == rows_view(t.out@),
            n == out.len(),
            v <= n,
            fuel as int == total_edges(out, v as int),
            total_edges(out, n as int) <= usize::MAX,
        decreases n - v,
    {
        proof {
            lemma_total_edges_mono(out, v as int + 1, n as int);
        }
        fuel = fuel + t.out[v].len();
        v = v + 1;
    }
    let mut vis: Vec<Vec<bool>> = Vec::new();
    let mut w: usize = 0;
    while w < n
        invariant
            out == rows_view(t.out@),
            n == out.len(),
            w <= n,
            vis.len() == w,
            forall|x: int| 0 <= x < w ==> #[trigger] rows_view(vis@)[x] == unvisited(out)[x],
        decreases n - w,
    {
        let len = t.out[w].len();
        let mut row: Vec<bool> = Vec::new();
        let mut k: usize = 0;
        while k < len
            invariant
                k <= len,
                row.len() == k,
                forall|i: int| 0 <= i < k ==> row@[i] == false,
            decreases len - k,
        {
            row.push(false);
            k = k + 1;
        }
        let ghost vis0 = vis@;
        vis.push(row);
        proof {
            assert(row@ =~= unvisited(out)[w as int]);
            assert forall|x: int| 0 <= x < w + 1 implies #[trigger] rows_view(vis@)[x] == unvisited(out)[x] by {
                if x < w {
                    assert(vis@[x] == vis0[x]);
                    assert(rows_view(vis0)[x] == unvisited(out)[x]);
                } else {
                    assert(vis@[x]@ == row@);
                }
            }
        }
        w = w + 1;
    }
    proof {
        assert(rows_view(vis@) =~= unvisited(out));
        lemma_marks_none(out, n as int);
    }
    let mut faces: Vec<Vec<usize>> = Vec::new();
    let mut labels: Vec<i32> = Vec::new();
    let mut u: usize = 0;
    while u < n
        invariant
            t.wf(),
            out == rows_view(t.out@),
            left == rows_view(t.left@),
            n == out.len(),
            u <= n,
            vis_shape(rows_view(vis@), out),
            fuel as int == total_edges(out, n as int),
            faces_len(rows_view(faces@)) == marks(rows_view(vis@), n as int),
            (rows_view(faces@), labels@, rows_view(vis@)) == scan(out, left, u as int, 0, fuel as nat),
        decreases n - u,
    {
        let deg = t.out[u].len();
        let mut k: usize = 0;
        while k < deg
            invariant
                t.wf(),
                out == rows_view(t.out@),
                left == rows_view(t.left@),
                n == out.len(),
                u < n,
                deg == out[u as int].len(),
                k <= deg,
                vis_shape(rows_view(vis@), out),
                fuel as int == total_edges(out, n as int),
                faces_len(rows_view(faces@)) == marks(rows_view(vis@), n as int),
                (rows_view(faces@), labels@, rows_view(vis@)) == scan(out, left, u as int, k as int, fuel as nat),
            decreases deg - k,
        {
            assert(rows_view(vis@)[u as int] == vis@[u as int]@);
            if !vis[u][k] {
                let f = t.left[u][k];
                assert(left[u as int][k as int] == f);
                let ghost faces0 = faces@;
                let face = walk_face(t, f, u, k, &mut vis, fuel);
                faces.push(face);
                labels.push(f);
                proof {
                    assert(rows_view(faces@) =~= rows_view(faces0).push(face@));
                    assert(rows_view(faces@).drop_last() == rows_view(faces0));
                }
            }
            k = k + 1;
        }
        u = u + 1;
    }
    proof {
        lemma_marks_bound(rows_view(vis@), out, n as int);
    }
    (faces, labels)
}

proof fn lemma_total_edges_mono(out: Seq<Seq<usize>>, v: int, m: int)
    requires
        0 <= v <= m,
    ensures
        total_edges(out, v) <= total_edges(out, m),
    decreases m,
{
    if m > v {
        lemma_total_edges_mono(out, v, m - 1);
    }
}


/// Edge list of new vertex `v` while the last two passes fill them in: a
/// kept vertex among the first `done_kept` old ones, or the crossing point
/// of one of the first `done_infos` records, has its edges; any other is
/// still bare.
pub open spec fn filled(
    out: Seq<Seq<usize>>,
    left: Seq<Seq<i32>>,
    sides: Seq<Side>,
    verts: Seq<PolyPoint>,
    fcm: Seq<(i32, usize)>,
    infos: Seq<CutInfo>,
    label: i32,
    v: int,
    done_kept: int,
    done_infos: int,
) -> (Seq<usize>, Seq<i32>) {
    match verts[v] {
        PolyPoint::Vertex(j) => if j < done_kept {
            kept_edges(out, left, sides, infos, j as int, out[j as int].len() as int)
        } else {
            (seq![], seq![])
        },
        PolyPoint::Crossing(_, _) => {
            let w = info_of(infos, v as usize, 0);
            if 0 <= w < done_infos {
                lid_edges(fcm, infos[w], label)
            } else {
                (seq![], seq![])
            }
        },
    }
}

/// Clips the graph of a cell by a half-space, given the side of each
/// vertex.
///
/// With no vertex above the plane the cell is untouched; otherwise, with no
/// vertex below it, the cell vanishes. Otherwise the vertices are taken in
/// order: a kept vertex is kept, followed by a new crossing point for each
/// of its edges that leads to a dropped vertex. Every crossing point is
/// recorded on the faces left and right of its edge. A kept vertex keeps
/// its edges to kept vertices and sends each edge to a dropped vertex to
/// the crossing point recorded for it and that edge's left face, which
/// links back. A crossing point links back to its kept vertex with the
/// right face on the left, then to the other crossing point of the right
/// face with the lid `label` on the left, then to the other crossing point
/// of the left face with that face on the left: three edges whenever both
/// faces hold another crossing point, as they do on a convex cell.
pub fn clip_edges(t: &EdgeTopology, sides: &Vec<Side>, label: i32) -> (r: ClipOutcome<EdgesCut>)
    requires
        t.wf(),
        sides.len() == t.out.len(),
    ensures
        match r {
            ClipOutcome::Unchanged => all_kept(sides@),
            ClipOutcome::Emptied => !all_kept(sides@) && none_below(sides@),
            ClipOutcome::Cut(c) => {
                let out = rows_view(t.out@);
                let left = rows_view(t.left@);
                let st = pass_before(out, left, sides@, sides.len() as int);
                &&& !all_kept(sides@)
                &&& !none_below(sides@)
                &&& c.vertices@ == st.0
                &&& c.topology.wf()
                &&& c.topology.out.len() == st.0.len()
                &&& forall|v: int| 0 <= v < st.0.len() ==> (
                    #[trigger] rows_view(c.topology.out@)[v],
                    rows_view(c.topology.left@)[v],
                ) == filled(out, left, sides@, st.0, st.1, st.2, label, v, sides.len() as int, st.2.len() as int)
                &&& forall|v: int, j: usize| 0 <= v < st.0.len() && st.0[v] == PolyPoint::Vertex(j) ==> v == anchor(out, left, sides@, j as int)
                &&& forall|q: int| 0 <= q < st.2.len() ==> info_of(st.2, (#[trigger] st.2[q]).0, 0) == q
                &&& forall|v: int| 0 <= v < st.0.len() && (#[trigger] st.0[v]) is Crossing ==> info_of(st.2, v as usize, 0) >= 0
                &&& forall|q1: int, q2: int|
                    0 <= q1 < st.2.len() && 0 <= q2 < st.2.len() && q1 != q2 && (#[trigger] st.2[q1]).3 == (
                    #[trigger] st.2[q2]).2 && face_holds_only(st.1, st.2[q1].3, st.2[q1].0, st.2[q2].0) ==> {
                        &&& rows_view(c.topology.out@)[st.2[q1].0 as int].len() >= 2
                        &&& rows_view(c.topology.out@)[st.2[q1].0 as int][1] == st.2[q2].0
                        &&& rows_view(c.topology.left@)[st.2[q1].0 as int][1] == label
                        &&& exists|w: int|
                            0 <= w < rows_view(c.topology.out@)[st.2[q2].0 as int].len()
                                && rows_view(c.topology.out@)[st.2[q2].0 as int][w] == st.2[q1].0
                                && rows_view(c.topology.left@)[st.2[q2].0 as int][w] == st.2[q1].3
                    }
                &&& forall|u: int, k: int|
                    0 <= u < out.len() && 0 <= k < out[u].len() && kept(sides@[u]) && !kept(sides@[#[trigger] out[u][k] as int])
                        ==> exists|q: int, w: int|
                        0 <= q < st.2.len() && st.2[q].1 == anchor(out, left, sides@, u) && st.2[q].2 == left[u][k] && 0 <= w
                            < rows_view(c.topology.out@)[anchor(out, left, sides@, u)].len()
                            && rows_view(c.topology.out@)[anchor(out, left, sides@, u)][w] == st.2[q].0
                            && rows_view(c.topology.left@)[anchor(out, left, sides@, u)][w] == left[u][k]
                &&& forall|q: int| 0 <= q < st.2.len() ==> {
                    let p = (#[trigger] st.2[q]).0 as int;
                    &&& rows_view(c.topology.out@)[p][0] == st.2[q].1
                    &&& rows_view(c.topology.left@)[p][0] == st.2[q].3
                    &&& (find_other(st.1, st.2[q].3, st.2[q].0, 0) >= 0 && find_other(st.1, st.2[q].2, st.2[q].0, 0) >= 0)
                        ==> rows_view(c.topology.out@)[p].len() == 3 && rows_view(c.topology.left@)[p] == seq![
                        st.2[q].3,
                        label,
                        st.2[q].2,
                    ]
                }
                &&& forall|u: int, k: int|
                    0 <= u < out.len() && 0 <= k < out[u].len() && kept(sides@[u]) && kept(sides@[#[trigger] out[u][k] as int])
                        ==> rows_view(c.topology.out@)[anchor(out, left, sides@, u)].contains(
                        anchor(out, left, sides@, out[u][k] as int) as usize,
                    )
                &&& edges_paired(out) ==> forall|u: int, k: int|
                    0 <= u < out.len() && 0 <= k < out[u].len() && kept(sides@[u]) && kept(sides@[#[trigger] out[u][k] as int])
                        ==> rows_view(c.topology.out@)[anchor(out, left, sides@, out[u][k] as int)].contains(
                        anchor(out, left, sides@, u) as usize,
                    )
            },
        },
{
    let (all_in, all_out) = classify(sides);
    if all_in {
        return ClipOutcome::Unchanged;
    }
    if all_out {
        return ClipOutcome::Emptied;
    }
    let ghost out = rows_view(t.out@);
    let ghost left = rows_view(t.left@);
    let n = sides.len();
    let (verts, anchors, fcm, infos) = cut_pass(t, sides);
    let nv = verts.len();
    let mut new_out: Vec<Vec<usize>> = Vec::new();
    let mut new_left: Vec<Vec<i32>> = Vec::new();
    let mut v: usize = 0;
    while v < nv
        invariant
            v <= nv,
            new_out.len() == v,
            new_left.len() == v,
            forall|x: int| 0 <= x < v ==> (#[trigger] new_out@[x])@ == Seq::<usize>::empty() && new_left@[x]@ == Seq::<i32>::empty(),
        decreases nv - v,
    {
        new_out.push(Vec::new());
        new_left.push(Vec::new());
        v = v + 1;
    }
    let ghost vs = verts@;
    let mut i: usize = 0;
    while i < n
        invariant
            t.wf(),
            out == rows_view(t.out@),
            left == rows_view(t.left@),
            n == sides.len(),
            n == out.len(),
            anchors.len() == n,
            vs == verts@,
            nv == verts.len(),
            pass_facts(out, left, sides@, verts@, fcm@, infos@, anchors@, n as int),
            i <= n,
            new_out.len() == nv,
            new_left.len() == nv,
            forall|x: int| 0 <= x < nv ==> (#[trigger] rows_view(new_out@)[x], rows_view(new_left@)[x]) == filled(
                out, left, sides@, vs, fcm@, infos@, label, x, i as int, 0),
            forall|x: int| 0 <= x < nv ==> (#[trigger] new_out@[x]).len() == new_left@[x].len(),
            forall|x: int, k: int| 0 <= x < nv && 0 <= k < new_out@[x].len() ==> #[trigger] new_out@[x]@[k] < nv,
        decreases n - i,
    {
        if is_kept(sides[i]) {
            let (eo, el) = kept_edges_exec(t, sides, &verts, &fcm, &infos, &anchors, i);
            let a = anchors[i];
            let ghost o0 = new_out@;
            let ghost l0 = new_left@;
            new_out.set(a, eo);
            new_left.set(a, el);
            proof {
                assert forall|x: int| 0 <= x < nv implies (#[trigger] rows_view(new_out@)[x], rows_view(new_left@)[x]) == filled(
                    out, left, sides@, vs, fcm@, infos@, label, x, i + 1, 0) by {
                    if x != a {
                        assert(new_out@[x] == o0[x]);
                        assert(new_left@[x] == l0[x]);
                        assert(rows_view(o0)[x] == o0[x]@);
                    }
                }
                assert forall|x: int| 0 <= x < nv implies (#[trigger] new_out@[x]).len() == new_left@[x].len() by {
                    if x != a {
                        assert(new_out@[x] == o0[x]);
                    }
                }
                assert forall|x: int, k: int| 0 <= x < nv && 0 <= k < new_out@[x].len() implies #[trigger] new_out@[x]@[k] < nv by {
                    if x != a {
                        assert(new_out@[x] == o0[x]);
                    }
                }
            }
        } else {
            proof {
                assert forall|x: int| 0 <= x < nv implies (#[trigger] rows_view(new_out@)[x], rows_view(new_left@)[x]) == filled(
                    out, left, sides@, vs, fcm@, infos@, label, x, i + 1, 0) by {
                    assert(filled(out, left, sides@, vs, fcm@, infos@, label, x, i as int, 0) == filled(
                        out, left, sides@, vs, fcm@, infos@, label, x, i + 1, 0));
                }
            }
        }
        i = i + 1;
    }
    let mut q: usize = 0;
    while q < infos.len()
        invariant
            vs == verts@,
            nv == verts.len(),
            pass_facts(out, left, sides@, verts@, fcm@, infos@, anchors@, n as int),
            n == sides.len(),
            q <= infos.len(),
            new_out.len() == nv,
            new_left.len() == nv,
            forall|x: int| 0 <= x < nv ==> (#[trigger] rows_view(new_out@)[x], rows_view(new_left@)[x]) == filled(
                out, left, sides@, vs, fcm@, infos@, label, x, n as int, q as int),
            forall|x: int| 0 <= x < nv ==> (#[trigger] new_out@[x]).len() == new_left@[x].len(),
            forall|x: int, k: int| 0 <= x < nv && 0 <= k < new_out@[x].len() ==> #[trigger] new_out@[x]@[k] < nv,
        decreases infos.len() - q,
    {
        let info = infos[q];
        let (eo, el) = lid_edges_exec(&fcm, info, label);
        let p = info.0;
        let ghost o0 = new_out@;
        let ghost l0 = new_left@;
        proof {
            lemma_info_of_own(infos@, q as int, 0);
            assert forall|k: int| 0 <= k < eo.len() implies #[trigger] eo@[k] < nv by {
                lemma_find_other(fcm@, info.3, p, 0);
                lemma_find_other(fcm@, info.2, p, 0);
            }
        }
        new_out.set(p, eo);
        new_left.set(p, el);
        proof {
            assert forall|x: int| 0 <= x < nv implies (#[trigger] rows_view(new_out@)[x], rows_view(new_left@)[x]) == filled(
                out, left, sides@, vs, fcm@, infos@, label, x, n as int, q + 1) by {
                lemma_info_of(infos@, x as usize, 0);
                if x != p {
                    assert(new_out@[x] == o0[x]);
                    assert(new_left@[x] == l0[x]);
                    assert(rows_view(o0)[x] == o0[x]@);
                }
            }
            assert forall|x: int| 0 <= x < nv implies (#[trigger] new_out@[x]).len() == new_left@[x].len() by {
                if x != p {
                    assert(new_out@[x] == o0[x]);
                }
            }
            assert forall|x: int, k: int| 0 <= x < nv && 0 <= k < new_out@[x].len() implies #[trigger] new_out@[x]@[k] < nv by {
                if x != p {
                    assert(new_out@[x] == o0[x]);
                }
            }
        }
        q = q + 1;
    }
    let topology = EdgeTopology { out: new_out, left: new_left };
    proof {
        assert forall|q: int| 0 <= q < infos@.len() implies info_of(infos@, (#[trigger] infos@[q]).0, 0) == q by {
            lemma_info_of_own(infos@, q, 0);
        }
        let ghost st = pass_before(out, left, sides@, n as int);
        assert(st.2 == infos@);
        assert forall|u: int, k: int|
            0 <= u < out.len() && 0 <= k < out[u].len() && kept(sides@[u]) && !kept(sides@[#[trigger] out[u][k] as int])
            implies exists|q: int, w: int|
            0 <= q < st.2.len() && st.2[q].1 == anchor(out, left, sides@, u) && st.2[q].2 == left[u][k] && 0 <= w
                < rows_view(topology.out@)[anchor(out, left, sides@, u)].len()
                && rows_view(topology.out@)[anchor(out, left, sides@, u)][w] == st.2[q].0
                && rows_view(topology.left@)[anchor(out, left, sides@, u)][w] == left[u][k] by {
            let a = anchors@[u] as int;
            assert(vs[a] == PolyPoint::Vertex(u as usize));
            let q0 = choose|q: int| 0 <= q < infos@.len() && infos@[q].1 == anchors@[u] && infos@[q].2 == left[u][k];
            lemma_find_info_found(infos@, anchors@[u], left[u][k], q0, 0);
            lemma_cut_edge_survives(out, left, sides@, infos@, u, k, out[u].len() as int);
            let q = find_info(infos@, anchors@[u], left[u][k], 0);
            let ke = kept_edges(out, left, sides@, infos@, u, out[u].len() as int);
            let w = choose|w: int| 0 <= w < ke.0.len() && ke.0[w] == infos@[q].0 && ke.1[w] == left[u][k];
            assert(infos@[q].1 == anchor(out, left, sides@, u));
            assert(0 <= w < rows_view(topology.out@)[a].len() && rows_view(topology.out@)[a][w] == st.2[q].0
                && rows_view(topology.left@)[a][w] == left[u][k]);
        }
        assert forall|q1: int, q2: int|
            0 <= q1 < st.2.len() && 0 <= q2 < st.2.len() && q1 != q2 && (#[trigger] st.2[q1]).3 == (
            #[trigger] st.2[q2]).2 && face_holds_only(st.1, st.2[q1].3, st.2[q1].0, st.2[q2].0) implies {
                &&& rows_view(topology.out@)[st.2[q1].0 as int].len() >= 2
                &&& rows_view(topology.out@)[st.2[q1].0 as int][1] == st.2[q2].0
                &&& rows_view(topology.left@)[st.2[q1].0 as int][1] == label
                &&& exists|w: int|
                    0 <= w < rows_view(topology.out@)[st.2[q2].0 as int].len()
                        && rows_view(topology.out@)[st.2[q2].0 as int][w] == st.2[q1].0
                        && rows_view(topology.left@)[st.2[q2].0 as int][w] == st.2[q1].3
            } by {
            assert(st.1 == fcm@);
            let i1 = infos@[q1];
            let i2 = infos@[q2];
            let f = i1.3;
            if q1 < q2 {
                assert(i1.0 < i2.0);
            } else {
                assert(i2.0 < i1.0);
            }
            lemma_info_of_own(infos@, q1, 0);
            lemma_info_of_own(infos@, q2, 0);
            assert(vs[i1.0 as int] is Crossing);
            assert(vs[i2.0 as int] is Crossing);
            assert((rows_view(topology.out@)[i1.0 as int], rows_view(topology.left@)[i1.0 as int]) == lid_edges(fcm@, i1, label));
            assert((rows_view(topology.out@)[i2.0 as int], rows_view(topology.left@)[i2.0 as int]) == lid_edges(fcm@, i2, label));
            // face f holds p2 (on its left side) and p1 (on its right side)
            let w2 = choose|m: int| 0 <= m < fcm@.len() && fcm@[m] == (i2.2, i2.0);
            let w1 = choose|m: int| 0 <= m < fcm@.len() && fcm@[m] == (i1.3, i1.0);
            lemma_find_other_is(fcm@, f, i1.0, i2.0, w2, 0);
            assert forall|m: int| 0 <= m < fcm@.len() && (#[trigger] fcm@[m]).0 == f implies fcm@[m].1 == i2.0 || fcm@[m].1 == i1.0 by {}
            lemma_find_other_is(fcm@, f, i2.0, i1.0, w1, 0);
            let lo = lid_edges(fcm@, i2, label);
            let w = lo.0.len() - 1;
            assert(lo.0[w] == i1.0 && lo.1[w] == f);
        }
        assert forall|v: int| 0 <= v < vs.len() && (#[trigger] vs[v]) is Crossing implies info_of(infos@, v as usize, 0) >= 0 by {
            let q = choose|q: int| 0 <= q < infos@.len() && infos@[q].0 == v;
            lemma_info_of_found(infos@, v as usize, q, 0);
        }
        assert forall|q: int| 0 <= q < infos@.len() implies {
            let p = (#[trigger] infos@[q]).0 as int;
            &&& rows_view(topology.out@)[p][0] == infos@[q].1
            &&& rows_view(topology.left@)[p][0] == infos@[q].3
            &&& (find_other(fcm@, infos@[q].3, infos@[q].0, 0) >= 0 && find_other(fcm@, infos@[q].2, infos@[q].0, 0) >= 0)
                ==> rows_view(topology.out@)[p].len() == 3 && rows_view(topology.left@)[p] == seq![
                infos@[q].3,
                label,
                infos@[q].2,
            ]
        } by {
            lemma_info_of_own(infos@, q, 0);
            let p = infos@[q].0 as int;
            assert(vs[p] is Crossing);
            assert((rows_view(topology.out@)[p], rows_view(topology.left@)[p]) == lid_edges(fcm@, infos@[q], label));
        }
        assert forall|x: int| 0 <= x < nv implies (#[trigger] rows_view(topology.out@)[x]).len() == rows_view(topology.left@)[x].len() by {
            assert(rows_view(topology.out@)[x] == topology.out@[x]@);
        }
        assert forall|x: int, k: int| 0 <= x < nv && 0 <= k < rows_view(topology.out@)[x].len() implies #[trigger] rows_view(topology.out@)[x][k] < nv by {
            assert(rows_view(topology.out@)[x] == topology.out@[x]@);
        }
    }
    proof {
        assert forall|u: int, k: int|
            0 <= u < out.len() && 0 <= k < out[u].len() && kept(sides@[u]) && kept(sides@[#[trigger] out[u][k] as int])
            implies rows_view(topology.out@)[anchor(out, left, sides@, u)].contains(
            anchor(out, left, sides@, out[u][k] as int) as usize,
        ) by {
            let a = anchors@[u] as int;
            assert(vs[a] == PolyPoint::Vertex(u as usize));
            lemma_kept_edge_survives(out, left, sides@, infos@, u, k, out[u].len() as int);
        }
        if edges_paired(out) {
            assert forall|u: int, k: int|
                0 <= u < out.len() && 0 <= k < out[u].len() && kept(sides@[u]) && kept(sides@[#[trigger] out[u][k] as int])
                implies rows_view(topology.out@)[anchor(out, left, sides@, out[u][k] as int)].contains(
                anchor(out, left, sides@, u) as usize,
            ) by {
                let v = out[u][k] as int;
                assert(out[v].contains(u as usize));
                let k2 = choose|k2: int| 0 <= k2 < out[v].len() && out[v][k2] == u as usize;
                assert(out[v][k2] as int == u);
                let a = anchors@[v] as int;
                assert(vs[a] == PolyPoint::Vertex(v as usize));
                lemma_kept_edge_survives(out, left, sides@, infos@, v, k2, out[v].len() as int);
            }
        }
    }
    ClipOutcome::Cut(EdgesCut { vertices: verts, topology })
}

proof fn lemma_find_other(fcm: Seq<(i32, usize)>, f: i32, p: usize, m: int)
    requires
        0 <= m,
    ensures
        find_other(fcm, f, p, m) == -1 || (m <= find_other(fcm, f, p, m) < fcm.len()),
    decreases fcm.len() - m,
{
    if m < fcm.len() && !(fcm[m].0 == f && fcm[m].1 != p) {
        lemma_find_other(fcm, f, p, m + 1);
    }
}

} // verus!
