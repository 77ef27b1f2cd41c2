//! Bookkeeping of the uniform grid index: which generators sit in which
//! bin, kept consistent as generators are set and moved. The bin of a
//! point is found by the caller from its coordinates.
use vstd::prelude::*;
use vstd::arithmetic::div_mod::{lemma_fundamental_div_mod, lemma_mod_pos_bound};

verus! {

/// Bins of a uniform grid, each listing generator indices, and the bin of
/// each generator.
#[derive(Debug)]
pub struct GridBins {
    pub bins: Vec<Vec<usize>>,
    pub generator_bin: Vec<usize>,
}

pub open spec fn bins_view(bins: Seq<Vec<usize>>) -> Seq<Seq<usize>> {
    bins.map_values(|b: Vec<usize>| b@)
}

/// The generators among the first `n` whose bin is `b`, in increasing order.
pub open spec fn members(bin_of: Seq<usize>, b: int, n: int) -> Seq<usize>
    decreases n,
{
    if n <= 0 {
        seq![]
    } else {
        members(bin_of, b, n - 1) + if bin_of[n - 1] as int == b {
            seq![(n - 1) as usize]
        } else {
            seq![]
        }
    }
}

/// Each generator lies in exactly one bin, the one `gb` names: every entry
/// of a bin is a generator placed there, no bin lists one twice, and every
/// generator is listed in its bin.
pub open spec fn bins_wf(bv: Seq<Seq<usize>>, gb: Seq<usize>) -> bool {
    &&& forall|i: int| 0 <= i < gb.len() ==> #[trigger] gb[i] < bv.len()
    &&& forall|b: int, k: int|
        0 <= b < bv.len() && 0 <= k < bv[b].len() ==> #[trigger] bv[b][k] < gb.len() && gb[bv[b][k] as int]
            == b
    &&& forall|b: int, k1: int, k2: int|
        0 <= b < bv.len() && 0 <= k1 < bv[b].len() && 0 <= k2 < bv[b].len() && k1 != k2
            ==> #[trigger] bv[b][k1] != #[trigger] bv[b][k2]
    &&& forall|i: int| 0 <= i < gb.len() ==> #[trigger] bv[gb[i] as int].contains(i as usize)
}

/// The entries of `s` other than `x`, in order.
pub open spec fn without(s: Seq<usize>, x: usize) -> Seq<usize>
    decreases s.len(),
{
    if s.len() == 0 {
        seq![]
    } else {
        without(s.drop_last(), x) + if s.last() == x {
            seq![]
        } else {
            seq![s.last()]
        }
    }
}

impl GridBins {
    pub open spec fn wf(&self) -> bool {
        bins_wf(bins_view(self.bins@), self.generator_bin@)
    }

    /// A grid of `num_bins` empty bins holding no generator.
    pub fn new(num_bins: usize) -> (r: GridBins)
        ensures
            r.wf(),
            r.bins.len() == num_bins,
            r.generator_bin.len() == 0,
            forall|b: int| 0 <= b < num_bins ==> (#[trigger] r.bins@[b]).len() == 0,
    {
        let mut bins: Vec<Vec<usize>> = Vec::new();
        let mut b: usize = 0;
        while b < num_bins
            invariant
                b <= num_bins,
                bins.len() == b,
                forall|c: int| 0 <= c < b ==> (#[trigger] bins@[c]).len() == 0,
            decreases num_bins - b,
        {
            bins.push(Vec::new());
            b = b + 1;
        }
        GridBins { bins, generator_bin: Vec::new() }
    }

    pub fn num_bins(&self) -> (r: usize)
        ensures
            r == self.bins.len(),
    {
        self.bins.len()
    }

    pub fn count_generators(&self) -> (r: usize)
        ensures
            r == self.generator_bin.len(),
    {
        self.generator_bin.len()
    }

    /// Replaces every generator: generator `i` goes to bin `bin_of[i]`, and
    /// each bin lists its generators in increasing order.
    pub fn set_generators(&mut self, bin_of: &Vec<usize>)
        requires
            forall|i: int| 0 <= i < bin_of.len() ==> #[trigger] bin_of@[i] < old(self).bins.len(),
        ensures
            final(self).wf(),
            final(self).bins.len() == old(self).bins.len(),
            final(self).generator_bin@ == bin_of@,
            forall|b: int|
                0 <= b < final(self).bins.len() ==> (#[trigger] final(self).bins@[b])@ == members(
                    bin_of@,
                    b,
                    bin_of.len() as int,
                ),
    {
        let nb = self.bins.len();
        let mut b: usize = 0;
        while b < nb
            invariant
                b <= nb,
                self.bins.len() == nb,
                forall|c: int| 0 <= c < b ==> (#[trigger] self.bins@[c])@.len() == 0,
            decreases nb - b,
        {
            self.bins[b].clear();
            b = b + 1;
        }
        self.generator_bin = Vec::new();
        let mut i: usize = 0;
        while i < bin_of.len()
            invariant
                i <= bin_of.len(),
                self.bins.len() == nb,
                forall|j: int| 0 <= j < bin_of.len() ==> #[trigger] bin_of@[j] < nb,
                self.generator_bin@ == bin_of@.subrange(0, i as int),
                forall|c: int| 0 <= c < nb ==> (#[trigger] self.bins@[c])@ == members(bin_of@, c, i as int),
            decreases bin_of.len() - i,
        {
            let bi = bin_of[i];
            let ghost before = self.bins@;
            self.bins[bi].push(i);
            self.generator_bin.push(bi);
            proof {
                assert(bin_of@.subrange(0, i + 1) == bin_of@.subrange(0, i as int).push(bi));
                assert forall|c: int| 0 <= c < nb implies (#[trigger] self.bins@[c])@ == members(
                    bin_of@,
                    c,
                    i + 1,
                ) by {
                    if c != bi {
                        assert(self.bins@[c] == before[c]);
                    }
                }
            }
            i = i + 1;
        }
        proof {
            assert(bin_of@.subrange(0, bin_of.len() as int) == bin_of@);
            lemma_members_wf(bin_of@, nb as int);
            assert(bins_view(self.bins@) =~= Seq::new(
                nb as nat,
                |c: int| members(bin_of@, c, bin_of.len() as int),
            ));
        }
    }

    /// Moves generator `index` to bin `new_bin`. When the bin changes, the
    /// generator is taken out of its old bin by moving that bin's last entry
    /// into its place, and appended to the new bin.
    pub fn update_generator(&mut self, index: usize, new_bin: usize)
        requires
            old(self).wf(),
            index < old(self).generator_bin.len(),
            new_bin < old(self).bins.len(),
        ensures
            final(self).wf(),
            final(self).bins.len() == old(self).bins.len(),
            final(self).generator_bin@ == old(self).generator_bin@.update(index as int, new_bin),
            ({
                let ob = old(self).generator_bin@[index as int] as int;
                let before = bins_view(old(self).bins@);
                let after = bins_view(final(self).bins@);
                if ob == new_bin {
                    after == before
                } else {
                    &&& exists|k: int|
                        0 <= k < before[ob].len() && before[ob][k] == index && after[ob] == before[ob].update(
                            k,
                            before[ob].last(),
                        ).drop_last()
                    &&& after[new_bin as int] == before[new_bin as int].push(index)
                    &&& forall|c: int| 0 <= c < after.len() && c != ob && c != new_bin ==> #[trigger] after[c] == before[c]
                }
            }),
    {
        let ghost before = bins_view(self.bins@);
        let ghost gb0 = self.generator_bin@;
        let ob = self.generator_bin[index];
        if ob == new_bin {
            assert(gb0.update(index as int, new_bin) =~= gb0);
            return;
        }
        assert(before[gb0[index as int] as int].contains((index as int) as usize));
        assert(before[ob as int].contains(index));
        assert(exists|w: int| 0 <= w < before[ob as int].len() && before[ob as int][w] == index);
        let mut k: usize = 0;
        while self.bins[ob][k] != index
            invariant
                ob < self.bins.len(),
                bins_view(self.bins@) == before,
                self.bins@[ob as int]@ == before[ob as int],
                before[ob as int].contains(index),
                k < before[ob as int].len(),
                exists|w: int| k <= w < before[ob as int].len() && before[ob as int][w] == index,
            decreases before[ob as int].len() - k,
        {
            assert(before[ob as int][k as int] != index);
            assert(k < self.bins@[ob as int].len());
            k = k + 1;
        }
        let ghost kk = k as int;
        self.bins[ob].swap_remove(k);
        self.bins[new_bin].push(index);
        self.generator_bin.set(index, new_bin);
        proof {
            let after = bins_view(self.bins@);
            let gb = self.generator_bin@;
            let obi = ob as int;
            let nbi = new_bin as int;
            assert(after.len() == before.len());
            assert forall|c: int| 0 <= c < after.len() && c != obi && c != nbi implies #[trigger] after[c] == before[c] by {}
            assert(after[obi] == before[obi].update(kk, before[obi].last()).drop_last());
            assert(after[nbi] == before[nbi].push(index));
            // index is nowhere but at position kk of its old bin
            assert forall|c: int, m: int| 0 <= c < before.len() && 0 <= m < before[c].len() && before[c][m] == index
                implies c == obi && m == kk by {
                assert(gb0[before[c][m] as int] == c);
                if m != kk {
                    assert(before[obi][m] != before[obi][kk]);
                }
            }
            assert forall|c: int, m: int| 0 <= c < after.len() && 0 <= m < after[c].len() implies #[trigger] after[c][m]
                < gb.len() && gb[after[c][m] as int] == c by {
                if c == obi {
                    if m == kk {
                        assert(after[c][m] == before[obi].last());
                        assert(before[obi][before[obi].len() - 1] == before[obi].last());
                    } else {
                        assert(after[c][m] == before[obi][m]);
                    }
                } else if c == nbi {
                    if m < before[nbi].len() {
                        assert(after[c][m] == before[nbi][m]);
                    }
                } else {
                    assert(after[c][m] == before[c][m]);
                }
            }
            assert forall|c: int, k1: int, k2: int|
                0 <= c < after.len() && 0 <= k1 < after[c].len() && 0 <= k2 < after[c].len() && k1 != k2
                implies #[trigger] after[c][k1] != #[trigger] after[c][k2] by {
                if c == obi {
                    let l = before[obi].len() - 1;
                    let i1 = if k1 == kk { l } else { k1 };
                    let i2 = if k2 == kk { l } else { k2 };
                    assert(after[c][k1] == before[obi][i1]);
                    assert(after[c][k2] == before[obi][i2]);
                } else if c == nbi {
                    if k1 < before[nbi].len() && k2 < before[nbi].len() {
                        assert(after[c][k1] == before[nbi][k1]);
                        assert(after[c][k2] == before[nbi][k2]);
                    } else if k1 < before[nbi].len() {
                        assert(after[c][k1] == before[nbi][k1]);
                    } else {
                        assert(after[c][k2] == before[nbi][k2]);
                    }
                }
            }
            assert forall|i: int| 0 <= i < gb.len() implies #[trigger] after[gb[i] as int].contains(i as usize) by {
                if i == index {
                    assert(after[nbi][before[nbi].len() as int] == index);
                } else {
                    let c = gb0[i] as int;
                    assert(before[c].contains(i as usize));
                    let m = choose|m: int| 0 <= m < before[c].len() && before[c][m] == i as usize;
                    if c == obi {
                        let l = before[obi].len() - 1;
                        if m == l {
                            assert(after[c][kk] == i as usize);
                        } else {
                            assert(m != kk);
                            assert(after[c][m] == i as usize);
                        }
                    } else if c == nbi {
                        assert(after[c][m] == i as usize);
                    } else {
                        assert(after[c][m] == i as usize);
                    }
                }
            }
        }
    }

    /// The generators of bin `b` other than `index`, in bin order: the
    /// candidates a visit of that bin hands out.
    pub fn candidates(&self, b: usize, index: usize) -> (r: Vec<usize>)
        requires
            b < self.bins.len(),
        ensures
            r@ == without(self.bins@[b as int]@, index),
    {
        let bin = &self.bins[b];
        let mut r: Vec<usize> = Vec::new();
        let mut k: usize = 0;
        while k < bin.len()
            invariant
                k <= bin.len(),
                r@ == without(bin@.subrange(0, k as int), index),
            decreases bin.len() - k,
        {
            proof {
                assert(bin@.subrange(0, k + 1).drop_last() == bin@.subrange(0, k as int));
            }
            if bin[k] != index {
                r.push(bin[k]);
            }
            k = k + 1;
        }
        proof {
            assert(bin@.subrange(0, bin.len() as int) == bin@);
        }
        r
    }
}

/// In a consistent grid every generator is listed exactly once, in its own
/// bin: visiting all bins and skipping the query generator hands out every
/// other generator exactly once.
pub proof fn lemma_listed_once(bv: Seq<Seq<usize>>, gb: Seq<usize>, j: usize)
    requires
        bins_wf(bv, gb),
        j < gb.len(),
    ensures
        exists|k: int| 0 <= k < bv[gb[j as int] as int].len() && bv[gb[j as int] as int][k] == j,
        forall|b: int, k: int| 0 <= b < bv.len() && 0 <= k < bv[b].len() && bv[b][k] == j ==> b == gb[j as int],
        forall|k1: int, k2: int|
            0 <= k1 < bv[gb[j as int] as int].len() && 0 <= k2 < bv[gb[j as int] as int].len() && bv[gb[j as int] as int][k1] == j
                && bv[gb[j as int] as int][k2] == j ==> k1 == k2,
{
    assert(bv[gb[j as int] as int].contains((j as int) as usize));
    assert forall|b: int, k: int| 0 <= b < bv.len() && 0 <= k < bv[b].len() && bv[b][k] == j implies b == gb[j as int] by {
        assert(gb[bv[b][k] as int] == b);
    }
}

/// With a single generator, no bin hands out a candidate for it: the
/// search for bisectors of its cell finds none.
pub proof fn lemma_lone_generator_has_no_candidates(bv: Seq<Seq<usize>>, gb: Seq<usize>, b: int)
    requires
        bins_wf(bv, gb),
        gb.len() == 1,
        0 <= b < bv.len(),
    ensures
        without(bv[b], 0) == Seq::<usize>::empty(),
{
    assert forall|k: int| 0 <= k < bv[b].len() implies #[trigger] bv[b][k] == 0 by {
        assert(bv[b][k] < gb.len());
    }
    lemma_without_only(bv[b], 0, bv[b].len() as int);
    assert(bv[b].subrange(0, bv[b].len() as int) == bv[b]);
}

proof fn lemma_without_only(s: Seq<usize>, x: usize, n: int)
    requires
        0 <= n <= s.len(),
        forall|k: int| 0 <= k < s.len() ==> #[trigger] s[k] == x,
    ensures
        without(s.subrange(0, n), x) == Seq::<usize>::empty(),
    decreases n,
{
    if n > 0 {
        lemma_without_only(s, x, n - 1);
        assert(s.subrange(0, n).drop_last() == s.subrange(0, n - 1));
    }
    assert(n == s.len() ==> s.subrange(0, n) == s);
}

proof fn lemma_members(bin_of: Seq<usize>, b: int, n: int)
    requires
        0 <= n <= bin_of.len() <= usize::MAX,
    ensures
        forall|k: int| 0 <= k < members(bin_of, b, n).len() ==> {
            &&& #[trigger] members(bin_of, b, n)[k] < n
            &&& bin_of[members(bin_of, b, n)[k] as int] as int == b
        },
        forall|k1: int, k2: int|
            0 <= k1 < k2 < members(bin_of, b, n).len() ==> #[trigger] members(bin_of, b, n)[k1]
                < #[trigger] members(bin_of, b, n)[k2],
        forall|i: int| 0 <= i < n && bin_of[i] as int == b ==> #[trigger] members(bin_of, b, n).contains(i as usize),
    decreases n,
{
    if n > 0 {
        lemma_members(bin_of, b, n - 1);
        let p = members(bin_of, b, n - 1);
        let q = members(bin_of, b, n);
        assert forall|k: int| 0 <= k < p.len() implies q[k] == p[k] by {}
        assert forall|k: int| 0 <= k < q.len() implies {
            &&& #[trigger] q[k] < n
            &&& bin_of[q[k] as int] as int == b
        } by {
            if k < p.len() {
                assert(q[k] == p[k]);
            }
        }
        assert forall|k1: int, k2: int| 0 <= k1 < k2 < q.len() implies #[trigger] q[k1] < #[trigger] q[k2] by {
            assert(q[k1] == p[k1]);
            if k2 < p.len() {
                assert(q[k2] == p[k2]);
            }
        }
        assert forall|i: int| 0 <= i < n && bin_of[i] as int == b implies #[trigger] q.contains(i as usize) by {
            if i < n - 1 {
                assert(p.contains(i as usize));
                let k = choose|k: int| 0 <= k < p.len() && p[k] == i as usize;
                assert(q[k] == i as usize);
            } else {
                assert(q[p.len() as int] == i as usize);
            }
        }
    }
}

proof fn lemma_members_wf(bin_of: Seq<usize>, nb: int)
    requires
        bin_of.len() <= usize::MAX,
        forall|j: int| 0 <= j < bin_of.len() ==> #[trigger] bin_of[j] < nb,
    ensures
        bins_wf(Seq::new(nb as nat, |c: int| members(bin_of, c, bin_of.len() as int)), bin_of),
{
    let n = bin_of.len() as int;
    let bv = Seq::new(nb as nat, |c: int| members(bin_of, c, n));
    assert forall|c: int| 0 <= c < nb implies #[trigger] bv[c] == members(bin_of, c, n) by {
        lemma_members(bin_of, c, n);
    }
    assert forall|b: int, k: int| 0 <= b < bv.len() && 0 <= k < bv[b].len() implies #[trigger] bv[b][k]
        < bin_of.len() && bin_of[bv[b][k] as int] == b by {
        lemma_members(bin_of, b, n);
    }
    assert forall|b: int, k1: int, k2: int|
        0 <= b < bv.len() && 0 <= k1 < bv[b].len() && 0 <= k2 < bv[b].len() && k1 != k2 implies #[trigger] bv[b][k1]
        != #[trigger] bv[b][k2] by {
        lemma_members(bin_of, b, n);
        if k1 < k2 {
            assert(bv[b][k1] < bv[b][k2]);
        } else {
            assert(bv[b][k2] < bv[b][k1]);
        }
    }
    assert forall|i: int| 0 <= i < bin_of.len() implies #[trigger] bv[bin_of[i] as int].contains(i as usize) by {
        lemma_members(bin_of, bin_of[i] as int, n);
    }
}


/// Linear index of the bin at column `ix`, row `iy`, layer `iz` of a grid
/// with `nx` columns and `ny` rows.
pub open spec fn bin_index_spec(ix: int, iy: int, iz: int, nx: int, ny: int) -> int {
    ix + iy * nx + iz * (nx * ny)
}

/// Linear index of a bin from its coordinates.
pub fn bin_index(ix: usize, iy: usize, iz: usize, nx: usize, ny: usize, nz: usize) -> (r: usize)
    requires
        ix < nx,
        iy < ny,
        iz < nz,
        nx * ny * nz <= usize::MAX,
    ensures
        r as int == bin_index_spec(ix as int, iy as int, iz as int, nx as int, ny as int),
        r < nx * ny * nz,
{
    assert(ix + iy * nx + iz * (nx * ny) < nx * ny * nz) by (nonlinear_arith)
        requires
            ix < nx,
            iy < ny,
            iz < nz,
    {
        assert(ix + iy * nx < nx * (iy + 1));
        assert(nx * (iy + 1) <= nx * ny);
        assert(iz * (nx * ny) + nx * ny <= nz * (nx * ny));
    }
    assert(nx * ny <= nx * ny * nz) by (nonlinear_arith)
        requires
            iz < nz,
    {}
    assert(iy * nx <= nx * ny) by (nonlinear_arith)
        requires
            iy < ny,
    {}
    assert(iz * (nx * ny) <= nx * ny * nz) by (nonlinear_arith)
        requires
            iz < nz,
    {}
    ix + iy * nx + iz * (nx * ny)
}

/// Coordinates of a bin from its linear index.
pub fn bin_coords(bin: usize, nx: usize, ny: usize, nz: usize) -> (r: (usize, usize, usize))
    requires
        bin < nx * ny * nz,
        nx * ny * nz <= usize::MAX,
    ensures
        r.0 < nx,
        r.1 < ny,
        r.2 < nz,
        bin_index_spec(r.0 as int, r.1 as int, r.2 as int, nx as int, ny as int) == bin,
{
    assert(nx > 0 && ny > 0 && nz > 0) by (nonlinear_arith)
        requires
            bin < nx * ny * nz,
    {}
    assert(nx * ny <= nx * ny * nz) by (nonlinear_arith)
        requires
            nz > 0,
    {}
    assert(nx * ny > 0) by (nonlinear_arith)
        requires
            nx > 0,
            ny > 0,
    {}
    let layer = nx * ny;
    let iz = bin / layer;
    let rem = bin % layer;
    let iy = rem / nx;
    let ix = rem % nx;
    proof {
        lemma_fundamental_div_mod(bin as int, layer as int);
        lemma_mod_pos_bound(bin as int, layer as int);
        lemma_fundamental_div_mod(rem as int, nx as int);
        lemma_mod_pos_bound(rem as int, nx as int);
        assert(iy < ny) by (nonlinear_arith)
            requires
                rem < nx * ny,
                rem == nx * iy + ix,
                0 <= ix,
                nx > 0,
        {}
        assert(iz < nz) by (nonlinear_arith)
            requires
                bin < nx * ny * nz,
                bin == layer * iz + rem,
                layer == nx * ny,
                0 <= rem,
                layer > 0,
        {}
        assert(ix + iy * nx + iz * (nx * ny) == bin) by (nonlinear_arith)
            requires
                bin == layer * iz + rem,
                layer == nx * ny,
                rem == nx * iy + ix,
        {}
    }
    (ix, iy, iz)
}

/// The bin at offset `(dx, dy, dz)` from the bin at `(ix, iy, iz)`, when it
/// lies inside the grid.
pub fn neighbor_bin(
    ix: usize,
    iy: usize,
    iz: usize,
    dx: isize,
    dy: isize,
    dz: isize,
    nx: usize,
    ny: usize,
    nz: usize,
) -> (r: Option<usize>)
    requires
        ix < nx,
        iy < ny,
        iz < nz,
        nx * ny * nz <= usize::MAX,
    ensures
        ({
            let bx = ix + dx;
            let by = iy + dy;
            let bz = iz + dz;
            if 0 <= bx < nx && 0 <= by < ny && 0 <= bz < nz {
                r == Some(bin_index_spec(bx, by, bz, nx as int, ny as int) as usize)
            } else {
                r is None
            }
        }),
{
    match (shift(ix, dx, nx), shift(iy, dy, ny), shift(iz, dz, nz)) {
        (Some(bx), Some(by), Some(bz)) => Some(bin_index(bx, by, bz, nx, ny, nz)),
        _ => None,
    }
}

/// `i + d` when it lies in `0..n`.
fn shift(i: usize, d: isize, n: usize) -> (r: Option<usize>)
    requires
        i < n,
    ensures
        if 0 <= i + d < n {
            r == Some((i + d) as usize)
        } else {
            r is None
        },
{
    if d >= 0 {
        let step = d as usize;
        if step < n - i {
            Some(i + step)
        } else {
            None
        }
    } else {
        let step = (-(d + 1)) as usize + 1;
        if step <= i {
            Some(i - step)
        } else {
            None
        }
    }
}

/// Whole bins that lie strictly between a bin and the one `d` steps away
/// along one axis.
pub fn axis_gap(d: isize) -> (r: usize)
    ensures
        r as int == if d > 0 {
            d - 1
        } else if d < 0 {
            -d - 1
        } else {
            0
        },
{
    if d > 0 {
        (d - 1) as usize
    } else if d < 0 {
        (-(d + 1)) as usize
    } else {
        0
    }
}


/// The offsets `(x, y, z)` of one row: `x` from `-rx` to `rx`.
pub open spec fn offset_row(rx: int, y: int, z: int, n: int) -> Seq<(isize, isize, isize)> {
    Seq::new(n as nat, |i: int| ((i - rx) as isize, y as isize, z as isize))
}

/// The first `n` rows of the layer at height `z`, `y` from `-ry` upwards.
pub open spec fn offset_layer(rx: int, ry: int, z: int, n: int) -> Seq<(isize, isize, isize)>
    decreases n,
{
    if n <= 0 {
        seq![]
    } else {
        offset_layer(rx, ry, z, n - 1) + offset_row(rx, n - 1 - ry, z, 2 * rx + 1)
    }
}

/// The first `n` layers of the block of offsets, `z` from `-rz` upwards.
pub open spec fn offset_block(rx: int, ry: int, rz: int, n: int) -> Seq<(isize, isize, isize)>
    decreases n,
{
    if n <= 0 {
        seq![]
    } else {
        offset_block(rx, ry, rz, n - 1) + offset_layer(rx, ry, n - 1 - rz, 2 * ry + 1)
    }
}

/// Every offset of a search that may cover the whole grid: `(x, y, z)`
/// with `|x| <= rx`, `|y| <= ry`, `|z| <= rz`, `z` slowest and `x`
/// fastest. The caller orders them by distance.
pub fn search_offsets(rx: usize, ry: usize, rz: usize) -> (r: Vec<(isize, isize, isize)>)
    requires
        2 * rx + 1 <= isize::MAX,
        2 * ry + 1 <= isize::MAX,
        2 * rz + 1 <= isize::MAX,
    ensures
        r@ == offset_block(rx as int, ry as int, rz as int, 2 * rz + 1),
{
    let mut r: Vec<(isize, isize, isize)> = Vec::new();
    let nz = 2 * rz + 1;
    let ny = 2 * ry + 1;
    let nx = 2 * rx + 1;
    let mut k: usize = 0;
    while k < nz
        invariant
            nz == 2 * rz + 1,
            ny == 2 * ry + 1,
            nx == 2 * rx + 1,
            nx <= isize::MAX,
            ny <= isize::MAX,
            nz <= isize::MAX,
            k <= nz,
            r@ == offset_block(rx as int, ry as int, rz as int, k as int),
        decreases nz - k,
    {
        let z = k as isize - rz as isize;
        let ghost base = r@;
        let mut j: usize = 0;
        while j < ny
            invariant
                nz == 2 * rz + 1,
                ny == 2 * ry + 1,
                nx == 2 * rx + 1,
                nx <= isize::MAX,
                ny <= isize::MAX,
                k < nz,
                z == k - rz,
                j <= ny,
                r@ == base + offset_layer(rx as int, ry as int, z as int, j as int),
            decreases ny - j,
        {
            let y = j as isize - ry as isize;
            let ghost before = r@;
            let mut i: usize = 0;
            while i < nx
                invariant
                    nx == 2 * rx + 1,
                    nx <= isize::MAX,
                    i <= nx,
                    y == j - ry,
                    r@ == before + offset_row(rx as int, y as int, z as int, i as int),
                decreases nx - i,
            {
                r.push((i as isize - rx as isize, y, z));
                proof {
                    assert(offset_row(rx as int, y as int, z as int, i + 1) =~= offset_row(
                        rx as int,
                        y as int,
                        z as int,
                        i as int,
                    ).push(((i - rx) as isize, y, z)));
                }
                i = i + 1;
            }
            proof {
                assert(base + offset_layer(rx as int, ry as int, z as int, j + 1) =~= base + offset_layer(
                    rx as int,
                    ry as int,
                    z as int,
                    j as int,
                ) + offset_row(rx as int, y as int, z as int, nx as int));
            }
            j = j + 1;
        }
        proof {
            assert(offset_block(rx as int, ry as int, rz as int, k + 1) =~= base + offset_layer(
                rx as int,
                ry as int,
                z as int,
                ny as int,
            ));
        }
        k = k + 1;
    }
    r
}

} // verus!
