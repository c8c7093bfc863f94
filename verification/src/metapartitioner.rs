//! The partition evaluator, the deterministic weight-balancing heuristic
//! partitioner, and the orchestration that chooses among partitioning
//! backends. Only the heuristic partitioner is linked into this library;
//! native engines are external collaborators reached by a caller, whose
//! raw results the mirroring correction here normalizes.

use vstd::prelude::*;

use crate::errors::ErrorKind;
use crate::hypergraph::HyperGraph;

verus! {

/// The selectable partitioning backends.
#[derive(Copy, Clone)]
pub enum Partitioner {
    /// hMetis.
    H,
    /// METIS.
    M,
    /// KaHyPar.
    K,
    /// mt-KaHyPar.
    MT,
    /// The built-in weight-balancing heuristic.
    D,
    /// Try several backends and keep the best.
    X,
}

/// The optimization objective a backend is asked to minimize.
#[derive(Copy, Clone)]
pub enum Objective {
    /// Minimum cut.
    C,
    /// Minimum sum of external degrees.
    D,
    /// Connectivity minus one.
    K,
}

/// Configuration for a partitioning run.
#[derive(Copy, Clone)]
pub struct Metapartitioner {
    /// Number of independent starts a backend should try.
    pub num_starts: usize,
    /// Number of bins to split into.
    pub k: usize,
    /// The backend to dispatch to.
    pub partitioner_type: Partitioner,
    /// The objective to minimize.
    pub objective: Objective,
    /// Seed handed to randomized backends.
    pub seed: u64,
    /// Allowed imbalance, in parts per million of perfect balance.
    pub imbalance_ppm: u32,
}

/// Total weight of the first `n` vertices.
pub open spec fn wsum(w: Seq<i32>, n: int) -> int
    decreases n,
{
    if n <= 0 {
        0
    } else {
        wsum(w, n - 1) + w[n - 1]
    }
}

/// Total weight of the first `n` vertices assigned to bin `b`.
pub open spec fn bin_wsum(w: Seq<i32>, p: Seq<i32>, n: int, b: int) -> int
    decreases n,
{
    if n <= 0 {
        0
    } else {
        bin_wsum(w, p, n - 1, b) + if p[n - 1] == b {
            w[n - 1]
        } else {
            0
        }
    }
}

/// Total weight of the first `k` bins.
pub open spec fn sum_bins(w: Seq<i32>, p: Seq<i32>, n: int, k: int) -> int
    decreases k,
{
    if k <= 0 {
        0
    } else {
        sum_bins(w, p, n, k - 1) + bin_wsum(w, p, n, k - 1)
    }
}

pub proof fn lemma_bin_wsum_bounds(w: Seq<i32>, p: Seq<i32>, n: int, b: int)
    requires
        0 <= n <= w.len(),
        forall|i: int| 0 <= i < w.len() ==> 0 <= #[trigger] w[i],
    ensures
        0 <= bin_wsum(w, p, n, b) <= wsum(w, n),
    decreases n,
{
    if n > 0 {
        lemma_bin_wsum_bounds(w, p, n - 1, b);
    }
}

pub proof fn lemma_wsum_mono(w: Seq<i32>, n: int, m: int)
    requires
        0 <= n <= m <= w.len(),
        forall|i: int| 0 <= i < w.len() ==> 0 <= #[trigger] w[i],
    ensures
        wsum(w, n) <= wsum(w, m),
    decreases m,
{
    if n < m {
        lemma_wsum_mono(w, n, m - 1);
    }
}

/// Two bins never hold more together than the total placed weight.
pub proof fn lemma_two_bins_bound(w: Seq<i32>, p: Seq<i32>, n: int)
    requires
        0 <= n <= w.len(),
        forall|i: int| 0 <= i < w.len() ==> 0 <= #[trigger] w[i],
    ensures
        bin_wsum(w, p, n, 0) + bin_wsum(w, p, n, 1) <= wsum(w, n),
    decreases n,
{
    if n > 0 {
        lemma_two_bins_bound(w, p, n - 1);
    }
}

/// Reassigning one unassigned vertex moves exactly its weight into the
/// chosen bin's total.
pub proof fn lemma_bin_wsum_update(w: Seq<i32>, p: Seq<i32>, n: int, b: int, v: int, nb: i32)
    requires
        0 <= v < n <= w.len(),
        n <= p.len(),
        p[v] != nb,
    ensures
        bin_wsum(w, p.update(v, nb), n, b) == bin_wsum(w, p, n, b)
            + (if nb == b { w[v] } else { 0 })
            - (if p[v] == b { w[v] } else { 0 }),
    decreases n,
{
    let p2 = p.update(v, nb);
    if v == n - 1 {
        assert(bin_wsum(w, p2, n - 1, b) == bin_wsum(w, p, n - 1, b)) by {
            lemma_bin_wsum_same(w, p, p2, n - 1, b);
        }
    } else {
        lemma_bin_wsum_update(w, p, n - 1, b, v, nb);
        assert(p2[n - 1] == p[n - 1]);
    }
}

/// Bin totals depend only on the entries the prefix covers.
pub proof fn lemma_bin_wsum_same(w: Seq<i32>, p1: Seq<i32>, p2: Seq<i32>, n: int, b: int)
    requires
        forall|i: int| 0 <= i < n ==> #[trigger] p1[i] == p2[i],
    ensures
        bin_wsum(w, p1, n, b) == bin_wsum(w, p2, n, b),
    decreases n,
{
    if n > 0 {
        lemma_bin_wsum_same(w, p1, p2, n - 1, b);
    }
}

proof fn lemma_sum_bins_step(w: Seq<i32>, p: Seq<i32>, n: int, k: int)
    requires
        n >= 1,
    ensures
        sum_bins(w, p, n, k) == sum_bins(w, p, n - 1, k)
            + if 0 <= p[n - 1] < k { w[n - 1] as int } else { 0 },
    decreases k,
{
    if k > 0 {
        lemma_sum_bins_step(w, p, n, k - 1);
    }
}

/// The evaluator's bin totals are additive: over any full assignment
/// into `k` bins, the bins together weigh exactly the vertices' total.
pub proof fn lemma_evaluator_additivity(w: Seq<i32>, p: Seq<i32>, k: int)
    requires
        p.len() == w.len(),
        forall|i: int| 0 <= i < p.len() ==> 0 <= #[trigger] p[i] < k,
    ensures
        sum_bins(w, p, w.len() as int, k) == wsum(w, w.len() as int),
{
    lemma_evaluator_additivity_n(w, p, k, w.len() as int);
}

proof fn lemma_evaluator_additivity_n(w: Seq<i32>, p: Seq<i32>, k: int, n: int)
    requires
        p.len() == w.len(),
        0 <= n <= w.len(),
        forall|i: int| 0 <= i < p.len() ==> 0 <= #[trigger] p[i] < k,
    ensures
        sum_bins(w, p, n, k) == wsum(w, n),
    decreases n,
{
    if n == 0 {
        lemma_sum_bins_zero(w, p, k);
    } else {
        lemma_evaluator_additivity_n(w, p, k, n - 1);
        lemma_sum_bins_step(w, p, n, k);
    }
}

proof fn lemma_sum_bins_zero(w: Seq<i32>, p: Seq<i32>, k: int)
    ensures
        sum_bins(w, p, 0, k) == 0,
    decreases k,
{
    if k > 0 {
        lemma_sum_bins_zero(w, p, k - 1);
    }
}

/// Whether hyperedge `e`'s members span more than one bin under `p`.
pub open spec fn edge_cut(g: HyperGraph, p: Seq<i32>, e: int) -> bool {
    exists|i: int, j: int| g.eind@[e] as int <= i < g.eind@[e + 1] as int
        && g.eind@[e] as int <= j < g.eind@[e + 1] as int
        && #[trigger] p[g.eptr@[i] as int] != #[trigger] p[g.eptr@[j] as int]
}

/// Total weight of the cut hyperedges among the first `n`.
pub open spec fn cut_spec(g: HyperGraph, p: Seq<i32>, n: int) -> int
    decreases n,
{
    if n <= 0 {
        0
    } else {
        cut_spec(g, p, n - 1) + if edge_cut(g, p, n - 1) {
            g.hewt@[n - 1] as int
        } else {
            0
        }
    }
}

/// Total hyperedge weight of the first `n` hyperedges.
pub open spec fn hsum(hw: Seq<i32>, n: int) -> int
    decreases n,
{
    if n <= 0 {
        0
    } else {
        hsum(hw, n - 1) + hw[n - 1]
    }
}

pub proof fn lemma_cut_spec_bounds(g: HyperGraph, p: Seq<i32>, n: int)
    requires
        0 <= n <= g.hewt@.len(),
        forall|e: int| 0 <= e < g.hewt@.len() ==> 0 <= #[trigger] g.hewt@[e],
    ensures
        0 <= cut_spec(g, p, n) <= hsum(g.hewt@, n),
    decreases n,
{
    if n > 0 {
        lemma_cut_spec_bounds(g, p, n - 1);
    }
}

pub proof fn lemma_hsum_mono(hw: Seq<i32>, n: int, m: int)
    requires
        0 <= n <= m <= hw.len(),
        forall|i: int| 0 <= i < hw.len() ==> 0 <= #[trigger] hw[i],
    ensures
        hsum(hw, n) <= hsum(hw, m),
    decreases m,
{
    if n < m {
        lemma_hsum_mono(hw, n, m - 1);
    }
}

/// The weight conditions under which the evaluator and the heuristic
/// partitioner stay inside machine arithmetic: weights are non-negative
/// and their totals fit an `i32`.
pub open spec fn weights_ok(g: HyperGraph) -> bool {
    &&& forall|i: int| 0 <= i < g.vtxwt@.len() ==> 0 <= #[trigger] g.vtxwt@[i]
    &&& wsum(g.vtxwt@, g.vtxwt@.len() as int) <= i32::MAX
    &&& forall|e: int| 0 <= e < g.hewt@.len() ==> 0 <= #[trigger] g.hewt@[e]
    &&& hsum(g.hewt@, g.hewt@.len() as int) <= i32::MAX
}

impl Metapartitioner {
    /// A default configuration: one start, a two-way split, the KaHyPar
    /// backend preferred, minimum cut, a fixed seed, one percent slack.
    pub fn new() -> (mp: Metapartitioner)
        ensures
            mp.num_starts == 1,
            mp.k == 2,
            mp.partitioner_type is K,
            mp.objective is C,
            mp.seed == 8675309,
            mp.imbalance_ppm == 10000,
    {
        Metapartitioner {
            num_starts: 1,
            k: 2,
            partitioner_type: Partitioner::K,
            objective: Objective::C,
            seed: 8675309,
            imbalance_ppm: 10000,
        }
    }

    /// Whether the named backend is linked into this library. Only the
    /// built-in heuristic is; the native engines live outside it.
    pub fn available(partitioner: &Partitioner) -> (r: bool)
        ensures
            r <==> partitioner is D,
    {
        match partitioner {
            Partitioner::D => true,
            _ => false,
        }
    }

    /// A readable name for the backend.
    pub fn name(partitioner: &Partitioner) -> (r: &'static str)
        ensures
            partitioner is K ==> r@ == "KaHyPar"@,
            partitioner is MT ==> r@ == "mt-KaHyPar"@,
            partitioner is H ==> r@ == "hMetis"@,
            partitioner is D ==> r@ == "dumb"@,
            partitioner is M || partitioner is X ==> r@ == "Unknown"@,
    {
        match partitioner {
            Partitioner::K => "KaHyPar",
            Partitioner::MT => "mt-KaHyPar",
            Partitioner::H => "hMetis",
            Partitioner::D => "dumb",
            _ => "Unknown",
        }
    }

    /// Scores a candidate assignment: per-bin weight totals, and the sum
    /// of the weights of the hyperedges whose members span more than one
    /// bin.
    pub fn evaluate(&self, hg: &HyperGraph, part: &Vec<i32>) -> (r: (Vec<i32>, usize))
        requires
            hg.wf(),
            weights_ok(*hg),
            part@.len() == hg.num_vertices(),
            self.k >= 1,
            forall|i: int| 0 <= i < part@.len() ==> 0 <= #[trigger] part@[i] < self.k,
        ensures
            r.0@.len() == self.k,
            forall|b: int| 0 <= b < self.k
                ==> #[trigger] r.0@[b] == bin_wsum(hg.vtxwt@, part@, hg.num_vertices(), b),
            r.1 == cut_spec(*hg, part@, hg.num_edges()),
    {
        let ghost g = *hg;
        let nv = hg.vtxwt.len();
        let k = self.k;
        let mut bins: Vec<i32> = Vec::new();
        let mut b0: usize = 0;
        while b0 < k
            invariant
                b0 <= k,
                bins@.len() == b0 as int,
                forall|b: int| 0 <= b < b0 as int ==> #[trigger] bins@[b] == 0,
            decreases k - b0,
        {
            bins.push(0);
            b0 = b0 + 1;
        }
        let mut i: usize = 0;
        while i < nv
            invariant
                i <= nv,
                g == *hg,
                g.wf(),
                weights_ok(g),
                nv as int == g.num_vertices(),
                part@.len() == nv as int,
                k == self.k,
                k >= 1,
                forall|ii: int| 0 <= ii < part@.len() ==> 0 <= #[trigger] part@[ii] < k,
                bins@.len() == k as int,
                forall|b: int| 0 <= b < k as int
                    ==> #[trigger] bins@[b] == bin_wsum(g.vtxwt@, part@, i as int, b),
            decreases nv - i,
        {
            let b = part[i] as usize;
            let w = hg.vtxwt[i];
            proof {
                lemma_bin_wsum_bounds(g.vtxwt@, part@, i as int, b as int);
                lemma_wsum_mono(g.vtxwt@, i as int, nv as int);
                lemma_wsum_mono(g.vtxwt@, i as int + 1, nv as int);
            }
            let cur = bins[b];
            bins.set(b, cur + w);
            proof {
                assert forall|bb: int| 0 <= bb < k as int
                    implies #[trigger] bins@[bb]
                        == bin_wsum(g.vtxwt@, part@, i as int + 1, bb) by {
                    assert(bin_wsum(g.vtxwt@, part@, i as int + 1, bb)
                        == bin_wsum(g.vtxwt@, part@, i as int, bb)
                            + if part@[i as int] == bb { g.vtxwt@[i as int] } else { 0 });
                }
            }
            i = i + 1;
        }

        let ne = if hg.eind.len() == 0 {
            0
        } else {
            hg.eind.len() - 1
        };
        let total = hg.eptr.len();
        let mut cut: i32 = 0;
        let mut e: usize = 0;
        while e < ne
            invariant
                e <= ne,
                g == *hg,
                g.wf(),
                weights_ok(g),
                nv as int == g.num_vertices(),
                ne as int == g.num_edges(),
                total as int == g.eptr@.len(),
                part@.len() == nv as int,
                cut as int == cut_spec(g, part@, e as int),
                0 <= cut as int <= hsum(g.hewt@, e as int),
            decreases ne - e,
        {
            proof {
                assert(g.eind@[e as int] <= g.eind@[e as int + 1]);
                assert(g.eind@.last() == g.eind@[g.eind@.len() - 1]);
                assert(g.eind@[e as int + 1] <= g.eind@[g.eind@.len() - 1]);
            }
            let start = hg.eind[e] as usize;
            let end = hg.eind[e + 1] as usize;
            let mut is_cut = false;
            if start < end {
                let first = part[hg.eptr[start] as usize];
                let mut m: usize = start + 1;
                while m < end
                    invariant
                        g == *hg,
                        g.wf(),
                        part@.len() == g.num_vertices(),
                        (e as int) < g.num_edges(),
                        start as int == g.eind@[e as int] as int,
                        end as int == g.eind@[e as int + 1] as int,
                        start < end,
                        start < m <= end,
                        end <= g.eptr@.len(),
                        first == part@[g.eptr@[start as int] as int],
                        is_cut <==> exists|x: int| start as int <= x < m as int
                            && #[trigger] part@[g.eptr@[x] as int]
                                != part@[g.eptr@[start as int] as int],
                    decreases end - m,
                {
                    if part[hg.eptr[m] as usize] != first {
                        is_cut = true;
                        proof {
                            assert(part@[g.eptr@[m as int] as int]
                                != part@[g.eptr@[start as int] as int]);
                        }
                    }
                    m = m + 1;
                }
            }
            proof {
                if is_cut {
                    let x = choose|x: int| start as int <= x < end as int
                        && #[trigger] part@[g.eptr@[x] as int]
                            != part@[g.eptr@[start as int] as int];
                    assert(edge_cut(g, part@, e as int)) by {
                        assert(g.eind@[e as int] as int <= x < g.eind@[e as int + 1] as int
                            && g.eind@[e as int] as int <= start as int
                            && (start as int) < g.eind@[e as int + 1] as int
                            && part@[g.eptr@[x] as int] != part@[g.eptr@[start as int] as int]);
                    };
                } else {
                    assert(!edge_cut(g, part@, e as int)) by {
                        if edge_cut(g, part@, e as int) {
                            let (x, y) = choose|x: int, y: int|
                                g.eind@[e as int] as int <= x < g.eind@[e as int + 1] as int
                                && g.eind@[e as int] as int <= y < g.eind@[e as int + 1] as int
                                && #[trigger] part@[g.eptr@[x] as int]
                                    != #[trigger] part@[g.eptr@[y] as int];
                            assert(start < end);
                            assert(part@[g.eptr@[x] as int]
                                == part@[g.eptr@[start as int] as int]);
                            assert(part@[g.eptr@[y] as int]
                                == part@[g.eptr@[start as int] as int]);
                        }
                    };
                }
                lemma_cut_spec_bounds(g, part@, e as int);
                lemma_hsum_mono(g.hewt@, e as int, ne as int);
                lemma_hsum_mono(g.hewt@, e as int + 1, ne as int);
            }
            if is_cut {
                cut = cut + hg.hewt[e];
            }
            e = e + 1;
        }
        proof {
            assert(cut >= 0);
        }
        (bins, cut as usize)
    }

    /// The deterministic weight-balancing heuristic for a two-way split.
    /// Fixed vertices keep their bins and pre-credit their weight; free
    /// vertices are taken by descending weight and each goes to the bin
    /// currently holding less total weight, ties favoring bin 0. Fails
    /// when `k` is not two or some fixed value lies outside the bins.
    pub fn partition_dumb(&self, hg: &HyperGraph) -> (r: Result<(Vec<i32>, Vec<i32>, usize), ErrorKind>)
        requires
            hg.wf(),
            weights_ok(*hg),
        ensures
            match r {
                Result::Ok(t) => self.k == 2
                    && (forall|i: int| 0 <= i < hg.part@.len()
                        ==> -1 <= #[trigger] hg.part@[i] < 2)
                    && dumb_partition_ok(*hg, t.0@, t.1@, t.2 as int),
                Result::Err(e) => e == ErrorKind::PreconditionViolation
                    && (self.k != 2 || exists|i: int| 0 <= i < hg.part@.len()
                        && !(-1 <= #[trigger] hg.part@[i] < 2)),
            },
    {
        let ghost g = *hg;
        if self.k != 2 {
            return Result::Err(ErrorKind::PreconditionViolation);
        }
        let nv = hg.vtxwt.len();
        let ghost mw = max_weight(g.vtxwt@, nv as int);
        proof {
            lemma_max_weight(g.vtxwt@, nv as int);
        }
        let mut part: Vec<i32> = Vec::new();
        let mut verts: Vec<(i32, usize)> = Vec::new();
        let mut bin0: i32 = 0;
        let mut bin1: i32 = 0;
        let mut i: usize = 0;
        while i < nv
            invariant
                i <= nv,
                g == *hg,
                g.wf(),
                weights_ok(g),
                nv as int == g.num_vertices(),
                part@.len() == i as int,
                forall|j: int| 0 <= j < i as int ==> #[trigger] part@[j] == g.part@[j],
                forall|j: int| 0 <= j < i as int ==> -1 <= #[trigger] g.part@[j] < 2,
                bin0 as int == bin_wsum(g.vtxwt@, g.part@, i as int, 0),
                bin1 as int == bin_wsum(g.vtxwt@, g.part@, i as int, 1),
                forall|jj: int| 0 <= jj < verts@.len()
                    ==> (#[trigger] verts@[jj].1 as int) < i as int
                        && verts@[jj].0 == g.vtxwt@[verts@[jj].1 as int]
                        && g.part@[verts@[jj].1 as int] == -1,
                forall|a: int, b: int| 0 <= a < b < verts@.len()
                    ==> #[trigger] verts@[a].1 != #[trigger] verts@[b].1,
                forall|v: int| 0 <= v < i as int && #[trigger] g.part@[v] == -1
                    ==> exists|jj: int| 0 <= jj < verts@.len()
                        && #[trigger] verts@[jj].1 as int == v,
            decreases nv - i,
        {
            let pv = hg.part[i];
            proof {
                lemma_bin_wsum_bounds(g.vtxwt@, g.part@, i as int, 0);
                lemma_bin_wsum_bounds(g.vtxwt@, g.part@, i as int, 1);
                lemma_wsum_mono(g.vtxwt@, i as int, nv as int);
                lemma_wsum_mono(g.vtxwt@, i as int + 1, nv as int);
            }
            if pv == -1 {
                let ghost vb = verts@;
                verts.push((hg.vtxwt[i], i));
                part.push(-1);
                proof {
                    assert forall|v: int| 0 <= v < i as int + 1 && #[trigger] g.part@[v] == -1
                        implies exists|jj: int| 0 <= jj < verts@.len()
                            && #[trigger] verts@[jj].1 as int == v by {
                        if v < i as int {
                            let jj = choose|jj: int| 0 <= jj < vb.len()
                                && #[trigger] vb[jj].1 as int == v;
                            assert(verts@[jj].1 as int == v);
                        } else {
                            assert(verts@[verts@.len() - 1].1 as int == v);
                        }
                    }
                }
            } else if pv == 0 {
                bin0 = bin0 + hg.vtxwt[i];
                part.push(0);
            } else if pv == 1 {
                bin1 = bin1 + hg.vtxwt[i];
                part.push(1);
            } else {
                return Result::Err(ErrorKind::PreconditionViolation);
            }
            i = i + 1;
        }

        // order the free vertices by descending weight
        let ghost vlen = verts@.len();
        let mut si: usize = 1;
        while si < verts.len()
            invariant
                g == *hg,
                nv as int == g.num_vertices(),
                verts@.len() == vlen,
                forall|jj: int| 0 <= jj < verts@.len()
                    ==> (#[trigger] verts@[jj].1 as int) < nv as int
                        && verts@[jj].0 == g.vtxwt@[verts@[jj].1 as int]
                        && g.part@[verts@[jj].1 as int] == -1,
                forall|a: int, b: int| 0 <= a < b < verts@.len()
                    ==> #[trigger] verts@[a].1 != #[trigger] verts@[b].1,
                forall|v: int| 0 <= v < nv as int && #[trigger] g.part@[v] == -1
                    ==> exists|jj: int| 0 <= jj < verts@.len()
                        && #[trigger] verts@[jj].1 as int == v,
            decreases verts@.len() - si,
        {
            let mut j: usize = si;
            while j > 0 && verts[j - 1].0 < verts[j].0
                invariant
                    g == *hg,
                    nv as int == g.num_vertices(),
                    verts@.len() == vlen,
                    j <= si < verts@.len(),
                    forall|jj: int| 0 <= jj < verts@.len()
                        ==> (#[trigger] verts@[jj].1 as int) < nv as int
                            && verts@[jj].0 == g.vtxwt@[verts@[jj].1 as int]
                            && g.part@[verts@[jj].1 as int] == -1,
                    forall|a: int, b: int| 0 <= a < b < verts@.len()
                        ==> #[trigger] verts@[a].1 != #[trigger] verts@[b].1,
                    forall|v: int| 0 <= v < nv as int && #[trigger] g.part@[v] == -1
                        ==> exists|jj: int| 0 <= jj < verts@.len()
                            && #[trigger] verts@[jj].1 as int == v,
                decreases j,
            {
                let ghost vb = verts@;
                let a = verts[j - 1];
                let b = verts[j];
                verts.set(j - 1, b);
                verts.set(j, a);
                proof {
                    assert forall|v: int| 0 <= v < nv as int && #[trigger] g.part@[v] == -1
                        implies exists|jj: int| 0 <= jj < verts@.len()
                            && #[trigger] verts@[jj].1 as int == v by {
                        let jj = choose|jj: int| 0 <= jj < vb.len()
                            && #[trigger] vb[jj].1 as int == v;
                        if jj == j - 1 {
                            assert(verts@[j as int].1 as int == v);
                        } else if jj == j as int {
                            assert(verts@[j as int - 1].1 as int == v);
                        } else {
                            assert(verts@[jj].1 as int == v);
                        }
                    }
                    assert forall|a2: int, b2: int| 0 <= a2 < b2 < verts@.len()
                        implies #[trigger] verts@[a2].1 != #[trigger] verts@[b2].1 by {
                        let a3: int = if a2 == j - 1 { j as int } else if a2 == j as int {
                            j - 1
                        } else {
                            a2
                        };
                        let b3: int = if b2 == j - 1 { j as int } else if b2 == j as int {
                            j - 1
                        } else {
                            b2
                        };
                        assert(verts@[a2] == vb[a3] && verts@[b2] == vb[b3]);
                        assert(a3 != b3);
                        if a3 < b3 {
                            assert(vb[a3].1 != vb[b3].1);
                        } else {
                            assert(vb[b3].1 != vb[a3].1);
                        }
                    }
                }
                j = j - 1;
            }
            si = si + 1;
        }

        // place each free vertex into the lighter bin
        let ghost all_free = forall|ii: int| 0 <= ii < g.part@.len()
            ==> #[trigger] g.part@[ii] == -1;
        proof {
            lemma_bin_wsum_same(g.vtxwt@, g.part@, part@, nv as int, 0);
            lemma_bin_wsum_same(g.vtxwt@, g.part@, part@, nv as int, 1);
            if all_free {
                lemma_bin_wsum_all_unassigned(g.vtxwt@, g.part@, nv as int, 0);
                lemma_bin_wsum_all_unassigned(g.vtxwt@, g.part@, nv as int, 1);
            }
        }
        let mut idx: usize = 0;
        while idx < verts.len()
            invariant
                g == *hg,
                g.wf(),
                weights_ok(g),
                nv as int == g.num_vertices(),
                idx <= verts@.len(),
                part@.len() == nv as int,
                mw == max_weight(g.vtxwt@, nv as int),
                mw >= 0,
                forall|ii: int| 0 <= ii < nv as int ==> #[trigger] g.vtxwt@[ii] <= mw,
                all_free == (forall|ii: int| 0 <= ii < g.part@.len()
                    ==> #[trigger] g.part@[ii] == -1),
                forall|ii: int| 0 <= ii < nv as int && #[trigger] g.part@[ii] != -1
                    ==> part@[ii] == g.part@[ii],
                forall|ii: int| 0 <= ii < nv as int
                    ==> #[trigger] part@[ii] == -1 || 0 <= part@[ii] < 2,
                bin0 as int == bin_wsum(g.vtxwt@, part@, nv as int, 0),
                bin1 as int == bin_wsum(g.vtxwt@, part@, nv as int, 1),
                forall|jj: int| 0 <= jj < verts@.len()
                    ==> (#[trigger] verts@[jj].1 as int) < nv as int
                        && verts@[jj].0 == g.vtxwt@[verts@[jj].1 as int]
                        && g.part@[verts@[jj].1 as int] == -1,
                forall|a: int, b: int| 0 <= a < b < verts@.len()
                    ==> #[trigger] verts@[a].1 != #[trigger] verts@[b].1,
                forall|jj: int| idx as int <= jj < verts@.len()
                    ==> part@[#[trigger] verts@[jj].1 as int] == -1,
                forall|v: int| 0 <= v < nv as int && #[trigger] part@[v] == -1
                    ==> exists|jj: int| idx as int <= jj < verts@.len()
                        && #[trigger] verts@[jj].1 as int == v,
                all_free ==> -mw <= bin0 as int - bin1 as int <= mw,
            decreases verts@.len() - idx,
        {
            let wv = verts[idx].0;
            let id = verts[idx].1;
            proof {
                assert(part@[id as int] == -1);
                assert(wv == g.vtxwt@[id as int]);
                assert(g.vtxwt@[id as int] >= 0);
            }
            let ghost pb = part@;
            if bin0 <= bin1 {
                proof {
                    lemma_bin_wsum_update(g.vtxwt@, pb, nv as int, 0, id as int, 0);
                    lemma_bin_wsum_update(g.vtxwt@, pb, nv as int, 1, id as int, 0);
                    lemma_two_bins_bound(g.vtxwt@, pb.update(id as int, 0i32), nv as int);
                    lemma_bin_wsum_bounds(g.vtxwt@, pb.update(id as int, 0i32), nv as int, 0);
                    lemma_bin_wsum_bounds(g.vtxwt@, pb.update(id as int, 0i32), nv as int, 1);
                }
                part.set(id, 0);
                bin0 = bin0 + wv;
            } else {
                proof {
                    lemma_bin_wsum_update(g.vtxwt@, pb, nv as int, 0, id as int, 1);
                    lemma_bin_wsum_update(g.vtxwt@, pb, nv as int, 1, id as int, 1);
                    lemma_two_bins_bound(g.vtxwt@, pb.update(id as int, 1i32), nv as int);
                    lemma_bin_wsum_bounds(g.vtxwt@, pb.update(id as int, 1i32), nv as int, 0);
                    lemma_bin_wsum_bounds(g.vtxwt@, pb.update(id as int, 1i32), nv as int, 1);
                }
                part.set(id, 1);
                bin1 = bin1 + wv;
            }
            proof {
                assert forall|v: int| 0 <= v < nv as int && #[trigger] part@[v] == -1
                    implies exists|jj: int| idx as int + 1 <= jj < verts@.len()
                        && #[trigger] verts@[jj].1 as int == v by {
                    assert(pb[v] == -1);
                    let jj = choose|jj: int| idx as int <= jj < verts@.len()
                        && #[trigger] verts@[jj].1 as int == v;
                    assert(jj != idx as int);
                }
            }
            idx = idx + 1;
        }
        proof {
            assert forall|v: int| 0 <= v < nv as int
                implies 0 <= #[trigger] part@[v] < 2 by {
                if part@[v] == -1 {
                    let jj = choose|jj: int| verts@.len() as int <= jj < verts@.len()
                        && #[trigger] verts@[jj].1 as int == v;
                    assert(false);
                }
            }
        }
        let scored = self.evaluate(hg, &part);
        let bins = scored.0;
        let cut = scored.1;
        Result::Ok((part, bins, cut))
    }

    /// Partitions by the configured backend. The built-in heuristic is
    /// always available; dispatch to any native engine reports that the
    /// backend is not linked into this library.
    pub fn hg_partition(&self, hg: &HyperGraph) -> (r: Result<(Vec<i32>, Vec<i32>, usize), ErrorKind>)
        requires
            hg.wf(),
            self.partitioner_type is D ==> weights_ok(*hg),
        ensures
            self.partitioner_type is D ==> match r {
                Result::Ok(t) => self.k == 2
                    && (forall|i: int| 0 <= i < hg.part@.len()
                        ==> -1 <= #[trigger] hg.part@[i] < 2)
                    && dumb_partition_ok(*hg, t.0@, t.1@, t.2 as int),
                Result::Err(e) => e == ErrorKind::PreconditionViolation
                    && (self.k != 2 || exists|i: int| 0 <= i < hg.part@.len()
                        && !(-1 <= #[trigger] hg.part@[i] < 2)),
            },
            !(self.partitioner_type is D) ==> (r matches Result::Err(e)
                && e == ErrorKind::BackendUnavailable),
    {
        match self.partitioner_type {
            Partitioner::D => self.partition_dumb(hg),
            _ => Result::Err(ErrorKind::BackendUnavailable),
        }
    }
}

/// Largest weight among the first `n` vertices, or zero when none.
pub open spec fn max_weight(w: Seq<i32>, n: int) -> int
    decreases n,
{
    if n <= 0 {
        0
    } else if w[n - 1] as int > max_weight(w, n - 1) {
        w[n - 1] as int
    } else {
        max_weight(w, n - 1)
    }
}

proof fn lemma_bin_wsum_all_unassigned(w: Seq<i32>, p: Seq<i32>, n: int, b: int)
    requires
        forall|i: int| 0 <= i < n ==> #[trigger] p[i] == -1,
        b != -1,
    ensures
        bin_wsum(w, p, n, b) == 0,
    decreases n,
{
    if n > 0 {
        lemma_bin_wsum_all_unassigned(w, p, n - 1, b);
    }
}

pub proof fn lemma_max_weight(w: Seq<i32>, n: int)
    ensures
        max_weight(w, n) >= 0,
        forall|i: int| 0 <= i < n ==> #[trigger] w[i] <= max_weight(w, n),
    decreases n,
{
    if n > 0 {
        lemma_max_weight(w, n - 1);
    }
}

/// What a successful two-way heuristic partitioning returns: a full
/// assignment into bins 0 and 1 that honors every pre-fixed vertex, the
/// two bin totals, the weighted connectivity cut, and — when nothing was
/// fixed — bin totals within the largest single vertex weight of each
/// other.
pub open spec fn dumb_partition_ok(
    hg: HyperGraph,
    part: Seq<i32>,
    bins: Seq<i32>,
    cut: int,
) -> bool {
    &&& part.len() == hg.num_vertices()
    &&& forall|i: int| 0 <= i < part.len() ==> 0 <= #[trigger] part[i] < 2
    &&& forall|i: int| 0 <= i < part.len() && #[trigger] hg.part@[i] != -1
        ==> part[i] == hg.part@[i]
    &&& bins.len() == 2
    &&& forall|b: int| 0 <= b < 2 ==> #[trigger] bins[b]
        == bin_wsum(hg.vtxwt@, part, hg.num_vertices(), b)
    &&& cut == cut_spec(hg, part, hg.num_edges())
    &&& (forall|i: int| 0 <= i < hg.part@.len() ==> #[trigger] hg.part@[i] == -1)
        ==> -max_weight(hg.vtxwt@, hg.num_vertices()) <= bins[0] - bins[1]
            <= max_weight(hg.vtxwt@, hg.num_vertices())
}

/// The largest index the companion assignment fixes to any bin, or `-1`
/// when it fixes none.
pub open spec fn last_set(p: Seq<i32>) -> int
    decreases p.len(),
{
    if p.len() == 0 {
        -1
    } else if p.last() != -1 {
        p.len() - 1
    } else {
        last_set(p.drop_last())
    }
}

pub proof fn lemma_last_set(p: Seq<i32>)
    ensures
        last_set(p) >= 0 ==> last_set(p) < p.len() && p[last_set(p)] != -1,
        last_set(p) == -1 <==> (forall|j: int| 0 <= j < p.len() ==> p[j] == -1),
    decreases p.len(),
{
    if p.len() > 0 && p.last() == -1 {
        lemma_last_set(p.drop_last());
        if last_set(p) >= 0 {
            assert(p.drop_last()[last_set(p)] == p[last_set(p)]);
        }
        if forall|j: int| 0 <= j < p.len() ==> p[j] == -1 {
            assert forall|j: int| 0 <= j < p.drop_last().len()
                implies p.drop_last()[j] == -1 by {
                assert(p.drop_last()[j] == p[j]);
            }
        } else {
            if last_set(p) == -1 {
                let j = choose|j: int| 0 <= j < p.len() && p[j] != -1;
                if j < p.len() - 1 {
                    assert(p.drop_last()[j] == p[j]);
                }
            }
        }
    }
}

/// The mirroring correction for a raw two-way assignment a backend hands
/// back: when some vertex was pre-fixed and the raw bin of the last such
/// vertex disagrees with its fixed bin, the whole assignment is taken as
/// mirrored and every bin value is flipped; otherwise it passes through
/// unchanged. A best-effort normalization, not an error path.
pub fn mirror_correct(raw: &Vec<i32>, fixed: &Vec<i32>) -> (r: Vec<i32>)
    requires
        raw@.len() == fixed@.len(),
        forall|i: int| 0 <= i < raw@.len() ==> 0 <= #[trigger] raw@[i] <= 1,
    ensures
        r@.len() == raw@.len(),
        last_set(fixed@) == -1 ==> r@ == raw@,
        last_set(fixed@) >= 0 && raw@[last_set(fixed@)] == fixed@[last_set(fixed@)]
            ==> r@ == raw@,
        last_set(fixed@) >= 0 && raw@[last_set(fixed@)] != fixed@[last_set(fixed@)]
            ==> forall|i: int| 0 <= i < r@.len()
                ==> #[trigger] r@[i] == 1 - raw@[i],
{
    let n = raw.len();
    let mut anchor: Option<usize> = Option::None;
    let mut i: usize = 0;
    while i < n
        invariant
            i <= n,
            n == fixed@.len(),
            n == raw@.len(),
            anchor is Some <==> last_set(fixed@.subrange(0, i as int)) >= 0,
            anchor is Some ==> anchor->0 as int == last_set(fixed@.subrange(0, i as int)),
        decreases n - i,
    {
        proof {
            let pre = fixed@.subrange(0, i as int);
            let post = fixed@.subrange(0, i as int + 1);
            assert(post.drop_last() =~= pre);
            assert(post.last() == fixed@[i as int]);
        }
        if fixed[i] != -1 {
            anchor = Option::Some(i);
        }
        i = i + 1;
    }
    proof {
        assert(fixed@.subrange(0, fixed@.len() as int) =~= fixed@);
        lemma_last_set(fixed@);
    }
    match anchor {
        Option::None => {
            let r = raw.clone();
            proof {
                assert(r@ =~= raw@);
            }
            r
        },
        Option::Some(a) => {
            if raw[a] == fixed[a] {
                let r = raw.clone();
                proof {
                    assert(r@ =~= raw@);
                }
                r
            } else {
                let mut flipped: Vec<i32> = Vec::new();
                let mut j: usize = 0;
                while j < n
                    invariant
                        j <= n,
                        n == raw@.len(),
                        forall|x: int| 0 <= x < raw@.len()
                            ==> 0 <= #[trigger] raw@[x] <= 1,
                        flipped@.len() == j as int,
                        forall|x: int| 0 <= x < j as int
                            ==> #[trigger] flipped@[x] == 1 - raw@[x],
                    decreases n - j,
                {
                    flipped.push(1 - raw[j]);
                    j = j + 1;
                }
                flipped
            }
        },
    }
}

} // verus!
