//! The hypergraph store: weighted vertices grouped into weighted
//! hyperedges, held in a compact offset/member layout. `eind` holds the
//! ascending offsets delimiting each hyperedge's slice of `eptr`, the
//! flattened member array.

use vstd::prelude::*;

use crate::errors::ErrorKind;

verus! {

#[derive(Debug)]
pub struct HyperGraph {
    /// Weight of each vertex; its length is the vertex count.
    pub vtxwt: Vec<i32>,
    /// Weight of each hyperedge; its length is the hyperedge count.
    pub hewt: Vec<i32>,
    /// Partition bin per vertex; `-1` means unassigned.
    pub part: Vec<i32>,
    /// Offsets into `eptr`: hyperedge `e` owns `eptr[eind[e]..eind[e+1]]`.
    pub eind: Vec<u64>,
    /// Flattened per-hyperedge member lists, zero-based vertex indices.
    pub eptr: Vec<u32>,
}

/// The largest index fixed to bin `b`, or `-1` when none is.
pub open spec fn last_fixed(p: Seq<i32>, b: i32) -> int
    decreases p.len(),
{
    if p.len() == 0 {
        -1
    } else if p.last() == b {
        p.len() - 1
    } else {
        last_fixed(p.drop_last(), b)
    }
}

pub proof fn lemma_last_fixed(p: Seq<i32>, b: i32)
    ensures
        last_fixed(p, b) >= 0 ==> last_fixed(p, b) < p.len() && p[last_fixed(p, b)] == b,
        last_fixed(p, b) == -1 <==> (forall|j: int| 0 <= j < p.len() ==> p[j] != b),
        forall|j: int| last_fixed(p, b) < j < p.len() ==> p[j] != b,
    decreases p.len(),
{
    if p.len() > 0 && p.last() != b {
        lemma_last_fixed(p.drop_last(), b);
        assert forall|j: int| last_fixed(p, b) < j < p.len() implies p[j] != b by {
            if j < p.len() - 1 {
                assert(p.drop_last()[j] == p[j]);
            }
        }
        if last_fixed(p, b) >= 0 {
            assert(p.drop_last()[last_fixed(p, b)] == p[last_fixed(p, b)]);
        }
        if forall|j: int| 0 <= j < p.len() ==> p[j] != b {
            assert forall|j: int| 0 <= j < p.drop_last().len() implies p.drop_last()[j] != b by {
                assert(p.drop_last()[j] == p[j]);
            }
        }
    }
}

impl HyperGraph {
    /// Number of vertices.
    pub open spec fn num_vertices(self) -> int {
        self.vtxwt@.len() as int
    }

    /// Number of hyperedges.
    pub open spec fn num_edges(self) -> int {
        if self.eind@.len() == 0 {
            0
        } else {
            self.eind@.len() - 1
        }
    }

    /// The structural invariant of the store: parallel lengths, offsets
    /// ascending from zero to the member count, members in range.
    pub open spec fn wf(self) -> bool {
        &&& self.part@.len() == self.vtxwt@.len()
        &&& self.hewt@.len() == self.num_edges()
        &&& (self.eind@.len() == 0 ==> self.eptr@.len() == 0)
        &&& (self.eind@.len() > 0 ==> self.eind@[0] == 0)
        &&& (self.eind@.len() > 0 ==> self.eind@.last() == self.eptr@.len())
        &&& (forall|i: int, j: int| 0 <= i <= j < self.eind@.len()
                ==> #[trigger] self.eind@[i] <= #[trigger] self.eind@[j])
        &&& (forall|i: int| 0 <= i < self.eptr@.len()
                ==> (#[trigger] self.eptr@[i] as int) < self.vtxwt@.len())
    }

    /// Hyperedge `e` contains vertex `v`.
    pub open spec fn edge_has(self, e: int, v: int) -> bool {
        exists|i: int|
            self.eind@[e] as int <= i < self.eind@[e + 1] as int
            && #[trigger] self.eptr@[i] as int == v
    }

    /// `u` and `v` share at least one hyperedge.
    pub open spec fn adjacent(self, u: int, v: int) -> bool {
        exists|e: int| 0 <= e < self.num_edges()
            && #[trigger] self.edge_has(e, u) && self.edge_has(e, v)
    }

    /// An empty hypergraph.
    pub fn new() -> (g: HyperGraph)
        ensures
            g.vtxwt@ =~= Seq::<i32>::empty(),
            g.hewt@ =~= Seq::<i32>::empty(),
            g.part@ =~= Seq::<i32>::empty(),
            g.eind@ =~= Seq::<u64>::empty(),
            g.eptr@ =~= Seq::<u32>::empty(),
            g.wf(),
    {
        HyperGraph {
            vtxwt: Vec::new(),
            hewt: Vec::new(),
            part: Vec::new(),
            eind: Vec::new(),
            eptr: Vec::new(),
        }
    }

    /// The small 7-vertex, 4-hyperedge example graph from the hMetis
    /// manual, in the KaHyPar-style layout (offsets in `eind`).
    pub fn hm_sample() -> (g: HyperGraph)
        ensures
            g.vtxwt@ =~= seq![1i32, 1i32, 1i32, 1i32, 1i32, 1i32, 1i32],
            g.hewt@ =~= seq![1i32, 1i32, 1i32, 1i32],
            g.part@ =~= seq![-1i32, -1i32, -1i32, -1i32, -1i32, -1i32, -1i32],
            g.eind@ =~= seq![0u64, 2u64, 6u64, 9u64, 12u64],
            g.eptr@ =~= seq![0u32, 2u32, 0u32, 1u32, 3u32, 4u32, 3u32, 4u32, 6u32, 2u32, 5u32, 6u32],
            g.wf(),
    {
        let g = HyperGraph {
            vtxwt: vec![1, 1, 1, 1, 1, 1, 1],
            hewt: vec![1, 1, 1, 1],
            part: vec![-1, -1, -1, -1, -1, -1, -1],
            eind: vec![0, 2, 6, 9, 12],
            eptr: vec![0, 2, 0, 1, 3, 4, 3, 4, 6, 2, 5, 6],
        };
        g
    }

    /// Fixes every listed vertex to the given bin, or reports the first
    /// out-of-range vertex id and leaves the graph untouched.
    pub fn fix(&mut self, vertices: &Vec<usize>, bin: i32) -> (r: Result<(), ErrorKind>)
        ensures
            match r {
                Result::Ok(()) => {
                    &&& forall|i: int| 0 <= i < vertices@.len()
                        ==> (#[trigger] vertices@[i] as int) < old(self).part@.len()
                    &&& final(self).part@.len() == old(self).part@.len()
                    &&& forall|j: int| 0 <= j < final(self).part@.len()
                        ==> final(self).part@[j]
                            == if vertices@.contains(j as usize) { bin } else { old(self).part@[j] }
                    &&& final(self).vtxwt@ == old(self).vtxwt@
                    &&& final(self).hewt@ == old(self).hewt@
                    &&& final(self).eind@ == old(self).eind@
                    &&& final(self).eptr@ == old(self).eptr@
                },
                Result::Err(e) => {
                    &&& e == ErrorKind::IndexOutOfRange
                    &&& *final(self) == *old(self)
                    &&& exists|i: int| 0 <= i < vertices@.len()
                        && (#[trigger] vertices@[i] as int) >= old(self).part@.len()
                },
            },
    {
        let mut i: usize = 0;
        while i < vertices.len()
            invariant
                i <= vertices@.len(),
                forall|m: int| 0 <= m < i as int
                    ==> (#[trigger] vertices@[m] as int) < self.part@.len(),
            decreases vertices@.len() - i,
        {
            if vertices[i] >= self.part.len() {
                return Result::Err(ErrorKind::IndexOutOfRange);
            }
            i = i + 1;
        }
        let mut k: usize = 0;
        while k < vertices.len()
            invariant
                k <= vertices@.len(),
                forall|m: int| 0 <= m < vertices@.len()
                    ==> (#[trigger] vertices@[m] as int) < self.part@.len(),
                self.part@.len() == old(self).part@.len(),
                self.vtxwt@ == old(self).vtxwt@,
                self.hewt@ == old(self).hewt@,
                self.eind@ == old(self).eind@,
                self.eptr@ == old(self).eptr@,
                forall|j: int| 0 <= j < self.part@.len()
                    ==> self.part@[j] == if vertices@.subrange(0, k as int).contains(j as usize) {
                        bin
                    } else {
                        old(self).part@[j]
                    },
            decreases vertices@.len() - k,
        {
            let v = vertices[k];
            let ghost prev = self.part@;
            self.part.set(v, bin);
            let plen = self.part.len();
            proof {
                assert(plen as int == self.part@.len());
                let pre = vertices@.subrange(0, k as int);
                let post = vertices@.subrange(0, k as int + 1);
                assert(post.drop_last() =~= pre);
                assert(post[k as int] == vertices@[k as int]);
                assert(self.part@ == prev.update(v as int, bin));
                assert forall|j: int| 0 <= j < self.part@.len()
                    implies self.part@[j] == if post.contains(j as usize) {
                        bin
                    } else {
                        old(self).part@[j]
                    } by {
                    if post.contains(j as usize) {
                        let w = choose|w: int| 0 <= w < post.len() && post[w] == j as usize;
                        if w < k as int {
                            assert(pre[w] == j as usize);
                            assert(pre.contains(j as usize));
                            assert(prev[j] == bin);
                        } else {
                            assert(w == k as int);
                            assert(post[w] == vertices@[k as int]);
                            assert(j as usize == v);
                            assert(j == v as int);
                        }
                    } else {
                        assert(!pre.contains(j as usize)) by {
                            if pre.contains(j as usize) {
                                let w = choose|w: int| 0 <= w < pre.len() && pre[w] == j as usize;
                                assert(post[w] == j as usize);
                            }
                        }
                        assert(j != v as int) by {
                            assert(post.contains(vertices@[k as int]));
                        }
                        assert(self.part@[j] == prev[j]);
                    }
                }
            }
            k = k + 1;
        }
        proof {
            assert(vertices@.subrange(0, vertices@.len() as int) =~= vertices@);
        }
        Result::Ok(())
    }

    /// Nudges the eventual balance of a two-way split toward the target
    /// fraction `num / den` for bin 0's share. A perfectly even target
    /// changes nothing. To shrink bin 0's share, one unit of weight is
    /// added to the last vertex fixed to bin 1, or a fresh unit-weight
    /// vertex fixed to bin 1 is appended when none exists; the opposite
    /// direction mirrors this onto bin 0. A coarse knob, not a solver.
    pub fn bias(&mut self, num: u64, den: u64)
        requires
            den > 0,
            old(self).part@.len() == old(self).vtxwt@.len(),
            2 * num < den && last_fixed(old(self).part@, 1) >= 0
                ==> old(self).vtxwt@[last_fixed(old(self).part@, 1)] < i32::MAX,
            2 * num > den && last_fixed(old(self).part@, 0) >= 0
                ==> old(self).vtxwt@[last_fixed(old(self).part@, 0)] < i32::MAX,
        ensures
            2 * num == den ==> *final(self) == *old(self),
            2 * num < den ==> {
                &&& last_fixed(old(self).part@, 1) == -1 ==> {
                    &&& final(self).vtxwt@ == old(self).vtxwt@.push(1i32)
                    &&& final(self).part@ == old(self).part@.push(1i32)
                }
                &&& last_fixed(old(self).part@, 1) >= 0 ==> {
                    &&& final(self).vtxwt@ == old(self).vtxwt@.update(
                        last_fixed(old(self).part@, 1),
                        (old(self).vtxwt@[last_fixed(old(self).part@, 1)] + 1) as i32,
                    )
                    &&& final(self).part@ == old(self).part@
                }
            },
            2 * num > den ==> {
                &&& last_fixed(old(self).part@, 0) == -1 ==> {
                    &&& final(self).vtxwt@ == old(self).vtxwt@.push(1i32)
                    &&& final(self).part@ == old(self).part@.push(0i32)
                }
                &&& last_fixed(old(self).part@, 0) >= 0 ==> {
                    &&& final(self).vtxwt@ == old(self).vtxwt@.update(
                        last_fixed(old(self).part@, 0),
                        (old(self).vtxwt@[last_fixed(old(self).part@, 0)] + 1) as i32,
                    )
                    &&& final(self).part@ == old(self).part@
                }
            },
            final(self).hewt@ == old(self).hewt@,
            final(self).eind@ == old(self).eind@,
            final(self).eptr@ == old(self).eptr@,
    {
        let twice = (num as u128) * 2;
        if twice == den as u128 {
            return;
        }

        let mut fix0: Option<usize> = Option::None;
        let mut fix1: Option<usize> = Option::None;
        let mut i: usize = 0;
        while i < self.vtxwt.len()
            invariant
                self == old(self),
                i <= self.vtxwt@.len(),
                self.part@.len() == self.vtxwt@.len(),
                fix0 is Some <==> last_fixed(self.part@.subrange(0, i as int), 0) >= 0,
                fix0 is Some ==> fix0->0 as int == last_fixed(self.part@.subrange(0, i as int), 0),
                fix1 is Some <==> last_fixed(self.part@.subrange(0, i as int), 1) >= 0,
                fix1 is Some ==> fix1->0 as int == last_fixed(self.part@.subrange(0, i as int), 1),
            decreases self.vtxwt@.len() - i,
        {
            proof {
                let pre = self.part@.subrange(0, i as int);
                let post = self.part@.subrange(0, i as int + 1);
                assert(post.drop_last() =~= pre);
                assert(post.last() == self.part@[i as int]);
            }
            if self.part[i] == 0 {
                fix0 = Option::Some(i);
            }
            if self.part[i] == 1 {
                fix1 = Option::Some(i);
            }
            i = i + 1;
        }
        proof {
            assert(self.part@.subrange(0, self.part@.len() as int) =~= self.part@);
            lemma_last_fixed(self.part@, 0);
            lemma_last_fixed(self.part@, 1);
        }
        if twice < den as u128 {
            // shrink bin 0's eventual share: strengthen or create a bin-1 anchor
            match fix1 {
                Option::None => {
                    self.vtxwt.push(1);
                    self.part.push(1);
                },
                Option::Some(v) => {
                    let w = self.vtxwt[v];
                    self.vtxwt.set(v, w + 1);
                },
            }
            return;
        }
        match fix0 {
            Option::None => {
                self.vtxwt.push(1);
                self.part.push(0);
            },
            Option::Some(v) => {
                let w = self.vtxwt[v];
                self.vtxwt.set(v, w + 1);
            },
        }
    }

    /// The per-vertex incidence lists: for each vertex, the hyperedges
    /// that contain it, in ascending hyperedge order.
    pub fn vertex_edge_container(&self) -> (r: Vec<Vec<usize>>)
        requires
            self.wf(),
        ensures
            r@.len() == self.num_vertices(),
            forall|v: int, j: int| 0 <= v < r@.len() && 0 <= j < r@[v]@.len()
                ==> (#[trigger] r@[v]@[j] as int) < self.num_edges()
                    && self.edge_has(r@[v]@[j] as int, v),
            forall|v: int, e: int| 0 <= v < r@.len() && 0 <= e < self.num_edges()
                && #[trigger] self.edge_has(e, v) ==> r@[v]@.contains(e as usize),
            forall|v: int, j1: int, j2: int| 0 <= v < r@.len()
                && 0 <= j1 <= j2 < r@[v]@.len()
                ==> #[trigger] r@[v]@[j1] <= #[trigger] r@[v]@[j2],
    {
        let num_edges: usize = if self.eind.len() == 0 {
            0
        } else {
            self.eind.len() - 1
        };
        let nv = self.vtxwt.len();
        let total = self.eptr.len();
        let mut rows: Vec<Vec<usize>> = Vec::new();
        let mut v0: usize = 0;
        while v0 < nv
            invariant
                v0 <= nv,
                rows@.len() == v0 as int,
                forall|v: int| 0 <= v < v0 as int ==> (#[trigger] rows@[v]@).len() == 0,
            decreases nv - v0,
        {
            rows.push(Vec::new());
            v0 = v0 + 1;
        }
        let mut edge: usize = 0;
        while edge < num_edges
            invariant
                self.wf(),
                num_edges as int == self.num_edges(),
                nv as int == self.num_vertices(),
                total as int == self.eptr@.len(),
                edge <= num_edges,
                rows@.len() == nv as int,
                forall|v: int, j: int| 0 <= v < rows@.len() && 0 <= j < rows@[v]@.len()
                    ==> (#[trigger] rows@[v]@[j] as int) < edge as int
                        && self.edge_has(rows@[v]@[j] as int, v),
                forall|v: int, e: int| 0 <= v < rows@.len() && 0 <= e < edge as int
                    && #[trigger] self.edge_has(e, v) ==> rows@[v]@.contains(e as usize),
                forall|v: int, j1: int, j2: int| 0 <= v < rows@.len()
                    && 0 <= j1 <= j2 < rows@[v]@.len()
                    ==> #[trigger] rows@[v]@[j1] <= #[trigger] rows@[v]@[j2],
            decreases num_edges - edge,
        {
            proof {
                assert(self.eind@[edge as int] <= self.eind@[edge as int + 1]);
                assert(self.eind@[edge as int + 1] <= self.eind@[self.eind@.len() - 1]);
                assert(self.eind@.last() == self.eind@[self.eind@.len() - 1]);
                assert(self.eind@[self.eind@.len() - 1] == self.eptr@.len());
                assert(self.eptr@.len() == total as int);
            }
            let start = self.eind[edge] as usize;
            let end = self.eind[edge + 1] as usize;
            let mut i2: usize = start;
            while i2 < end
                invariant
                    self.wf(),
                    num_edges as int == self.num_edges(),
                    nv as int == self.num_vertices(),
                    edge < num_edges,
                    start as int == self.eind@[edge as int] as int,
                    end as int == self.eind@[edge as int + 1] as int,
                    start <= i2 <= end,
                    end <= self.eptr@.len(),
                    rows@.len() == nv as int,
                    forall|v: int, j: int| 0 <= v < rows@.len() && 0 <= j < rows@[v]@.len()
                        ==> (#[trigger] rows@[v]@[j] as int) <= edge as int
                            && self.edge_has(rows@[v]@[j] as int, v),
                    forall|v: int, e: int| 0 <= v < rows@.len() && 0 <= e < edge as int
                        && #[trigger] self.edge_has(e, v) ==> rows@[v]@.contains(e as usize),
                    forall|v: int| 0 <= v < rows@.len()
                        && (exists|m: int| start as int <= m < i2 as int
                            && #[trigger] self.eptr@[m] as int == v)
                        ==> #[trigger] rows@[v]@.contains(edge),
                    forall|v: int, j1: int, j2: int| 0 <= v < rows@.len()
                        && 0 <= j1 <= j2 < rows@[v]@.len()
                        ==> #[trigger] rows@[v]@[j1] <= #[trigger] rows@[v]@[j2],
                decreases end - i2,
            {
                let vertex = self.eptr[i2] as usize;
                let ghost before = rows@;
                rows[vertex].push(edge);
                proof {
                    assert(rows@ =~= before.update(
                        vertex as int,
                        rows@[vertex as int],
                    ));
                    assert(rows@[vertex as int]@ =~= before[vertex as int]@.push(edge));
                    assert(rows@.len() == before.len());
                    assert(forall|v: int| 0 <= v < rows@.len() && v != vertex as int
                        ==> #[trigger] rows@[v]@ == before[v]@);
                    assert(self.edge_has(edge as int, vertex as int)) by {
                        assert(self.eind@[edge as int] as int <= i2 as int
                            && (i2 as int) < self.eind@[edge as int + 1] as int);
                        assert(self.eptr@[i2 as int] as int == vertex as int);
                    }
                    // soundness carries over; the new entry is this edge
                    assert forall|v: int, j: int| 0 <= v < rows@.len() && 0 <= j < rows@[v]@.len()
                        implies (#[trigger] rows@[v]@[j] as int) <= edge as int
                            && self.edge_has(rows@[v]@[j] as int, v) by {
                        if v == vertex as int && j == rows@[v]@.len() - 1 {
                        } else {
                            assert(rows@[v]@[j] == before[v]@[j]);
                        }
                    }
                    // older rows keep what they contained
                    assert forall|v: int, e2: int| 0 <= v < rows@.len() && 0 <= e2 < edge as int
                        && #[trigger] self.edge_has(e2, v)
                        implies rows@[v]@.contains(e2 as usize) by {
                        assert(before[v]@.contains(e2 as usize));
                        let w = choose|w: int| 0 <= w < before[v]@.len()
                            && before[v]@[w] == e2 as usize;
                        assert(rows@[v]@[w] == e2 as usize);
                    }
                    // members seen so far of this edge are recorded
                    assert forall|v: int| 0 <= v < rows@.len()
                        && (exists|m: int| start as int <= m < i2 as int + 1
                            && #[trigger] self.eptr@[m] as int == v)
                        implies #[trigger] rows@[v]@.contains(edge) by {
                        let m = choose|m: int| start as int <= m < i2 as int + 1
                            && #[trigger] self.eptr@[m] as int == v;
                        if m < i2 as int {
                            assert(before[v]@.contains(edge));
                            let w = choose|w: int| 0 <= w < before[v]@.len()
                                && before[v]@[w] == edge;
                            assert(rows@[v]@[w] == edge);
                        } else {
                            assert(v == vertex as int);
                            assert(rows@[v]@[rows@[v]@.len() - 1] == edge);
                        }
                    }
                    // rows stay sorted: every older entry is at most this edge
                    assert forall|v: int, j1: int, j2: int| 0 <= v < rows@.len()
                        && 0 <= j1 <= j2 < rows@[v]@.len()
                        implies #[trigger] rows@[v]@[j1] <= #[trigger] rows@[v]@[j2] by {
                        if v == vertex as int && j2 == rows@[v]@.len() - 1 {
                            if j1 < j2 {
                                assert(rows@[v]@[j1] == before[v]@[j1]);
                                assert(before[v]@[j1] as int <= edge as int);
                            }
                        } else {
                            assert(rows@[v]@[j1] == before[v]@[j1]);
                            assert(rows@[v]@[j2] == before[v]@[j2]);
                        }
                    }
                }
                i2 = i2 + 1;
            }
            proof {
                assert forall|v: int, e: int| 0 <= v < rows@.len() && 0 <= e < edge as int + 1
                    && #[trigger] self.edge_has(e, v) implies rows@[v]@.contains(e as usize) by {
                    if e == edge as int {
                        let m = choose|m: int| self.eind@[e] as int <= m < self.eind@[e + 1] as int
                            && #[trigger] self.eptr@[m] as int == v;
                        assert(rows@[v]@.contains(edge));
                    }
                }
            }
            edge = edge + 1;
        }
        rows
    }
}

} // verus!
