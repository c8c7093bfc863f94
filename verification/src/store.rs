//! Loading and saving the hypergraph in the line-oriented interchange
//! format. The first line holds `num_edges num_vertices [mode]`; the next
//! `num_edges` lines hold one-based member ids (with a trailing edge
//! weight when `mode` is 1 or 11); `num_vertices` weight lines follow when
//! `mode` is 10 or 11. An optional companion file fixes vertices to bins.

use vstd::prelude::*;

use crate::codec::join_ints;
use crate::codec::join_line;
use crate::codec::lemma_line_ints_join;
use crate::codec::line_ints;
use crate::codec::parse_ints;
use crate::errors::ErrorKind;
use crate::hypergraph::HyperGraph;

verus! {

/// Whether hyperedges carry a trailing weight under this mode.
pub open spec fn eweight_of(mode: int) -> bool {
    mode == 1 || mode == 11
}

/// Whether vertices carry explicit weight lines under this mode.
pub open spec fn vweight_of(mode: int) -> bool {
    mode == 10 || mode == 11
}

/// The first integer on a line, when the line tokenizes and holds one.
pub open spec fn first_int_spec(line: Seq<u8>) -> Option<i32> {
    match line_ints(line) {
        Option::Some(vals) => if vals.len() >= 1 {
            Option::Some(vals[0])
        } else {
            Option::None
        },
        Option::None => Option::None,
    }
}

/// The header line: edge count, vertex count and mode, when well formed.
pub open spec fn header_spec(line: Seq<u8>) -> Option<(int, int, int)> {
    match line_ints(line) {
        Option::Some(vals) => if vals.len() == 2 && vals[0] >= 0 && vals[1] >= 0 {
            Option::Some((vals[0] as int, vals[1] as int, 0int))
        } else if vals.len() == 3 && vals[0] >= 0 && vals[1] >= 0 {
            Option::Some((vals[0] as int, vals[1] as int, vals[2] as int))
        } else {
            Option::None
        },
        Option::None => Option::None,
    }
}

/// Whether every value is a one-based vertex id no larger than `nv`.
pub open spec fn members_in_range(ms: Seq<i32>, nv: int) -> bool {
    forall|j: int| 0 <= j < ms.len() ==> 1 <= #[trigger] ms[j] && ms[j] <= nv
}

/// One hyperedge line: its zero-based members and its weight. `None` when
/// the line does not tokenize, lacks the trailing weight, carries a weight
/// below one, or names a vertex outside `[1, nv]`.
pub open spec fn edge_line_spec(line: Seq<u8>, ew: bool, nv: int) -> Option<(Seq<u32>, i32)> {
    match line_ints(line) {
        Option::Some(vals) => if ew && vals.len() < 1 {
            Option::None
        } else if ew && vals.last() < 1 {
            Option::None
        } else {
            let ms = if ew { vals.drop_last() } else { vals };
            if members_in_range(ms, nv) {
                Option::Some((
                    ms.map_values(|x: i32| (x - 1) as u32),
                    if ew { vals.last() } else { 1i32 },
                ))
            } else {
                Option::None
            }
        },
        Option::None => Option::None,
    }
}

/// The members of hyperedge `e` as its line gives them.
pub open spec fn edge_members_at(lines: Seq<Seq<u8>>, e: int, ew: bool, nv: int) -> Seq<u32> {
    (edge_line_spec(lines[1 + e], ew, nv)->0).0
}

/// The weight of hyperedge `e` as its line gives it.
pub open spec fn edge_weight_at(lines: Seq<Seq<u8>>, e: int, ew: bool, nv: int) -> i32 {
    (edge_line_spec(lines[1 + e], ew, nv)->0).1
}

/// The companion file's lines, viewed as sequences, when one is given.
pub open spec fn opt_dv(fixed: Option<&Vec<Vec<u8>>>) -> Option<Seq<Seq<u8>>> {
    match fixed {
        Option::Some(f) => Option::Some(f.deep_view()),
        Option::None => Option::None,
    }
}

/// Whether the given lines describe a complete, well-formed input.
pub open spec fn load_ok(lines: Seq<Seq<u8>>, fixed: Option<Seq<Seq<u8>>>) -> bool {
    &&& lines.len() >= 1
    &&& header_spec(lines[0]) is Some
    &&& {
        let hd = header_spec(lines[0])->0;
        &&& lines.len() >= 1 + hd.0 + if vweight_of(hd.2) { hd.1 } else { 0 }
        &&& forall|e: int| 0 <= e < hd.0
            ==> edge_line_spec(#[trigger] lines[1 + e], eweight_of(hd.2), hd.1) is Some
        &&& vweight_of(hd.2) ==> forall|v: int| 0 <= v < hd.1
            ==> first_int_spec(#[trigger] lines[1 + hd.0 + v]) is Some
        &&& match fixed {
            Option::Some(fl) => fl.len() >= hd.1
                && forall|v: int| 0 <= v < hd.1 ==> first_int_spec(#[trigger] fl[v]) is Some,
            Option::None => true,
        }
    }
}

/// Whether `g` is exactly the hypergraph the given lines describe.
pub open spec fn loaded_graph(
    lines: Seq<Seq<u8>>,
    fixed: Option<Seq<Seq<u8>>>,
    g: HyperGraph,
) -> bool {
    let hd = header_spec(lines[0])->0;
    let ne = hd.0;
    let nv = hd.1;
    let ew = eweight_of(hd.2);
    &&& g.vtxwt@.len() == nv
    &&& g.part@.len() == nv
    &&& g.hewt@.len() == ne
    &&& g.eind@.len() == ne + 1
    &&& g.eind@[0] == 0
    &&& forall|e: int| 0 <= e < ne ==> #[trigger] g.eind@[e + 1] as int
        == g.eind@[e] as int + edge_members_at(lines, e, ew, nv).len()
    &&& forall|e: int| 0 <= e < ne
        ==> g.eptr@.subrange(g.eind@[e] as int, g.eind@[e + 1] as int)
            == #[trigger] edge_members_at(lines, e, ew, nv)
    &&& forall|e: int| 0 <= e < ne ==> #[trigger] g.hewt@[e] == edge_weight_at(lines, e, ew, nv)
    &&& g.eind@.last() as int == g.eptr@.len()
    &&& forall|v: int| 0 <= v < nv ==> #[trigger] g.vtxwt@[v] == if vweight_of(hd.2) {
        first_int_spec(lines[1 + ne + v])->0
    } else {
        1i32
    }
    &&& forall|v: int| 0 <= v < nv ==> #[trigger] g.part@[v] == match fixed {
        Option::Some(fl) => first_int_spec(fl[v])->0,
        Option::None => -1i32,
    }
}

proof fn lemma_dv_index(v: &Vec<Vec<u8>>, i: int)
    requires
        0 <= i < v@.len(),
    ensures
        v.deep_view().len() == v@.len(),
        v.deep_view()[i] == v@[i]@,
{
    assert(v.deep_view()[i] == v@[i].deep_view());
    assert(v@[i].deep_view() =~= v@[i]@);
}

impl HyperGraph {
    /// Builds a hypergraph from the lines of an interchange file, and the
    /// lines of a companion fixed-vertex file when one is given. Succeeds
    /// exactly on complete, well-formed input and then returns the graph
    /// the lines describe; otherwise nothing is built.
    pub fn load_from_lines(
        lines: &Vec<Vec<u8>>,
        fixed: Option<&Vec<Vec<u8>>>,
    ) -> (r: Result<HyperGraph, ErrorKind>)
        ensures
            match r {
                Result::Ok(g) => {
                    &&& load_ok(lines.deep_view(), opt_dv(fixed))
                    &&& loaded_graph(lines.deep_view(), opt_dv(fixed), g)
                    &&& g.wf()
                },
                Result::Err(e) => {
                    &&& e == ErrorKind::ParseError
                    &&& !load_ok(lines.deep_view(), opt_dv(fixed))
                },
            },
    {
        let ghost dv = lines.deep_view();
        if lines.len() == 0 {
            return Result::Err(ErrorKind::ParseError);
        }
        proof {
            lemma_dv_index(lines, 0);
        }
        let hvals = match parse_ints(&lines[0]) {
            Result::Ok(v) => v,
            Result::Err(_) => {
                return Result::Err(ErrorKind::ParseError);
            },
        };
        let mode: i32 = if hvals.len() == 3 {
            hvals[2]
        } else if hvals.len() == 2 {
            0
        } else {
            return Result::Err(ErrorKind::ParseError);
        };
        let ne_i = hvals[0];
        let nv_i = hvals[1];
        if ne_i < 0 || nv_i < 0 {
            return Result::Err(ErrorKind::ParseError);
        }
        let ghost hd = header_spec(dv[0])->0;
        proof {
            assert(hd.0 == ne_i as int && hd.1 == nv_i as int && hd.2 == mode as int);
        }
        let ew = mode == 1 || mode == 11;
        let vw = mode == 10 || mode == 11;
        let ne = ne_i as usize;
        let nv = nv_i as usize;
        let needed: u64 = 1 + ne as u64 + if vw {
            nv as u64
        } else {
            0
        };
        if (lines.len() as u64) < needed {
            return Result::Err(ErrorKind::ParseError);
        }
        if let Option::Some(f) = fixed {
            if f.len() < nv {
                return Result::Err(ErrorKind::ParseError);
            }
        }

        let mut eind: Vec<u64> = Vec::new();
        let mut eptr: Vec<u32> = Vec::new();
        let mut hewt: Vec<i32> = Vec::new();
        eind.push(0);

        let mut e: usize = 0;
        while e < ne
            invariant
                e <= ne,
                dv == lines.deep_view(),
                dv.len() == lines@.len(),
                ne < usize::MAX,
                lines@.len() >= 1 + ne as int,
                header_spec(dv[0]) == Option::Some(hd),
                hd.0 == ne as int,
                hd.1 == nv as int,
                nv <= i32::MAX,
                nv_i as int == nv as int,
                ew == eweight_of(hd.2),
                eind@.len() == e as int + 1,
                hewt@.len() == e as int,
                eind@[0] == 0,
                eind@.last() as int == eptr@.len(),
                forall|k: int| 0 <= k < e as int
                    ==> edge_line_spec(#[trigger] dv[1 + k], ew, nv as int) is Some,
                forall|k: int| 0 <= k < e as int ==> #[trigger] eind@[k + 1] as int
                    == eind@[k] as int + edge_members_at(dv, k, ew, nv as int).len(),
                forall|k: int| 0 <= k < e as int
                    ==> eptr@.subrange(eind@[k] as int, eind@[k + 1] as int)
                        == #[trigger] edge_members_at(dv, k, ew, nv as int),
                forall|k: int| 0 <= k < e as int
                    ==> #[trigger] hewt@[k] == edge_weight_at(dv, k, ew, nv as int),
                forall|i: int, j: int| 0 <= i <= j < eind@.len()
                    ==> #[trigger] eind@[i] <= #[trigger] eind@[j],
                forall|i: int| 0 <= i < eptr@.len()
                    ==> (#[trigger] eptr@[i] as int) < nv as int,
            decreases ne - e,
        {
            proof {
                lemma_dv_index(lines, 1 + e as int);
            }
            let vals = match parse_ints(&lines[1 + e]) {
                Result::Ok(v) => v,
                Result::Err(_) => {
                    proof {
                        assert(edge_line_spec(dv[1 + e as int], ew, nv as int) is None);
                    }
                    return Result::Err(ErrorKind::ParseError);
                },
            };
            let mcount: usize;
            let weight: i32;
            if ew {
                if vals.len() == 0 {
                    proof {
                        assert(edge_line_spec(dv[1 + e as int], ew, nv as int) is None);
                    }
                    return Result::Err(ErrorKind::ParseError);
                }
                weight = vals[vals.len() - 1];
                if weight < 1 {
                    proof {
                        assert(vals@.last() == weight);
                        assert(edge_line_spec(dv[1 + e as int], ew, nv as int) is None);
                    }
                    return Result::Err(ErrorKind::ParseError);
                }
                mcount = vals.len() - 1;
            } else {
                weight = 1;
                mcount = vals.len();
            }
            let ghost ms = if ew { vals@.drop_last() } else { vals@ };
            proof {
                assert(ms.len() == mcount as int);
                assert(forall|j: int| 0 <= j < ms.len() ==> #[trigger] ms[j] == vals@[j]);
            }
            let ghost pre_len: int = eptr@.len() as int;
            let ghost pre_eptr = eptr@;
            let mut j: usize = 0;
            while j < mcount
                invariant
                    j <= mcount,
                    mcount <= vals@.len(),
                    ms == if ew { vals@.drop_last() } else { vals@ },
                    ms.len() == mcount as int,
                    forall|jj: int| 0 <= jj < ms.len() ==> #[trigger] ms[jj] == vals@[jj],
                    nv <= i32::MAX,
                    nv_i as int == nv as int,
                    dv == lines.deep_view(),
                    dv.len() == lines@.len(),
                    lines@.len() >= 1 + ne as int,
                    e < ne,
                    header_spec(dv[0]) == Option::Some(hd),
                    hd.0 == ne as int,
                    hd.1 == nv as int,
                    ew == eweight_of(hd.2),
                    line_ints(dv[1 + e as int]) == Option::Some(vals@),
                    ew ==> vals@.len() >= 1 && 1 <= vals@[vals@.len() - 1],
                    0 <= pre_len,
                    eptr@.len() == pre_len + j as int,
                    forall|i: int| 0 <= i < pre_len ==> #[trigger] eptr@[i] == pre_eptr[i],
                    forall|jj: int| 0 <= jj < j as int
                        ==> 1 <= #[trigger] vals@[jj] && vals@[jj] <= nv as int,
                    forall|jj: int| 0 <= jj < j as int
                        ==> #[trigger] eptr@[pre_len + jj] == (vals@[jj] - 1) as u32,
                    forall|i: int| 0 <= i < eptr@.len()
                        ==> (#[trigger] eptr@[i] as int) < nv as int,
                decreases mcount - j,
            {
                let x = vals[j];
                if x < 1 || x > nv_i {
                    proof {
                        assert(!(1 <= ms[j as int] && ms[j as int] <= nv as int));
                        assert(!members_in_range(ms, nv as int));
                        assert(edge_line_spec(dv[1 + e as int], ew, nv as int) is None);
                    }
                    return Result::Err(ErrorKind::ParseError);
                }
                eptr.push((x - 1) as u32);
                j = j + 1;
            }
            proof {
                assert forall|jj: int| 0 <= jj < ms.len()
                    implies 1 <= #[trigger] ms[jj] && ms[jj] <= nv as int by {
                    assert(ms[jj] == vals@[jj]);
                }
                assert(members_in_range(ms, nv as int));
                assert(edge_line_spec(dv[1 + e as int], ew, nv as int) is Some);
                let spec_ms = edge_members_at(dv, e as int, ew, nv as int);
                assert(spec_ms.len() == ms.len());
                assert forall|jj: int| 0 <= jj < spec_ms.len()
                    implies spec_ms[jj] == eptr@.subrange(pre_len, eptr@.len() as int)[jj] by {
                    assert(spec_ms[jj] == (ms[jj] - 1) as u32);
                    assert(eptr@[pre_len + jj] == (vals@[jj] - 1) as u32);
                };
                assert(eptr@.subrange(pre_len, eptr@.len() as int) =~= spec_ms);
                assert(weight == edge_weight_at(dv, e as int, ew, nv as int));
            }
            let ghost old_eind = eind@;
            let ghost old_hewt = hewt@;
            hewt.push(weight);
            eind.push(eptr.len() as u64);
            proof {
                assert(eind@ == old_eind.push(eptr@.len() as u64));
                assert forall|i: int, jx: int| 0 <= i <= jx < eind@.len()
                    implies #[trigger] eind@[i] <= #[trigger] eind@[jx] by {
                    if jx == eind@.len() - 1 {
                        if i < jx {
                            assert(eind@[i] == old_eind[i]);
                            assert(old_eind[i] <= old_eind[old_eind.len() - 1]);
                        }
                    } else {
                        assert(eind@[i] == old_eind[i]);
                        assert(eind@[jx] == old_eind[jx]);
                    }
                }
                assert forall|k: int| 0 <= k < e as int + 1
                    implies eptr@.subrange(eind@[k] as int, eind@[k + 1] as int)
                        == #[trigger] edge_members_at(dv, k, ew, nv as int) by {
                    if k < e as int {
                        assert(eind@[k] == old_eind[k]);
                        assert(eind@[k + 1] == old_eind[k + 1]);
                        assert(old_eind[k + 1] <= old_eind[old_eind.len() - 1]);
                        assert(pre_eptr.subrange(old_eind[k] as int, old_eind[k + 1] as int)
                            == edge_members_at(dv, k, ew, nv as int));
                        assert(eptr@.subrange(eind@[k] as int, eind@[k + 1] as int)
                            =~= pre_eptr.subrange(old_eind[k] as int, old_eind[k + 1] as int));
                    } else {
                        assert(eind@[k] as int == pre_len);
                        assert(eind@[k + 1] as int == eptr@.len());
                        assert(eptr@.subrange(pre_len, eptr@.len() as int)
                            == edge_members_at(dv, k, ew, nv as int));
                    }
                }
            }
            e = e + 1;
        }

        let mut vtxwt: Vec<i32> = Vec::new();
        let mut part: Vec<i32> = Vec::new();
        let mut v: usize = 0;
        while v < nv
            invariant
                v <= nv,
                dv == lines.deep_view(),
                dv.len() == lines@.len(),
                header_spec(dv[0]) == Option::Some(hd),
                hd.0 == ne as int,
                hd.1 == nv as int,
                vw == vweight_of(hd.2),
                lines@.len() >= 1 + ne as int + if vw { nv as int } else { 0 },
                vtxwt@.len() == v as int,
                part@.len() == v as int,
                vw ==> forall|k: int| 0 <= k < v as int
                    ==> first_int_spec(#[trigger] dv[1 + ne as int + k]) is Some,
                forall|k: int| 0 <= k < v as int ==> #[trigger] vtxwt@[k] == if vw {
                    first_int_spec(dv[1 + ne as int + k])->0
                } else {
                    1i32
                },
                forall|k: int| 0 <= k < v as int ==> #[trigger] part@[k] == -1i32,
            decreases nv - v,
        {
            if vw {
                proof {
                    lemma_dv_index(lines, 1 + ne as int + v as int);
                }
                let wvals = match parse_ints(&lines[1 + ne + v]) {
                    Result::Ok(w) => w,
                    Result::Err(_) => {
                        proof {
                            assert(first_int_spec(dv[1 + ne as int + v as int]) is None);
                        }
                        return Result::Err(ErrorKind::ParseError);
                    },
                };
                if wvals.len() == 0 {
                    proof {
                        assert(first_int_spec(dv[1 + ne as int + v as int]) is None);
                    }
                    return Result::Err(ErrorKind::ParseError);
                }
                vtxwt.push(wvals[0]);
            } else {
                vtxwt.push(1);
            }
            part.push(-1);
            v = v + 1;
        }

        if let Option::Some(f) = fixed {
            let mut v2: usize = 0;
            while v2 < nv
                invariant
                    v2 <= nv,
                    nv <= f@.len(),
                    fixed == Option::Some(f),
                    dv == lines.deep_view(),
                    header_spec(dv[0]) == Option::Some(hd),
                    hd.1 == nv as int,
                    part@.len() == nv as int,
                    forall|k: int| 0 <= k < v2 as int
                        ==> first_int_spec(#[trigger] f.deep_view()[k]) is Some,
                    forall|k: int| 0 <= k < v2 as int
                        ==> #[trigger] part@[k] == first_int_spec(f.deep_view()[k])->0,
                    forall|k: int| v2 as int <= k < nv as int ==> #[trigger] part@[k] == -1i32,
                decreases nv - v2,
            {
                proof {
                    lemma_dv_index(f, v2 as int);
                }
                let fvals = match parse_ints(&f[v2]) {
                    Result::Ok(w) => w,
                    Result::Err(_) => {
                        proof {
                            assert(first_int_spec(f.deep_view()[v2 as int]) is None);
                        }
                        return Result::Err(ErrorKind::ParseError);
                    },
                };
                if fvals.len() == 0 {
                    proof {
                        assert(first_int_spec(f.deep_view()[v2 as int]) is None);
                    }
                    return Result::Err(ErrorKind::ParseError);
                }
                part.set(v2, fvals[0]);
                v2 = v2 + 1;
            }
        }

        let g = HyperGraph { vtxwt, hewt, part, eind, eptr };
        proof {
            assert(g.eind@.last() == g.eind@[g.eind@.len() - 1]);
            assert(load_ok(dv, opt_dv(fixed)));
            assert(loaded_graph(dv, opt_dv(fixed), g));
            assert(g.wf());
        }
        Result::Ok(g)
    }

    /// Writes the graph back out as interchange lines: the header, one
    /// line per hyperedge with one-based member ids (and the trailing
    /// weight when the mode carries edge weights), then one weight line
    /// per vertex when the mode carries vertex weights.
    pub fn save_to_lines(&self, mode: usize) -> (r: Vec<Vec<u8>>)
        requires
            self.wf(),
            self.hewt@.len() <= i64::MAX,
            self.vtxwt@.len() <= i64::MAX,
            mode <= i64::MAX,
        ensures
            r.deep_view() == save_lines_spec(*self, mode as int),
    {
        let ghost target = save_lines_spec(*self, mode as int);
        let ne = self.hewt.len();
        let nv = self.vtxwt.len();
        let total = self.eptr.len();
        let ew = mode == 1 || mode == 11;
        let vw = mode == 10 || mode == 11;
        let mut out: Vec<Vec<u8>> = Vec::new();

        let mut hvals: Vec<i64> = Vec::new();
        hvals.push(ne as i64);
        hvals.push(nv as i64);
        if mode != 0 {
            hvals.push(mode as i64);
        }
        proof {
            assert(hvals@.map_values(|x: i64| x as int) =~= header_vals(*self, mode as int));
        }
        let hline = join_line(&hvals);
        out.push(hline);
        proof {
            assert(out.deep_view() =~~= target.subrange(0, 1));
        }

        let mut e: usize = 0;
        while e < ne
            invariant
                e <= ne,
                self.wf(),
                ne as int == self.num_edges(),
                nv as int == self.num_vertices(),
                ne <= i64::MAX,
                nv <= i64::MAX,
                mode <= i64::MAX,
                total as int == self.eptr@.len(),
                ew == eweight_of(mode as int),
                target == save_lines_spec(*self, mode as int),
                out.deep_view() == target.subrange(0, 1 + e as int),
            decreases ne - e,
        {
            proof {
                assert(self.eind@[e as int] <= self.eind@[e as int + 1]);
                assert(self.eind@[e as int + 1] <= self.eind@[self.eind@.len() - 1]);
                assert(self.eind@.last() == self.eind@[self.eind@.len() - 1]);
                assert(self.eind@[self.eind@.len() - 1] == self.eptr@.len());
            }
            let start = self.eind[e] as usize;
            let end = self.eind[e + 1] as usize;
            let mut vals: Vec<i64> = Vec::new();
            let mut i2: usize = start;
            while i2 < end
                invariant
                    self.wf(),
                    e < ne,
                    ne as int == self.num_edges(),
                    start as int == self.eind@[e as int] as int,
                    end as int == self.eind@[e as int + 1] as int,
                    start <= i2 <= end,
                    end <= self.eptr@.len(),
                    vals@.len() == i2 as int - start as int,
                    forall|j: int| 0 <= j < vals@.len()
                        ==> #[trigger] vals@[j] as int
                            == self.eptr@[start as int + j] as int + 1,
                decreases end - i2,
            {
                vals.push(self.eptr[i2] as i64 + 1);
                i2 = i2 + 1;
            }
            if ew {
                vals.push(self.hewt[e] as i64);
            }
            proof {
                assert(vals@.map_values(|x: i64| x as int)
                    =~= edge_line_vals(*self, e as int, ew));
            }
            let line = join_line(&vals);
            let ghost old_dv = out.deep_view();
            out.push(line);
            proof {
                assert(out.deep_view() =~~= old_dv.push(line@));
                assert(target.subrange(0, 1 + e as int).push(
                    target[1 + e as int]) =~= target.subrange(0, 2 + e as int));
                assert(target[1 + e as int]
                    == join_ints(edge_line_vals(*self, e as int, ew)));
            }
            e = e + 1;
        }

        if vw {
            let mut v: usize = 0;
            while v < nv
                invariant
                    v <= nv,
                    self.wf(),
                    vw,
                    vw == vweight_of(mode as int),
                    ne as int == self.num_edges(),
                    nv as int == self.num_vertices(),
                    target == save_lines_spec(*self, mode as int),
                    out.deep_view() == target.subrange(0, 1 + ne as int + v as int),
                decreases nv - v,
            {
                let mut vals: Vec<i64> = Vec::new();
                vals.push(self.vtxwt[v] as i64);
                proof {
                    assert(vals@.map_values(|x: i64| x as int)
                        =~= seq![self.vtxwt@[v as int] as int]);
                }
                let line = join_line(&vals);
                let ghost old_dv = out.deep_view();
                out.push(line);
                proof {
                    assert(out.deep_view() =~~= old_dv.push(line@));
                    assert(target.subrange(0, 1 + ne as int + v as int).push(
                        target[1 + ne as int + v as int])
                        =~= target.subrange(0, 2 + ne as int + v as int));
                    assert(target[1 + ne as int + v as int]
                        == join_ints(seq![self.vtxwt@[v as int] as int]));
                }
                v = v + 1;
            }
        }
        proof {
            assert(target.len() == 1 + ne as int + if vw { nv as int } else { 0 });
            assert(out.deep_view() =~= target);
        }
        out
    }
}

/// The values on hyperedge `e`'s saved line: one-based member ids, then
/// the edge weight when the mode carries edge weights.
pub open spec fn edge_line_vals(g: HyperGraph, e: int, ew: bool) -> Seq<int> {
    let ids = Seq::new(
        (g.eind@[e + 1] - g.eind@[e]) as nat,
        |j: int| g.eptr@[g.eind@[e] as int + j] as int + 1,
    );
    if ew {
        ids.push(g.hewt@[e] as int)
    } else {
        ids
    }
}

/// The values on the header line: counts, then the mode when not zero.
pub open spec fn header_vals(g: HyperGraph, mode: int) -> Seq<int> {
    if mode == 0 {
        seq![g.num_edges(), g.num_vertices()]
    } else {
        seq![g.num_edges(), g.num_vertices(), mode]
    }
}

/// Every line of the saved form of `g` under `mode`.
pub open spec fn save_lines_spec(g: HyperGraph, mode: int) -> Seq<Seq<u8>> {
    seq![join_ints(header_vals(g, mode))]
        + Seq::new(g.num_edges() as nat, |e: int| join_ints(edge_line_vals(g, e, eweight_of(mode))))
        + if vweight_of(mode) {
            Seq::new(g.num_vertices() as nat, |v: int| join_ints(seq![g.vtxwt@[v] as int]))
        } else {
            Seq::empty()
        }
}

/// Two offset arrays that start at zero and advance by the same amounts
/// agree everywhere.
proof fn lemma_offsets_agree(a: Seq<u64>, b: Seq<u64>, e: int)
    requires
        a.len() == b.len(),
        a.len() >= 1,
        a[0] == 0,
        b[0] == 0,
        forall|k: int| 0 <= k < a.len() - 1
            ==> #[trigger] a[k + 1] as int - a[k] as int == b[k + 1] as int - b[k] as int,
        0 <= e < a.len(),
    ensures
        a[e] == b[e],
    decreases e,
{
    if e > 0 {
        lemma_offsets_agree(a, b, e - 1);
        let k = e - 1;
        assert(a[k + 1] as int - a[k] as int == b[k + 1] as int - b[k] as int);
        assert(a[k + 1] == a[e] && b[k + 1] == b[e]);
    }
}

/// Two member arrays that agree on every hyperedge's slice agree on the
/// whole prefix the offsets cover.
proof fn lemma_members_prefix(p1: Seq<u32>, p2: Seq<u32>, off: Seq<u64>, e: int)
    requires
        off.len() >= 1,
        off[0] == 0,
        forall|i: int, j: int| 0 <= i <= j < off.len()
            ==> #[trigger] off[i] <= #[trigger] off[j],
        off.last() as int <= p1.len(),
        off.last() as int <= p2.len(),
        forall|k: int| 0 <= k < off.len() - 1
            ==> p1.subrange(#[trigger] off[k] as int, off[k + 1] as int)
                == p2.subrange(off[k] as int, off[k + 1] as int),
        0 <= e < off.len(),
    ensures
        p1.take(off[e] as int) == p2.take(off[e] as int),
    decreases e,
{
    if e > 0 {
        lemma_members_prefix(p1, p2, off, e - 1);
        assert(off.last() == off[off.len() - 1]);
        assert(off[e] <= off[off.len() - 1]);
        assert(p1.take(off[e] as int)
            =~= p1.take(off[e - 1] as int) + p1.subrange(off[e - 1] as int, off[e] as int));
        assert(p2.take(off[e] as int)
            =~= p2.take(off[e - 1] as int) + p2.subrange(off[e - 1] as int, off[e] as int));
    } else {
        assert(p1.take(0) =~= p2.take(0));
    }
}

/// The conditions under which the interchange format can carry `g`
/// faithfully under `mode`: counts fit the header's integers, hyperedge
/// weights are positive, and a weight the mode omits is one.
pub open spec fn save_faithful(g: HyperGraph, mode: int) -> bool {
    &&& g.wf()
    &&& g.eind@.len() == g.num_edges() + 1
    &&& i32::MIN <= mode <= i32::MAX
    &&& g.num_vertices() <= i32::MAX
    &&& g.num_edges() <= i32::MAX
    &&& forall|e: int| 0 <= e < g.num_edges() ==> 1 <= #[trigger] g.hewt@[e]
    &&& (!eweight_of(mode) ==> forall|e: int| 0 <= e < g.num_edges()
        ==> #[trigger] g.hewt@[e] == 1)
    &&& (!vweight_of(mode) ==> forall|v: int| 0 <= v < g.num_vertices()
        ==> #[trigger] g.vtxwt@[v] == 1)
}

proof fn lemma_saved_header(g: HyperGraph, mode: int)
    requires
        save_faithful(g, mode),
    ensures
        save_lines_spec(g, mode).len()
            == 1 + g.num_edges() + if vweight_of(mode) { g.num_vertices() } else { 0 },
        header_spec(save_lines_spec(g, mode)[0])
            == Option::Some((g.num_edges(), g.num_vertices(), mode)),
{
    let lines = save_lines_spec(g, mode);
    let ne = g.num_edges();
    let nv = g.num_vertices();
    let hv = header_vals(g, mode);
    assert(hv[0] == ne && hv[1] == nv);
    assert forall|i: int| 0 <= i < hv.len()
        implies i32::MIN <= #[trigger] hv[i] <= i32::MAX by {}
    lemma_line_ints_join(hv);
    assert(lines[0] == join_ints(hv));
    let hvals32 = Seq::new(hv.len(), |i: int| hv[i] as i32);
    assert(line_ints(lines[0]) == Option::Some(hvals32));
    assert(hvals32[0] == ne as i32 && hvals32[1] == nv as i32);
}

proof fn lemma_saved_edge_line(g: HyperGraph, mode: int, e: int)
    requires
        save_faithful(g, mode),
        0 <= e < g.num_edges(),
    ensures
        edge_line_spec(save_lines_spec(g, mode)[1 + e], eweight_of(mode), g.num_vertices())
            == Option::Some((
                g.eptr@.subrange(g.eind@[e] as int, g.eind@[e + 1] as int),
                g.hewt@[e],
            )),
{
    let lines = save_lines_spec(g, mode);
    let ne = g.num_edges();
    let nv = g.num_vertices();
    let ew = eweight_of(mode);
    assert(g.eind@[e] <= g.eind@[e + 1]);
    assert(g.eind@.last() == g.eind@[g.eind@.len() - 1]);
    assert(g.eind@[e + 1] <= g.eind@[g.eind@.len() - 1]);
    let ev = edge_line_vals(g, e, ew);
    let cnt = g.eind@[e + 1] as int - g.eind@[e] as int;
    assert forall|i: int| 0 <= i < ev.len()
        implies i32::MIN <= #[trigger] ev[i] <= i32::MAX by {
        if i < cnt {
            assert((g.eptr@[g.eind@[e] as int + i] as int) < nv);
        }
    }
    lemma_line_ints_join(ev);
    assert(lines[1 + e] == join_ints(ev));
    let vals = Seq::new(ev.len(), |i: int| ev[i] as i32);
    assert(line_ints(lines[1 + e]) == Option::Some(vals));
    if ew {
        assert(ev[ev.len() - 1] == g.hewt@[e]);
        assert(vals.last() == g.hewt@[e]);
    }
    let msv = if ew { vals.drop_last() } else { vals };
    assert(msv.len() == cnt);
    assert forall|j: int| 0 <= j < msv.len()
        implies 1 <= #[trigger] msv[j] && msv[j] <= nv by {
        assert(msv[j] == vals[j]);
        assert(vals[j] == ev[j] as i32);
        assert(ev[j] == g.eptr@[g.eind@[e] as int + j] as int + 1);
        assert((g.eptr@[g.eind@[e] as int + j] as int) < nv);
    }
    assert(members_in_range(msv, nv));
    assert(edge_line_spec(lines[1 + e], ew, nv) is Some);
    let got = edge_members_at(lines, e, ew, nv);
    assert(got.len() == msv.len());
    assert forall|j: int| 0 <= j < got.len()
        implies #[trigger] got[j] == g.eptr@[g.eind@[e] as int + j] by {
        assert(got[j] == (msv[j] - 1) as u32);
        assert(msv[j] == ev[j] as i32);
        assert(ev[j] == g.eptr@[g.eind@[e] as int + j] as int + 1);
    }
    assert(got =~= g.eptr@.subrange(g.eind@[e] as int, g.eind@[e + 1] as int));
    assert(edge_weight_at(lines, e, ew, nv) == g.hewt@[e]);
}

proof fn lemma_saved_weight_line(g: HyperGraph, mode: int, v: int)
    requires
        save_faithful(g, mode),
        vweight_of(mode),
        0 <= v < g.num_vertices(),
    ensures
        first_int_spec(save_lines_spec(g, mode)[1 + g.num_edges() + v])
            == Option::Some(g.vtxwt@[v]),
{
    let lines = save_lines_spec(g, mode);
    let ne = g.num_edges();
    lemma_line_ints_join(seq![g.vtxwt@[v] as int]);
    assert(lines[1 + ne + v] == join_ints(seq![g.vtxwt@[v] as int]));
    let vals = Seq::new(1, |i: int| seq![g.vtxwt@[v] as int][i] as i32);
    assert(line_ints(lines[1 + ne + v]) == Option::Some(vals));
    assert(vals[0] == g.vtxwt@[v]);
}

/// Saving a well-formed graph and loading the lines back restores its
/// arrays and weights exactly, with every vertex left unassigned. The
/// mode must match the weights it omits: without edge weights every
/// hyperedge weight must be one, without vertex weights every vertex
/// weight must be one, and hyperedge weights must be positive, as the
/// format keeps no others.
#[verifier::rlimit(100)]
pub proof fn lemma_save_load_round_trip(g: HyperGraph, mode: int)
    requires
        save_faithful(g, mode),
    ensures
        load_ok(save_lines_spec(g, mode), Option::None),
        forall|g2: HyperGraph| #[trigger] loaded_graph(save_lines_spec(g, mode), Option::None, g2)
            ==> g2.vtxwt@ == g.vtxwt@ && g2.hewt@ == g.hewt@ && g2.eind@ == g.eind@
                && g2.eptr@ == g.eptr@
                && g2.part@ == Seq::new(g.num_vertices() as nat, |v: int| -1i32),
{
    let lines = save_lines_spec(g, mode);
    let ne = g.num_edges();
    let nv = g.num_vertices();
    let ew = eweight_of(mode);
    let vw = vweight_of(mode);

    lemma_saved_header(g, mode);
    assert forall|e: int| 0 <= e < ne
        implies edge_line_spec(#[trigger] lines[1 + e], ew, nv) == Option::Some((
            g.eptr@.subrange(g.eind@[e] as int, g.eind@[e + 1] as int),
            g.hewt@[e],
        )) by {
        lemma_saved_edge_line(g, mode, e);
    }
    if vw {
        assert forall|v: int| 0 <= v < nv
            implies first_int_spec(#[trigger] lines[1 + ne + v])
                == Option::Some(g.vtxwt@[v]) by {
            lemma_saved_weight_line(g, mode, v);
        }
    }
    assert(load_ok(lines, Option::None));

    // any graph the loader accepts from these lines is `g`, reset
    assert forall|g2: HyperGraph| #[trigger] loaded_graph(lines, Option::None, g2)
        implies g2.vtxwt@ == g.vtxwt@ && g2.hewt@ == g.hewt@ && g2.eind@ == g.eind@
            && g2.eptr@ == g.eptr@
            && g2.part@ == Seq::new(g.num_vertices() as nat, |v: int| -1i32) by {
        lemma_loaded_matches(g, mode, g2);
    }
}

proof fn lemma_loaded_matches(g: HyperGraph, mode: int, g2: HyperGraph)
    requires
        save_faithful(g, mode),
        loaded_graph(save_lines_spec(g, mode), Option::None, g2),
    ensures
        g2.vtxwt@ == g.vtxwt@,
        g2.hewt@ == g.hewt@,
        g2.eind@ == g.eind@,
        g2.eptr@ == g.eptr@,
        g2.part@ == Seq::new(g.num_vertices() as nat, |v: int| -1i32),
{
    lemma_eind_matches(g, mode, g2);
    lemma_eptr_matches(g, mode, g2);
    lemma_weights_match(g, mode, g2);
}

#[verifier::rlimit(100)]
proof fn lemma_eind_matches(g: HyperGraph, mode: int, g2: HyperGraph)
    requires
        save_faithful(g, mode),
        loaded_graph(save_lines_spec(g, mode), Option::None, g2),
    ensures
        g2.eind@ == g.eind@,
{
    let lines = save_lines_spec(g, mode);
    let ne = g.num_edges();
    let nv = g.num_vertices();
    let ew = eweight_of(mode);
    lemma_saved_header(g, mode);
    assert(header_spec(lines[0])->0 == (ne, nv, mode));
    assert forall|k: int| 0 <= k < g.eind@.len() - 1
        implies #[trigger] g.eind@[k + 1] as int - g.eind@[k] as int
            == g2.eind@[k + 1] as int - g2.eind@[k] as int by {
        lemma_saved_edge_line(g, mode, k);
        assert(edge_members_at(lines, k, ew, nv)
            == g.eptr@.subrange(g.eind@[k] as int, g.eind@[k + 1] as int));
        assert(g.eind@[k] <= g.eind@[k + 1]);
    }
    assert forall|e: int| 0 <= e < g.eind@.len()
        implies #[trigger] g2.eind@[e] == g.eind@[e] by {
        lemma_offsets_agree(g.eind@, g2.eind@, e);
    }
    assert(g2.eind@ =~= g.eind@);
}

#[verifier::rlimit(100)]
proof fn lemma_eptr_matches(g: HyperGraph, mode: int, g2: HyperGraph)
    requires
        save_faithful(g, mode),
        loaded_graph(save_lines_spec(g, mode), Option::None, g2),
        g2.eind@ == g.eind@,
    ensures
        g2.eptr@ == g.eptr@,
{
    let lines = save_lines_spec(g, mode);
    let ne = g.num_edges();
    let nv = g.num_vertices();
    let ew = eweight_of(mode);
    lemma_saved_header(g, mode);
    assert(header_spec(lines[0])->0 == (ne, nv, mode));
    assert(g2.eind@.last() == g2.eind@[g2.eind@.len() - 1]);
    assert(g.eind@.last() == g.eind@[g.eind@.len() - 1]);
    assert(g2.eptr@.len() == g.eptr@.len());
    assert forall|k: int| 0 <= k < g.eind@.len() - 1
        implies g.eptr@.subrange(#[trigger] g.eind@[k] as int, g.eind@[k + 1] as int)
            == g2.eptr@.subrange(g.eind@[k] as int, g.eind@[k + 1] as int) by {
        lemma_saved_edge_line(g, mode, k);
        assert(g2.eptr@.subrange(g2.eind@[k] as int, g2.eind@[k + 1] as int)
            == edge_members_at(lines, k, ew, nv));
    }
    lemma_members_prefix(g.eptr@, g2.eptr@, g.eind@, g.eind@.len() - 1);
    assert(g.eptr@.take(g.eind@[g.eind@.len() - 1] as int) =~= g.eptr@);
    assert(g2.eptr@.take(g.eind@[g.eind@.len() - 1] as int) =~= g2.eptr@);
}

#[verifier::rlimit(100)]
proof fn lemma_weights_match(g: HyperGraph, mode: int, g2: HyperGraph)
    requires
        save_faithful(g, mode),
        loaded_graph(save_lines_spec(g, mode), Option::None, g2),
    ensures
        g2.hewt@ == g.hewt@,
        g2.vtxwt@ == g.vtxwt@,
        g2.part@ == Seq::new(g.num_vertices() as nat, |v: int| -1i32),
{
    let lines = save_lines_spec(g, mode);
    let ne = g.num_edges();
    let nv = g.num_vertices();
    let ew = eweight_of(mode);
    let vw = vweight_of(mode);
    lemma_saved_header(g, mode);
    assert(header_spec(lines[0])->0 == (ne, nv, mode));
    assert(g2.hewt@ =~= g.hewt@) by {
        assert forall|e: int| 0 <= e < ne
            implies #[trigger] g2.hewt@[e] == g.hewt@[e] by {
            lemma_saved_edge_line(g, mode, e);
            assert(g2.hewt@[e] == edge_weight_at(lines, e, ew, nv));
        }
    }
    assert(g2.vtxwt@ =~= g.vtxwt@) by {
        assert forall|v: int| 0 <= v < nv
            implies #[trigger] g2.vtxwt@[v] == g.vtxwt@[v] by {
            if vw {
                lemma_saved_weight_line(g, mode, v);
            }
        }
    }
    assert(g2.part@ =~= Seq::new(g.num_vertices() as nat, |v: int| -1i32));
}

} // verus!
