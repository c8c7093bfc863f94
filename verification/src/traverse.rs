//! The traversal engine: multi-source breadth-first hop distances and
//! single-source shortest paths with per-hyperedge costs. Distances use
//! the sentinel `2 * V` as "infinite", larger than any real hop distance
//! in a graph of `V` vertices.

use std::collections::VecDeque;

use vstd::prelude::*;

use crate::hypergraph::HyperGraph;

verus! {

/// Whether `v` is one of the listed source vertices.
pub open spec fn is_source(srcs: Seq<usize>, v: int) -> bool {
    exists|i: int| 0 <= i < srcs.len() && #[trigger] srcs[i] as int == v
}

/// A walk from a source: it starts at a source vertex, stays in range,
/// and each consecutive pair of vertices shares a hyperedge.
pub open spec fn is_walk(g: HyperGraph, srcs: Seq<usize>, p: Seq<int>) -> bool {
    &&& p.len() >= 1
    &&& is_source(srcs, p[0])
    &&& forall|i: int| 0 <= i < p.len() ==> 0 <= #[trigger] p[i] < g.num_vertices()
    &&& forall|i: int| 1 <= i < p.len() ==> g.adjacent(p[i - 1], #[trigger] p[i])
}

/// Whether `v` can be reached from a source in at most `n` hyperedge hops.
pub open spec fn reach_within(g: HyperGraph, srcs: Seq<usize>, v: int, n: int) -> bool {
    exists|p: Seq<int>| #[trigger] is_walk(g, srcs, p) && p.len() <= n + 1 && p.last() == v
}

/// A source vertex is reached in no hops.
pub proof fn lemma_reach_refl(g: HyperGraph, srcs: Seq<usize>, v: int)
    requires
        is_source(srcs, v),
        0 <= v < g.num_vertices(),
    ensures
        reach_within(g, srcs, v, 0),
{
    let p = seq![v];
    assert(p[0] == v && p.last() == v);
    assert(is_walk(g, srcs, p));
}

/// Reachability within `n` hops implies reachability within more.
pub proof fn lemma_reach_mono(g: HyperGraph, srcs: Seq<usize>, v: int, n: int, m: int)
    requires
        reach_within(g, srcs, v, n),
        n <= m,
    ensures
        reach_within(g, srcs, v, m),
{
    let p = choose|p: Seq<int>| #[trigger] is_walk(g, srcs, p) && p.len() <= n + 1
        && p.last() == v;
    assert(is_walk(g, srcs, p) && p.len() <= m + 1 && p.last() == v);
}

/// One more hop from a reached vertex stays reached.
pub proof fn lemma_reach_step(g: HyperGraph, srcs: Seq<usize>, u: int, v: int, n: int)
    requires
        reach_within(g, srcs, u, n),
        g.adjacent(u, v),
        0 <= u < g.num_vertices(),
        0 <= v < g.num_vertices(),
        n >= 0,
    ensures
        reach_within(g, srcs, v, n + 1),
{
    let p = choose|p: Seq<int>| #[trigger] is_walk(g, srcs, p) && p.len() <= n + 1
        && p.last() == u;
    assert(is_walk(g, srcs, p) && p.last() == u);
    let q = p.push(v);
    assert(q[0] == p[0]);
    assert forall|i: int| 0 <= i < q.len() implies 0 <= #[trigger] q[i] < g.num_vertices() by {
        if i < p.len() {
            assert(q[i] == p[i]);
        }
    }
    assert forall|i: int| 1 <= i < q.len() implies g.adjacent(q[i - 1], #[trigger] q[i]) by {
        if i < p.len() {
            assert(q[i] == p[i] && q[i - 1] == p[i - 1]);
        } else {
            assert(q[i - 1] == p[p.len() - 1] && q[i] == v);
        }
    }
    assert(is_walk(g, srcs, q));
    assert(q.len() <= n + 2 && q.last() == v);
}

/// Sum of a distance vector, for the traversal termination measures.
pub open spec fn dist_total(d: Seq<usize>) -> nat
    decreases d.len(),
{
    if d.len() == 0 {
        0
    } else {
        dist_total(d.drop_last()) + d.last() as nat
    }
}

proof fn lemma_dist_total_update(d: Seq<usize>, i: int, x: usize)
    requires
        0 <= i < d.len(),
    ensures
        dist_total(d.update(i, x)) == dist_total(d) - d[i] + x,
    decreases d.len(),
{
    if i == d.len() - 1 {
        assert(d.update(i, x).drop_last() =~= d.drop_last());
        assert(d.update(i, x).last() == x);
    } else {
        lemma_dist_total_update(d.drop_last(), i, x);
        assert(d.update(i, x).drop_last() =~= d.drop_last().update(i, x));
        assert(d.update(i, x).last() == d.last());
    }
}

/// What a breadth-first pass guarantees of its distance vector `d`:
/// lengths and the sentinel bound, zero exactly on the sources, every
/// finite distance within one hop past the budget and witnessed by a
/// walk, and no relaxed vertex's neighbor more than one hop further.
pub open spec fn bfs_post(
    g: HyperGraph,
    srcs: Seq<usize>,
    limit: int,
    d: Seq<usize>,
) -> bool {
    let inf = 2 * g.num_vertices();
    &&& d.len() == g.num_vertices()
    &&& forall|v: int| 0 <= v < d.len() ==> #[trigger] d[v] <= inf
    &&& forall|v: int| 0 <= v < d.len() ==> ((#[trigger] d[v] == 0) <==> is_source(srcs, v))
    &&& forall|v: int| 0 <= v < d.len() && #[trigger] d[v] < inf ==> d[v] <= limit + 1
    &&& forall|v: int| 0 <= v < d.len() && #[trigger] d[v] < inf
        ==> reach_within(g, srcs, v, d[v] as int)
    &&& forall|v: int, w: int| 0 <= v < d.len() && 0 <= w < d.len()
        && d[v] < inf && d[v] <= limit && #[trigger] g.adjacent(v, w)
        ==> d[w] as int <= d[v] as int + 1
}

/// Along a short-enough walk, breadth-first distances grow by at most
/// one per hop, so the walk's end is bounded by its hop count.
proof fn lemma_walk_bound(
    g: HyperGraph,
    srcs: Seq<usize>,
    limit: int,
    d: Seq<usize>,
    p: Seq<int>,
)
    requires
        bfs_post(g, srcs, limit, d),
        is_walk(g, srcs, p),
        p.len() - 1 <= limit + 1,
        p.len() - 1 < 2 * g.num_vertices(),
    ensures
        d[p.last()] as int <= p.len() - 1,
    decreases p.len(),
{
    let inf = 2 * g.num_vertices();
    if p.len() == 1 {
        assert(d[p.last()] == 0);
    } else {
        let q = p.drop_last();
        assert(q[0] == p[0]);
        assert forall|i: int| 0 <= i < q.len() implies 0 <= #[trigger] q[i] < g.num_vertices() by {
            assert(q[i] == p[i]);
        }
        assert forall|i: int| 1 <= i < q.len() implies g.adjacent(q[i - 1], #[trigger] q[i]) by {
            assert(q[i] == p[i] && q[i - 1] == p[i - 1]);
        }
        assert(is_walk(g, srcs, q));
        lemma_walk_bound(g, srcs, limit, d, q);
        assert(d[q.last()] as int <= p.len() - 2);
        assert(g.adjacent(p[p.len() - 2], p[p.len() - 1]));
        assert(q.last() == p[p.len() - 2]);
        assert(d[p[p.len() - 2]] < inf && d[p[p.len() - 2]] <= limit);
        assert(d[p.last()] as int <= d[p[p.len() - 2]] as int + 1);
    }
}

/// Any vertex reachable within the hop budget is bounded by the
/// breadth-first distances: `d[v] <= n` for a walk of `n` hops.
pub proof fn lemma_bfs_complete(
    g: HyperGraph,
    srcs: Seq<usize>,
    limit: int,
    d: Seq<usize>,
    v: int,
    n: int,
)
    requires
        bfs_post(g, srcs, limit, d),
        reach_within(g, srcs, v, n),
        0 <= n,
        n <= limit + 1,
        n < 2 * g.num_vertices(),
    ensures
        0 <= v < d.len(),
        d[v] as int <= n,
{
    let p = choose|p: Seq<int>| #[trigger] is_walk(g, srcs, p) && p.len() <= n + 1
        && p.last() == v;
    assert(0 <= p.last() < g.num_vertices());
    lemma_walk_bound(g, srcs, limit, d, p);
}

/// A distance is finite exactly when the vertex is reachable within one
/// hop past the budget.
pub proof fn lemma_bfs_reachable_iff(
    g: HyperGraph,
    srcs: Seq<usize>,
    limit: int,
    d: Seq<usize>,
    v: int,
)
    requires
        bfs_post(g, srcs, limit, d),
        0 <= v < d.len(),
    ensures
        d[v] < 2 * g.num_vertices() <==> exists|n: int|
            0 <= n <= limit + 1 && n < 2 * g.num_vertices()
            && reach_within(g, srcs, v, n),
{
    let inf = 2 * g.num_vertices();
    if d[v] < inf {
        assert(reach_within(g, srcs, v, d[v] as int));
        assert(0 <= d[v] as int <= limit + 1 && (d[v] as int) < inf
            && reach_within(g, srcs, v, d[v] as int));
    }
    if exists|n: int| 0 <= n <= limit + 1 && n < inf && reach_within(g, srcs, v, n) {
        let n = choose|n: int| 0 <= n <= limit + 1 && n < inf && reach_within(g, srcs, v, n);
        lemma_bfs_complete(g, srcs, limit, d, v, n);
    }
}

/// A walk paired with the hyperedges it crosses: edge `i` joins vertex
/// `i` to vertex `i + 1`.
pub open spec fn is_cost_walk(
    g: HyperGraph,
    srcs: Seq<usize>,
    vs: Seq<int>,
    es: Seq<int>,
) -> bool {
    &&& vs.len() >= 1
    &&& es.len() == vs.len() - 1
    &&& is_source(srcs, vs[0])
    &&& forall|i: int| 0 <= i < vs.len() ==> 0 <= #[trigger] vs[i] < g.num_vertices()
    &&& forall|i: int| 0 <= i < es.len() ==> 0 <= #[trigger] es[i] < g.num_edges()
        && g.edge_has(es[i], vs[i]) && g.edge_has(es[i], vs[i + 1])
}

/// Total cost of crossing the listed hyperedges.
pub open spec fn walk_cost(cost: Seq<usize>, es: Seq<int>) -> int
    decreases es.len(),
{
    if es.len() == 0 {
        0
    } else {
        walk_cost(cost, es.drop_last()) + cost[es.last()]
    }
}

pub proof fn lemma_walk_cost_nonneg(cost: Seq<usize>, es: Seq<int>)
    ensures
        walk_cost(cost, es) >= 0,
    decreases es.len(),
{
    if es.len() > 0 {
        lemma_walk_cost_nonneg(cost, es.drop_last());
    }
}

/// With every edge cost one, a walk's cost is its hop count.
pub proof fn lemma_walk_cost_unit(cost: Seq<usize>, es: Seq<int>)
    requires
        forall|i: int| 0 <= i < es.len() ==> 0 <= #[trigger] es[i] < cost.len(),
        forall|e: int| 0 <= e < cost.len() ==> #[trigger] cost[e] == 1,
    ensures
        walk_cost(cost, es) == es.len(),
    decreases es.len(),
{
    if es.len() > 0 {
        assert forall|i: int| 0 <= i < es.drop_last().len()
            implies 0 <= #[trigger] es.drop_last()[i] < cost.len() by {
            assert(es.drop_last()[i] == es[i]);
        }
        lemma_walk_cost_unit(cost, es.drop_last());
    }
}

/// `v` reachable from a source at total crossing cost at most `c`.
pub open spec fn cost_reach(
    g: HyperGraph,
    srcs: Seq<usize>,
    cost: Seq<usize>,
    v: int,
    c: int,
) -> bool {
    exists|vs: Seq<int>, es: Seq<int>| #[trigger] is_cost_walk(g, srcs, vs, es)
        && walk_cost(cost, es) <= c && vs.last() == v
}

/// A source vertex is reached at no cost.
pub proof fn lemma_cost_reach_refl(g: HyperGraph, srcs: Seq<usize>, cost: Seq<usize>, v: int)
    requires
        is_source(srcs, v),
        0 <= v < g.num_vertices(),
    ensures
        cost_reach(g, srcs, cost, v, 0),
{
    let vs = seq![v];
    let es = Seq::<int>::empty();
    assert(vs[0] == v && vs.last() == v);
    assert(is_cost_walk(g, srcs, vs, es));
    assert(walk_cost(cost, es) == 0);
}

/// Crossing one more hyperedge adds its cost.
pub proof fn lemma_cost_reach_step(
    g: HyperGraph,
    srcs: Seq<usize>,
    cost: Seq<usize>,
    u: int,
    e: int,
    v: int,
    c: int,
)
    requires
        cost_reach(g, srcs, cost, u, c),
        0 <= e < g.num_edges(),
        g.edge_has(e, u),
        g.edge_has(e, v),
        0 <= u < g.num_vertices(),
        0 <= v < g.num_vertices(),
    ensures
        cost_reach(g, srcs, cost, v, c + cost[e]),
{
    let (vs, es) = choose|vs: Seq<int>, es: Seq<int>|
        #[trigger] is_cost_walk(g, srcs, vs, es)
        && walk_cost(cost, es) <= c && vs.last() == u;
    let vs2 = vs.push(v);
    let es2 = es.push(e);
    assert(vs2[0] == vs[0]);
    assert forall|i: int| 0 <= i < vs2.len() implies 0 <= #[trigger] vs2[i] < g.num_vertices() by {
        if i < vs.len() {
            assert(vs2[i] == vs[i]);
        }
    }
    assert forall|i: int| 0 <= i < es2.len() implies 0 <= #[trigger] es2[i] < g.num_edges()
        && g.edge_has(es2[i], vs2[i]) && g.edge_has(es2[i], vs2[i + 1]) by {
        if i < es.len() {
            assert(es2[i] == es[i] && vs2[i] == vs[i] && vs2[i + 1] == vs[i + 1]);
        } else {
            assert(es2[i] == e && vs2[i] == vs[vs.len() - 1] && vs2[i + 1] == v);
            assert(vs[vs.len() - 1] == u);
        }
    }
    assert(is_cost_walk(g, srcs, vs2, es2));
    assert(es2.drop_last() =~= es);
    assert(walk_cost(cost, es2) == walk_cost(cost, es) + cost[e]);
    assert(vs2.last() == v);
}

/// Whether `v` has been fully relaxed: along each of its hyperedges,
/// no co-member sits more than that hyperedge's cost further.
pub open spec fn relaxed_at(g: HyperGraph, cost: Seq<usize>, d: Seq<usize>, v: int) -> bool {
    forall|e: int, w: int| 0 <= e < g.num_edges() && 0 <= w < d.len()
        && #[trigger] g.edge_has(e, v) && #[trigger] g.edge_has(e, w)
        ==> d[w] as int <= d[v] as int + cost[e]
}

/// What a shortest-path pass guarantees of its distance vector `d`:
/// lengths and the sentinel bound, sources at zero, every finite
/// distance witnessed by a walk of that cost, and every finite vertex
/// fully relaxed along each of its hyperedges.
pub open spec fn dijkstra_post(
    g: HyperGraph,
    srcs: Seq<usize>,
    cost: Seq<usize>,
    d: Seq<usize>,
) -> bool {
    let inf = 2 * g.num_vertices();
    &&& d.len() == g.num_vertices()
    &&& forall|v: int| 0 <= v < d.len() ==> #[trigger] d[v] <= inf
    &&& forall|i: int| 0 <= i < srcs.len() ==> d[#[trigger] srcs[i] as int] == 0
    &&& forall|v: int| 0 <= v < d.len() && #[trigger] d[v] < inf
        ==> cost_reach(g, srcs, cost, v, d[v] as int)
    &&& forall|v: int| 0 <= v < d.len() && #[trigger] d[v] < inf
        ==> relaxed_at(g, cost, d, v)
}

/// Along a cheap-enough walk, the recorded distances grow by at most
/// each crossed edge's cost, so the walk's end is bounded by its cost.
proof fn lemma_cost_walk_bound(
    g: HyperGraph,
    srcs: Seq<usize>,
    cost: Seq<usize>,
    d: Seq<usize>,
    vs: Seq<int>,
    es: Seq<int>,
)
    requires
        dijkstra_post(g, srcs, cost, d),
        is_cost_walk(g, srcs, vs, es),
        walk_cost(cost, es) < 2 * g.num_vertices(),
    ensures
        d[vs.last()] as int <= walk_cost(cost, es),
    decreases vs.len(),
{
    let inf = 2 * g.num_vertices();
    if vs.len() == 1 {
        let i = choose|i: int| 0 <= i < srcs.len() && #[trigger] srcs[i] as int == vs[0];
        assert(d[srcs[i] as int] == 0);
        lemma_walk_cost_nonneg(cost, es);
    } else {
        let vs2 = vs.drop_last();
        let es2 = es.drop_last();
        assert(vs2[0] == vs[0]);
        assert forall|i: int| 0 <= i < vs2.len()
            implies 0 <= #[trigger] vs2[i] < g.num_vertices() by {
            assert(vs2[i] == vs[i]);
        }
        assert forall|i: int| 0 <= i < es2.len() implies 0 <= #[trigger] es2[i] < g.num_edges()
            && g.edge_has(es2[i], vs2[i]) && g.edge_has(es2[i], vs2[i + 1]) by {
            assert(es2[i] == es[i] && vs2[i] == vs[i]);
            if i + 1 < vs2.len() {
                assert(vs2[i + 1] == vs[i + 1]);
            }
        }
        assert(is_cost_walk(g, srcs, vs2, es2));
        let e = es[es.len() - 1];
        assert(walk_cost(cost, es) == walk_cost(cost, es2) + cost[e]);
        assert(walk_cost(cost, es2) < inf);
        lemma_cost_walk_bound(g, srcs, cost, d, vs2, es2);
        assert(d[vs2.last()] as int <= walk_cost(cost, es2));
        assert(g.edge_has(e, vs[vs.len() - 2]) && g.edge_has(e, vs[vs.len() - 1]));
        assert(vs2.last() == vs[vs.len() - 2]);
        assert(d[vs[vs.len() - 2]] < inf);
        assert(relaxed_at(g, cost, d, vs[vs.len() - 2]));
        assert(d[vs.last()] as int <= d[vs[vs.len() - 2]] as int + cost[e]);
    }
}

/// Any vertex reachable at a cost below the sentinel is bounded by the
/// shortest-path distances.
pub proof fn lemma_dijkstra_complete(
    g: HyperGraph,
    srcs: Seq<usize>,
    cost: Seq<usize>,
    d: Seq<usize>,
    v: int,
    c: int,
)
    requires
        dijkstra_post(g, srcs, cost, d),
        cost_reach(g, srcs, cost, v, c),
        c < 2 * g.num_vertices(),
    ensures
        0 <= v < d.len(),
        d[v] as int <= c,
{
    let (vs, es) = choose|vs: Seq<int>, es: Seq<int>|
        #[trigger] is_cost_walk(g, srcs, vs, es)
        && walk_cost(cost, es) <= c && vs.last() == v;
    assert(0 <= vs.last() < g.num_vertices());
    lemma_cost_walk_bound(g, srcs, cost, d, vs, es);
}

/// With unit costs, a walk of `n` hops is a cost walk of cost `n`.
proof fn lemma_unit_walk_to_cost(
    g: HyperGraph,
    srcs: Seq<usize>,
    cost: Seq<usize>,
    p: Seq<int>,
    c: int,
)
    requires
        is_walk(g, srcs, p),
        cost.len() == g.num_edges(),
        forall|e: int| 0 <= e < cost.len() ==> #[trigger] cost[e] == 1,
        c >= p.len() - 1,
    ensures
        cost_reach(g, srcs, cost, p.last(), c),
{
    let es = Seq::new((p.len() - 1) as nat, |i: int| choose|e: int| 0 <= e < g.num_edges()
        && #[trigger] g.edge_has(e, p[i]) && g.edge_has(e, p[i + 1]));
    assert forall|i: int| 0 <= i < es.len() implies 0 <= #[trigger] es[i] < g.num_edges()
        && g.edge_has(es[i], p[i]) && g.edge_has(es[i], p[i + 1]) by {
        assert(g.adjacent(p[i], p[i + 1]));
        let e0 = choose|e: int| 0 <= e < g.num_edges()
            && #[trigger] g.edge_has(e, p[i]) && g.edge_has(e, p[i + 1]);
        assert(es[i] == e0);
    }
    assert(is_cost_walk(g, srcs, p, es));
    lemma_walk_cost_unit(cost, es);
    assert(walk_cost(cost, es) <= c);
}

/// With unit costs, a cost walk of cost `c` is a walk of `c` hops.
proof fn lemma_unit_cost_to_walk(
    g: HyperGraph,
    srcs: Seq<usize>,
    cost: Seq<usize>,
    vs: Seq<int>,
    es: Seq<int>,
)
    requires
        is_cost_walk(g, srcs, vs, es),
        cost.len() == g.num_edges(),
        forall|e: int| 0 <= e < cost.len() ==> #[trigger] cost[e] == 1,
    ensures
        reach_within(g, srcs, vs.last(), walk_cost(cost, es)),
{
    assert forall|i: int| 1 <= i < vs.len() implies g.adjacent(vs[i - 1], #[trigger] vs[i]) by {
        let e = es[i - 1];
        assert(0 <= e < g.num_edges() && g.edge_has(e, vs[i - 1]) && g.edge_has(e, vs[i]));
    }
    assert(is_walk(g, srcs, vs));
    lemma_walk_cost_unit(cost, es);
    assert(vs.len() <= walk_cost(cost, es) + 1);
}

proof fn lemma_unit_dd_le_db(
    g: HyperGraph,
    srcs: Seq<usize>,
    limit: int,
    cost: Seq<usize>,
    db: Seq<usize>,
    dd: Seq<usize>,
    v: int,
)
    requires
        bfs_post(g, srcs, limit, db),
        dijkstra_post(g, srcs, cost, dd),
        cost.len() == g.num_edges(),
        forall|e: int| 0 <= e < cost.len() ==> #[trigger] cost[e] == 1,
        0 <= v < db.len(),
        db[v] < 2 * g.num_vertices(),
    ensures
        dd[v] as int <= db[v] as int,
{
    assert(reach_within(g, srcs, v, db[v] as int));
    let p = choose|p: Seq<int>| #[trigger] is_walk(g, srcs, p)
        && p.len() <= db[v] as int + 1 && p.last() == v;
    lemma_unit_walk_to_cost(g, srcs, cost, p, db[v] as int);
    lemma_dijkstra_complete(g, srcs, cost, dd, v, db[v] as int);
}

proof fn lemma_unit_db_le_dd(
    g: HyperGraph,
    srcs: Seq<usize>,
    limit: int,
    cost: Seq<usize>,
    db: Seq<usize>,
    dd: Seq<usize>,
    v: int,
)
    requires
        bfs_post(g, srcs, limit, db),
        dijkstra_post(g, srcs, cost, dd),
        cost.len() == g.num_edges(),
        forall|e: int| 0 <= e < cost.len() ==> #[trigger] cost[e] == 1,
        limit >= 2 * g.num_vertices(),
        0 <= v < dd.len(),
        dd[v] < 2 * g.num_vertices(),
    ensures
        db[v] as int <= dd[v] as int,
{
    assert(cost_reach(g, srcs, cost, v, dd[v] as int));
    let (vs, es) = choose|vs: Seq<int>, es: Seq<int>|
        #[trigger] is_cost_walk(g, srcs, vs, es)
        && walk_cost(cost, es) <= dd[v] as int && vs.last() == v;
    lemma_unit_cost_to_walk(g, srcs, cost, vs, es);
    lemma_walk_cost_nonneg(cost, es);
    lemma_reach_mono(g, srcs, v, walk_cost(cost, es), dd[v] as int);
    lemma_bfs_complete(g, srcs, limit, db, v, dd[v] as int);
}

/// With every edge cost one and an unbounded hop budget, the
/// shortest-path distances equal the breadth-first distances.
pub proof fn lemma_dijkstra_matches_bfs(
    g: HyperGraph,
    srcs: Seq<usize>,
    limit: int,
    cost: Seq<usize>,
    db: Seq<usize>,
    dd: Seq<usize>,
)
    requires
        bfs_post(g, srcs, limit, db),
        dijkstra_post(g, srcs, cost, dd),
        cost.len() == g.num_edges(),
        forall|e: int| 0 <= e < cost.len() ==> #[trigger] cost[e] == 1,
        limit >= 2 * g.num_vertices(),
    ensures
        db == dd,
{
    let inf = 2 * g.num_vertices();
    assert forall|v: int| 0 <= v < db.len() implies #[trigger] db[v] == dd[v] by {
        if db[v] < inf {
            lemma_unit_dd_le_db(g, srcs, limit, cost, db, dd, v);
        }
        if dd[v] < inf {
            lemma_unit_db_le_dd(g, srcs, limit, cost, db, dd, v);
        }
    }
    assert(db =~= dd);
}

proof fn lemma_contains_remove<A>(s: Seq<A>, i: int, x: A)
    requires
        0 <= i < s.len(),
        s.contains(x),
        s[i] != x,
    ensures
        s.remove(i).contains(x),
{
    let w = choose|w: int| 0 <= w < s.len() && s[w] == x;
    if w < i {
        assert(s.remove(i)[w] == x);
    } else {
        assert(s.remove(i)[w - 1] == x);
    }
}

/// Every finite distance is witnessed by a walk of that cost.
pub open spec fn dists_sound(
    g: HyperGraph,
    srcs: Seq<usize>,
    cost: Seq<usize>,
    d: Seq<usize>,
) -> bool {
    forall|v: int| 0 <= v < d.len() && #[trigger] d[v] < 2 * g.num_vertices()
        ==> cost_reach(g, srcs, cost, v, d[v] as int)
}

/// Every queue entry names an in-range vertex whose recorded distance is
/// finite and no larger than the entry's.
pub open spec fn pq_ok(d: Seq<usize>, pq: Seq<(usize, usize)>, nv: int, inf: int) -> bool {
    forall|k: int| 0 <= k < pq.len() ==> (#[trigger] pq[k].1 as int) < nv
        && d[pq[k].1 as int] <= pq[k].0 && (d[pq[k].1 as int] as int) < inf
}

/// Every finite vertex but `except` is queued at its current distance or
/// already fully relaxed.
pub open spec fn queued_or_relaxed(
    g: HyperGraph,
    cost: Seq<usize>,
    d: Seq<usize>,
    pq: Seq<(usize, usize)>,
    except: int,
) -> bool {
    forall|v: int| 0 <= v < d.len() && #[trigger] d[v] < 2 * g.num_vertices() && v != except
        ==> pq.contains((d[v], v as usize)) || relaxed_at(g, cost, d, v)
}

/// Every incidence row lists only hyperedges that contain its vertex.
pub open spec fn rows_sound(g: HyperGraph, rows: Seq<Vec<usize>>) -> bool {
    forall|v: int, j: int| 0 <= v < rows.len() && 0 <= j < rows[v]@.len()
        ==> (#[trigger] rows[v]@[j] as int) < g.num_edges()
            && g.edge_has(rows[v]@[j] as int, v)
}

/// Every incidence row lists every hyperedge that contains its vertex.
pub open spec fn rows_complete(g: HyperGraph, rows: Seq<Vec<usize>>) -> bool {
    forall|v: int, e: int| 0 <= v < rows.len() && 0 <= e < g.num_edges()
        && #[trigger] g.edge_has(e, v) ==> rows[v]@.contains(e as usize)
}

/// Removing one queue entry keeps every other finite vertex either
/// queued at its current distance or fully relaxed.
proof fn lemma_pq_remove_keeps(
    g: HyperGraph,
    cost: Seq<usize>,
    d: Seq<usize>,
    q0: Seq<(usize, usize)>,
    mi: int,
)
    requires
        0 <= mi < q0.len(),
        queued_or_relaxed(g, cost, d, q0, -1),
    ensures
        forall|v: int| 0 <= v < d.len() && #[trigger] d[v] < 2 * g.num_vertices()
            && (d[v], v as usize) != q0[mi]
            ==> q0.remove(mi).contains((d[v], v as usize)) || relaxed_at(g, cost, d, v),
{
    assert forall|v: int| 0 <= v < d.len() && #[trigger] d[v] < 2 * g.num_vertices()
        && (d[v], v as usize) != q0[mi]
        implies q0.remove(mi).contains((d[v], v as usize)) || relaxed_at(g, cost, d, v) by {
        if q0.contains((d[v], v as usize)) {
            lemma_contains_remove(q0, mi, (d[v], v as usize));
        }
    }
}

/// One relaxation step preserves the shortest-path loop's state: the new
/// entry is queued, the shortened distance is still witnessed, and every
/// other vertex keeps its standing.
proof fn lemma_relax_update(
    g: HyperGraph,
    srcs: Seq<usize>,
    cost: Seq<usize>,
    d0: Seq<usize>,
    q0: Seq<(usize, usize)>,
    vertex: int,
    e: int,
    nb: int,
    cand: usize,
    d1: Seq<usize>,
    q1: Seq<(usize, usize)>,
)
    requires
        d1 == d0.update(nb, cand),
        q1 == q0.push((cand, nb as usize)),
        0 <= nb < d0.len(),
        0 <= vertex < d0.len(),
        d0.len() == g.num_vertices(),
        0 <= e < g.num_edges(),
        cost.len() == g.num_edges(),
        g.edge_has(e, vertex),
        g.edge_has(e, nb),
        cand as int == d0[vertex] as int + cost[e],
        (cand as int) < d0[nb] as int,
        (d0[vertex] as int) < 2 * g.num_vertices(),
        forall|i: int| 0 <= i < srcs.len()
            ==> (#[trigger] srcs[i] as int) < g.num_vertices(),
        forall|v: int| 0 <= v < d0.len() ==> #[trigger] d0[v] <= 2 * g.num_vertices(),
        forall|i: int| 0 <= i < srcs.len() ==> d0[#[trigger] srcs[i] as int] == 0,
        dists_sound(g, srcs, cost, d0),
        pq_ok(d0, q0, g.num_vertices(), 2 * g.num_vertices()),
        queued_or_relaxed(g, cost, d0, q0, vertex),
    ensures
        d1.len() == d0.len(),
        d1[vertex] == d0[vertex],
        forall|v: int| 0 <= v < d1.len() ==> #[trigger] d1[v] <= 2 * g.num_vertices(),
        forall|i: int| 0 <= i < srcs.len() ==> d1[#[trigger] srcs[i] as int] == 0,
        dists_sound(g, srcs, cost, d1),
        pq_ok(d1, q1, g.num_vertices(), 2 * g.num_vertices()),
        queued_or_relaxed(g, cost, d1, q1, vertex),
{
    let inf = 2 * g.num_vertices();
    assert(nb != vertex);
    assert forall|i: int| 0 <= i < srcs.len()
        implies d1[#[trigger] srcs[i] as int] == 0 by {
        if srcs[i] as int == nb {
            assert(d0[nb] == 0);
            assert(false);
        }
    }
    assert(dists_sound(g, srcs, cost, d1)) by {
        assert forall|v: int| 0 <= v < d1.len() && #[trigger] d1[v] < inf
            implies cost_reach(g, srcs, cost, v, d1[v] as int) by {
            if v == nb {
                assert(cost_reach(g, srcs, cost, vertex, d0[vertex] as int));
                lemma_cost_reach_step(g, srcs, cost, vertex, e, nb, d0[vertex] as int);
            } else {
                assert(d1[v] == d0[v]);
            }
        }
    };
    assert(pq_ok(d1, q1, g.num_vertices(), inf)) by {
        assert forall|k: int| 0 <= k < q1.len()
            implies (#[trigger] q1[k].1 as int) < g.num_vertices()
                && d1[q1[k].1 as int] <= q1[k].0
                && (d1[q1[k].1 as int] as int) < inf by {
            if k < q0.len() {
                assert(q1[k] == q0[k]);
                if q0[k].1 as int == nb {
                    assert(d1[nb] <= d0[nb]);
                }
            } else {
                assert(q1[k] == (cand, nb as usize));
            }
        }
    };
    assert(queued_or_relaxed(g, cost, d1, q1, vertex)) by {
        assert forall|v: int| 0 <= v < d1.len() && #[trigger] d1[v] < inf && v != vertex
            implies q1.contains((d1[v], v as usize)) || relaxed_at(g, cost, d1, v) by {
            if v == nb {
                assert(q1[q1.len() - 1] == (cand, nb as usize));
                assert(q1.contains((d1[v], v as usize)));
            } else {
                assert(d1[v] == d0[v]);
                if q0.contains((d0[v], v as usize)) {
                    let w = choose|w: int| 0 <= w < q0.len()
                        && q0[w] == (d0[v], v as usize);
                    assert(q1[w] == (d1[v], v as usize));
                } else if relaxed_at(g, cost, d0, v) {
                    assert forall|e2: int, w: int| 0 <= e2 < g.num_edges()
                        && 0 <= w < d1.len()
                        && #[trigger] g.edge_has(e2, v) && #[trigger] g.edge_has(e2, w)
                        implies d1[w] as int <= d1[v] as int + cost[e2] by {
                        assert(d0[w] as int <= d0[v] as int + cost[e2]);
                        assert(d1[w] <= d0[w]);
                    }
                    assert(relaxed_at(g, cost, d1, v));
                }
            }
        }
    };
}

impl HyperGraph {
    /// Multi-source breadth-first distances in hyperedge hops: two
    /// vertices are one hop apart when they share a hyperedge. Sources
    /// start at distance zero; a vertex whose recorded distance exceeds
    /// `limit` is not expanded further; `2 * V` stands for unreachable.
    pub fn bfs(&self, sources: &Vec<usize>, limit: usize) -> (r: Vec<usize>)
        requires
            self.wf(),
            forall|i: int| 0 <= i < sources@.len()
                ==> (#[trigger] sources@[i] as int) < self.num_vertices(),
            2 * self.num_vertices() <= usize::MAX,
        ensures
            bfs_post(*self, sources@, limit as int, r@),
    {
        let nv = self.vtxwt.len();
        let inf: usize = nv * 2;
        let ghost srcs = sources@;
        let ghost g = *self;

        let mut result: Vec<usize> = Vec::new();
        let mut i0: usize = 0;
        while i0 < nv
            invariant
                i0 <= nv,
                result@.len() == i0 as int,
                forall|v: int| 0 <= v < i0 as int ==> #[trigger] result@[v] == inf,
            decreases nv - i0,
        {
            result.push(inf);
            i0 = i0 + 1;
        }

        let mut queue: VecDeque<usize> = VecDeque::new();
        let mut s0: usize = 0;
        while s0 < sources.len()
            invariant
                s0 <= sources@.len(),
                srcs == sources@,
                g == *self,
                nv as int == g.num_vertices(),
                inf as int == 2 * g.num_vertices(),
                forall|i: int| 0 <= i < srcs.len()
                    ==> (#[trigger] srcs[i] as int) < g.num_vertices(),
                result@.len() == nv as int,
                forall|v: int| 0 <= v < result@.len() ==> #[trigger] result@[v] <= inf,
                forall|v: int| 0 <= v < result@.len()
                    ==> (#[trigger] result@[v] == 0 || result@[v] == inf),
                forall|i: int| 0 <= i < s0 as int ==> #[trigger] result@[srcs[i] as int] == 0,
                forall|v: int| 0 <= v < result@.len() && #[trigger] result@[v] == 0
                    ==> is_source(srcs, v),
                forall|v: int| 0 <= v < result@.len() && #[trigger] result@[v] < inf
                    ==> queue@.contains(v as usize),
                forall|qi: int| 0 <= qi < queue@.len()
                    ==> (#[trigger] queue@[qi] as int) < nv as int
                        && result@[queue@[qi] as int] < inf,
            decreases sources@.len() - s0,
        {
            let s = sources[s0];
            let ghost before_q = queue@;
            let ghost before_d = result@;
            result.set(s, 0);
            queue.push_back(s);
            proof {
                assert(is_source(srcs, s as int));
                assert forall|v: int| 0 <= v < result@.len() && #[trigger] result@[v] < inf
                    implies queue@.contains(v as usize) by {
                    if v == s as int {
                        assert(queue@[queue@.len() - 1] == s);
                    } else {
                        assert(before_d[v] == result@[v]);
                        if before_d[v] < inf {
                            let w = choose|w: int| 0 <= w < before_q.len()
                                && before_q[w] == v as usize;
                            assert(queue@[w] == v as usize);
                        }
                    }
                }
            }
            s0 = s0 + 1;
        }
        if nv == 0 {
            return result;
        }
        proof {
            assert forall|v: int| 0 <= v < result@.len() && #[trigger] result@[v] < inf
                implies reach_within(g, srcs, v, result@[v] as int) by {
                lemma_reach_refl(g, srcs, v);
            }
        }

        let rows = self.vertex_edge_container();

        while queue.len() > 0
            invariant
                g == *self,
                g.wf(),
                srcs == sources@,
                nv as int == g.num_vertices(),
                nv > 0,
                inf as int == 2 * g.num_vertices(),
                result@.len() == nv as int,
                rows@.len() == g.num_vertices(),
                forall|v: int, j: int| 0 <= v < rows@.len() && 0 <= j < rows@[v]@.len()
                    ==> (#[trigger] rows@[v]@[j] as int) < g.num_edges()
                        && g.edge_has(rows@[v]@[j] as int, v),
                forall|v: int, e: int| 0 <= v < rows@.len() && 0 <= e < g.num_edges()
                    && #[trigger] g.edge_has(e, v) ==> rows@[v]@.contains(e as usize),
                forall|v: int| 0 <= v < result@.len() ==> #[trigger] result@[v] <= inf,
                forall|v: int| 0 <= v < result@.len()
                    ==> ((#[trigger] result@[v] == 0) <==> is_source(srcs, v)),
                forall|v: int| 0 <= v < result@.len() && #[trigger] result@[v] < inf
                    ==> result@[v] <= limit + 1,
                forall|v: int| 0 <= v < result@.len() && #[trigger] result@[v] < inf
                    ==> reach_within(g, srcs, v, result@[v] as int),
                forall|qi: int| 0 <= qi < queue@.len()
                    ==> (#[trigger] queue@[qi] as int) < nv as int
                        && result@[queue@[qi] as int] < inf,
                forall|v: int| 0 <= v < result@.len() && #[trigger] result@[v] < inf
                    ==> queue@.contains(v as usize)
                        || result@[v] > limit
                        || (forall|w: int| 0 <= w < result@.len() && #[trigger] g.adjacent(v, w)
                            ==> result@[w] as int <= result@[v] as int + 1),
            decreases queue@.len() + dist_total(result@),
        {
            let ghost m0 = queue@.len() + dist_total(result@);
            let ghost q_before = queue@;
            let curr = queue.pop_front().unwrap();
            proof {
                assert(q_before[0] == curr);
                assert forall|v: int| 0 <= v < result@.len() && #[trigger] result@[v] < inf
                        && v != curr as int
                    implies queue@.contains(v as usize)
                        || result@[v] > limit
                        || (forall|w: int| 0 <= w < result@.len() && #[trigger] g.adjacent(v, w)
                            ==> result@[w] as int <= result@[v] as int + 1) by {
                    if q_before.contains(v as usize) {
                        let w = choose|w: int| 0 <= w < q_before.len()
                            && q_before[w] == v as usize;
                        if w > 0 {
                            assert(queue@[w - 1] == v as usize);
                        } else {
                            assert(false);
                        }
                    }
                }
            }
            let cd = result[curr];
            if cd <= limit {
                let edges = &rows[curr];
                let mut ei: usize = 0;
                while ei < edges.len()
                    invariant
                        g == *self,
                        g.wf(),
                        nv as int == g.num_vertices(),
                        inf as int == 2 * g.num_vertices(),
                        result@.len() == nv as int,
                        rows@.len() == g.num_vertices(),
                        (curr as int) < nv as int,
                        edges == &rows[curr as int],
                        ei <= edges@.len(),
                        cd as int == result@[curr as int] as int,
                        cd < inf,
                        cd <= limit,
                        forall|v: int, j: int| 0 <= v < rows@.len() && 0 <= j < rows@[v]@.len()
                            ==> (#[trigger] rows@[v]@[j] as int) < g.num_edges()
                                && g.edge_has(rows@[v]@[j] as int, v),
                        forall|v: int, e: int| 0 <= v < rows@.len() && 0 <= e < g.num_edges()
                            && #[trigger] g.edge_has(e, v) ==> rows@[v]@.contains(e as usize),
                        forall|v: int| 0 <= v < result@.len() ==> #[trigger] result@[v] <= inf,
                        forall|v: int| 0 <= v < result@.len()
                            ==> ((#[trigger] result@[v] == 0) <==> is_source(srcs, v)),
                        forall|v: int| 0 <= v < result@.len() && #[trigger] result@[v] < inf
                            ==> result@[v] <= limit + 1,
                        forall|v: int| 0 <= v < result@.len() && #[trigger] result@[v] < inf
                            ==> reach_within(g, srcs, v, result@[v] as int),
                        forall|qi: int| 0 <= qi < queue@.len()
                            ==> (#[trigger] queue@[qi] as int) < nv as int
                                && result@[queue@[qi] as int] < inf,
                        forall|v: int| 0 <= v < result@.len() && #[trigger] result@[v] < inf
                                && v != curr as int
                            ==> queue@.contains(v as usize)
                                || result@[v] > limit
                                || (forall|w: int| 0 <= w < result@.len()
                                    && #[trigger] g.adjacent(v, w)
                                    ==> result@[w] as int <= result@[v] as int + 1),
                        forall|j: int, w: int| 0 <= j < ei as int && 0 <= w < result@.len()
                            && #[trigger] g.edge_has(rows@[curr as int]@[j] as int, w)
                            ==> #[trigger] result@[w] as int <= cd as int + 1,
                        queue@.len() + dist_total(result@) <= m0 - 1,
                    decreases edges@.len() - ei,
                {
                    let e = edges[ei];
                    let offsets = self.eind.len();
                    proof {
                        assert(rows@[curr as int]@[ei as int] == e);
                        assert((e as int) < g.num_edges());
                        assert(g.num_edges() < offsets as int);
                        assert(self.eind@[e as int] <= self.eind@[e as int + 1]);
                        assert(self.eind@.last() == self.eind@[self.eind@.len() - 1]);
                        assert(self.eind@[e as int + 1] <= self.eind@[self.eind@.len() - 1]);
                    }
                    let total = self.eptr.len();
                    let start = self.eind[e] as usize;
                    let end = self.eind[e + 1] as usize;
                    let mut i2: usize = start;
                    while i2 < end
                        invariant
                            g == *self,
                            g.wf(),
                            nv as int == g.num_vertices(),
                            inf as int == 2 * g.num_vertices(),
                            result@.len() == nv as int,
                            rows@.len() == g.num_vertices(),
                            (curr as int) < nv as int,
                            (e as int) < g.num_edges(),
                            g.edge_has(e as int, curr as int),
                            start as int == g.eind@[e as int] as int,
                            end as int == g.eind@[e as int + 1] as int,
                            start <= i2 <= end,
                            end <= g.eptr@.len(),
                            cd as int == result@[curr as int] as int,
                            cd < inf,
                            cd <= limit,
                            forall|v: int| 0 <= v < result@.len() ==> #[trigger] result@[v] <= inf,
                            forall|v: int| 0 <= v < result@.len()
                                ==> ((#[trigger] result@[v] == 0) <==> is_source(srcs, v)),
                            forall|v: int| 0 <= v < result@.len() && #[trigger] result@[v] < inf
                                ==> result@[v] <= limit + 1,
                            forall|v: int| 0 <= v < result@.len() && #[trigger] result@[v] < inf
                                ==> reach_within(g, srcs, v, result@[v] as int),
                            forall|qi: int| 0 <= qi < queue@.len()
                                ==> (#[trigger] queue@[qi] as int) < nv as int
                                    && result@[queue@[qi] as int] < inf,
                            forall|v: int| 0 <= v < result@.len() && #[trigger] result@[v] < inf
                                    && v != curr as int
                                ==> queue@.contains(v as usize)
                                    || result@[v] > limit
                                    || (forall|w: int| 0 <= w < result@.len()
                                        && #[trigger] g.adjacent(v, w)
                                        ==> result@[w] as int <= result@[v] as int + 1),
                            forall|j: int, w: int| 0 <= j < ei as int && 0 <= w < result@.len()
                                && #[trigger] g.edge_has(rows@[curr as int]@[j] as int, w)
                                ==> #[trigger] result@[w] as int <= cd as int + 1,
                            forall|m: int| start as int <= m < i2 as int
                                ==> result@[#[trigger] g.eptr@[m] as int] as int
                                    <= cd as int + 1,
                            queue@.len() + dist_total(result@) <= m0 - 1,
                        decreases end - i2,
                    {
                        let nb = self.eptr[i2] as usize;
                        let cand = cd + 1;
                        if result[nb] > cand {
                            let ghost d_before = result@;
                            let ghost q_b2 = queue@;
                            result.set(nb, cand);
                            queue.push_back(nb);
                            proof {
                                lemma_dist_total_update(d_before, nb as int, cand);
                                assert(g.edge_has(e as int, nb as int)) by {
                                    assert(g.eind@[e as int] as int <= i2 as int
                                        && (i2 as int) < g.eind@[e as int + 1] as int);
                                    assert(g.eptr@[i2 as int] as int == nb as int);
                                }
                                assert(g.adjacent(curr as int, nb as int)) by {
                                    assert(g.edge_has(e as int, curr as int)
                                        && g.edge_has(e as int, nb as int));
                                }
                                lemma_reach_step(g, srcs, curr as int, nb as int, cd as int);
                                assert(reach_within(g, srcs, nb as int, cd as int + 1));
                                assert forall|qi: int| 0 <= qi < queue@.len()
                                    implies (#[trigger] queue@[qi] as int) < nv as int
                                        && result@[queue@[qi] as int] < inf by {
                                    if qi < q_b2.len() {
                                        assert(queue@[qi] == q_b2[qi]);
                                    } else {
                                        assert(queue@[qi] == nb);
                                    }
                                }
                                assert forall|v: int| 0 <= v < result@.len()
                                        && #[trigger] result@[v] < inf && v != curr as int
                                    implies queue@.contains(v as usize)
                                        || result@[v] > limit
                                        || (forall|w: int| 0 <= w < result@.len()
                                            && #[trigger] g.adjacent(v, w)
                                            ==> result@[w] as int <= result@[v] as int + 1) by {
                                    if v == nb as int {
                                        assert(queue@[queue@.len() - 1] == nb);
                                        assert(queue@.contains(v as usize));
                                    } else {
                                        assert(result@[v] == d_before[v]);
                                        if q_b2.contains(v as usize) {
                                            let w = choose|w: int| 0 <= w < q_b2.len()
                                                && q_b2[w] == v as usize;
                                            assert(queue@[w] == v as usize);
                                        } else if !(d_before[v] > limit) {
                                            if forall|w: int| 0 <= w < d_before.len()
                                                && #[trigger] g.adjacent(v, w)
                                                ==> d_before[w] as int <= d_before[v] as int + 1 {
                                                assert forall|w: int| 0 <= w < result@.len()
                                                    && #[trigger] g.adjacent(v, w)
                                                    implies result@[w] as int
                                                        <= result@[v] as int + 1 by {
                                                    assert(d_before[w] as int
                                                        <= d_before[v] as int + 1);
                                                }
                                            }
                                        }
                                    }
                                }
                            }
                        }
                        i2 = i2 + 1;
                    }
                    proof {
                        assert forall|j: int, w: int| 0 <= j < ei as int + 1
                            && 0 <= w < result@.len()
                            && #[trigger] g.edge_has(rows@[curr as int]@[j] as int, w)
                            implies #[trigger] result@[w] as int <= cd as int + 1 by {
                            if j == ei as int {
                                let m = choose|m: int| g.eind@[e as int] as int <= m
                                    < g.eind@[e as int + 1] as int
                                    && #[trigger] g.eptr@[m] as int == w;
                                assert(result@[g.eptr@[m] as int] as int <= cd as int + 1);
                            }
                        }
                    }
                    ei = ei + 1;
                }
                proof {
                    assert forall|w: int| 0 <= w < result@.len()
                        && #[trigger] g.adjacent(curr as int, w)
                        implies result@[w] as int <= cd as int + 1 by {
                        let e2 = choose|e2: int| 0 <= e2 < g.num_edges()
                            && #[trigger] g.edge_has(e2, curr as int) && g.edge_has(e2, w);
                        assert(rows@[curr as int]@.contains(e2 as usize));
                        let j = choose|j: int| 0 <= j < rows@[curr as int]@.len()
                            && rows@[curr as int]@[j] == e2 as usize;
                        assert(g.edge_has(rows@[curr as int]@[j] as int, w));
                    }
                }
            } else {
                proof {
                    assert(queue@.len() + dist_total(result@) <= m0 - 1);
                }
            }
        }
        result
    }


    /// Single-source (or multi-source) shortest-path distances, where
    /// crossing hyperedge `e` costs `edgelength[e]`. Callers typically
    /// pass each hyperedge's member count as its length. Sources start at
    /// zero; `2 * V` stands for unreachable. Lazy-deletion shortest-path
    /// search: stale queue entries are discarded on pop.
    #[verifier::rlimit(100)]
    pub fn dijkstra(&self, sources: &Vec<usize>, edgelength: &Vec<usize>) -> (r: Vec<usize>)
        requires
            self.wf(),
            forall|i: int| 0 <= i < sources@.len()
                ==> (#[trigger] sources@[i] as int) < self.num_vertices(),
            edgelength@.len() == self.num_edges(),
            2 * self.num_vertices() <= usize::MAX,
        ensures
            dijkstra_post(*self, sources@, edgelength@, r@),
    {
        let nv = self.vtxwt.len();
        let inf: usize = nv * 2;
        let ghost srcs = sources@;
        let ghost cost = edgelength@;
        let ghost g = *self;

        let mut distances: Vec<usize> = Vec::new();
        let mut i0: usize = 0;
        while i0 < nv
            invariant
                i0 <= nv,
                distances@.len() == i0 as int,
                forall|v: int| 0 <= v < i0 as int ==> #[trigger] distances@[v] == inf,
            decreases nv - i0,
        {
            distances.push(inf);
            i0 = i0 + 1;
        }

        let mut pq: Vec<(usize, usize)> = Vec::new();
        let mut s0: usize = 0;
        while s0 < sources.len()
            invariant
                s0 <= sources@.len(),
                srcs == sources@,
                g == *self,
                nv as int == g.num_vertices(),
                inf as int == 2 * g.num_vertices(),
                forall|i: int| 0 <= i < srcs.len()
                    ==> (#[trigger] srcs[i] as int) < g.num_vertices(),
                distances@.len() == nv as int,
                forall|v: int| 0 <= v < distances@.len() ==> #[trigger] distances@[v] <= inf,
                forall|v: int| 0 <= v < distances@.len()
                    ==> (#[trigger] distances@[v] == 0 || distances@[v] == inf),
                forall|i: int| 0 <= i < s0 as int
                    ==> #[trigger] distances@[srcs[i] as int] == 0,
                forall|v: int| 0 <= v < distances@.len() && #[trigger] distances@[v] == 0
                    ==> is_source(srcs, v),
                forall|v: int| 0 <= v < distances@.len() && #[trigger] distances@[v] < inf
                    ==> pq@.contains((distances@[v], v as usize)),
                pq_ok(distances@, pq@, nv as int, inf as int),
            decreases sources@.len() - s0,
        {
            let s = sources[s0];
            let ghost before_q = pq@;
            let ghost before_d = distances@;
            distances.set(s, 0);
            pq.push((0, s));
            proof {
                assert(is_source(srcs, s as int));
                assert forall|v: int| 0 <= v < distances@.len()
                        && #[trigger] distances@[v] < inf
                    implies pq@.contains((distances@[v], v as usize)) by {
                    if v == s as int {
                        assert(pq@[pq@.len() - 1] == (0usize, s));
                    } else {
                        assert(before_d[v] == distances@[v]);
                        if before_d[v] < inf {
                            let w = choose|w: int| 0 <= w < before_q.len()
                                && before_q[w] == (before_d[v], v as usize);
                            assert(pq@[w] == (distances@[v], v as usize));
                        }
                    }
                }
                assert(pq_ok(distances@, pq@, nv as int, inf as int)) by {
                    assert forall|k: int| 0 <= k < pq@.len()
                        implies (#[trigger] pq@[k].1 as int) < nv as int
                            && distances@[pq@[k].1 as int] <= pq@[k].0
                            && distances@[pq@[k].1 as int] < inf by {
                        if k < before_q.len() {
                            assert(pq@[k] == before_q[k]);
                        } else {
                            assert(pq@[k] == (0usize, s));
                        }
                    }
                };
            }
            s0 = s0 + 1;
        }
        if nv == 0 {
            return distances;
        }
        proof {
            assert forall|v: int| 0 <= v < distances@.len() && #[trigger] distances@[v] < inf
                implies cost_reach(g, srcs, cost, v, distances@[v] as int) by {
                lemma_cost_reach_refl(g, srcs, cost, v);
            }
            assert(dists_sound(g, srcs, cost, distances@));
            assert(queued_or_relaxed(g, cost, distances@, pq@, -1));
        }

        let rows = self.vertex_edge_container();
        proof {
            assert(rows_sound(g, rows@));
            assert(rows_complete(g, rows@));
        }

        while pq.len() > 0
            invariant
                g == *self,
                g.wf(),
                srcs == sources@,
                cost == edgelength@,
                cost.len() == g.num_edges(),
                nv as int == g.num_vertices(),
                nv > 0,
                inf as int == 2 * g.num_vertices(),
                distances@.len() == nv as int,
                rows@.len() == g.num_vertices(),
                rows_sound(g, rows@),
                rows_complete(g, rows@),
                forall|v: int| 0 <= v < distances@.len() ==> #[trigger] distances@[v] <= inf,
                forall|i: int| 0 <= i < srcs.len()
                    ==> distances@[#[trigger] srcs[i] as int] == 0,
                forall|i: int| 0 <= i < srcs.len()
                    ==> (#[trigger] srcs[i] as int) < g.num_vertices(),
                dists_sound(g, srcs, cost, distances@),
                pq_ok(distances@, pq@, nv as int, inf as int),
                queued_or_relaxed(g, cost, distances@, pq@, -1),
            decreases pq@.len() + dist_total(distances@),
        {
            let ghost m0 = pq@.len() + dist_total(distances@);
            let ghost q_before = pq@;
            // pop the entry with the smallest tentative distance
            let mut mi: usize = 0;
            let mut k: usize = 1;
            while k < pq.len()
                invariant
                    pq@.len() > 0,
                    mi < pq@.len(),
                    k <= pq@.len(),
                decreases pq@.len() - k,
            {
                if pq[k].0 < pq[mi].0 {
                    mi = k;
                }
                k = k + 1;
            }
            let (dist, vertex) = pq.remove(mi);
            proof {
                assert(q_before[mi as int] == (dist, vertex));
                assert((vertex as int) < nv as int);
                assert(distances@[vertex as int] <= dist);
                lemma_pq_remove_keeps(g, cost, distances@, q_before, mi as int);
                assert(queued_or_relaxed(g, cost, distances@, pq@, vertex as int)) by {
                    assert forall|v: int| 0 <= v < distances@.len()
                            && #[trigger] distances@[v] < 2 * g.num_vertices()
                            && v != vertex as int
                        implies pq@.contains((distances@[v], v as usize))
                            || relaxed_at(g, cost, distances@, v) by {
                        assert((distances@[v], v as usize) != q_before[mi as int]);
                    }
                };
            }
            let cur = distances[vertex];
            if dist <= cur {
                let edges = &rows[vertex];
                let mut ei: usize = 0;
                while ei < edges.len()
                    invariant
                        g == *self,
                        g.wf(),
                        cost == edgelength@,
                        cost.len() == g.num_edges(),
                        forall|i: int| 0 <= i < srcs.len()
                            ==> (#[trigger] srcs[i] as int) < g.num_vertices(),
                        nv as int == g.num_vertices(),
                        inf as int == 2 * g.num_vertices(),
                        distances@.len() == nv as int,
                        rows@.len() == g.num_vertices(),
                        (vertex as int) < nv as int,
                        edges == &rows[vertex as int],
                        ei <= edges@.len(),
                        cur as int == distances@[vertex as int] as int,
                        cur < inf,
                        rows_sound(g, rows@),
                        rows_complete(g, rows@),
                        forall|v: int| 0 <= v < distances@.len()
                            ==> #[trigger] distances@[v] <= inf,
                        forall|i: int| 0 <= i < srcs.len()
                            ==> distances@[#[trigger] srcs[i] as int] == 0,
                        dists_sound(g, srcs, cost, distances@),
                        pq_ok(distances@, pq@, nv as int, inf as int),
                        queued_or_relaxed(g, cost, distances@, pq@, vertex as int),
                        forall|j: int, w: int| 0 <= j < ei as int && 0 <= w < distances@.len()
                            && #[trigger] g.edge_has(rows@[vertex as int]@[j] as int, w)
                            ==> #[trigger] distances@[w] as int
                                <= cur as int + cost[rows@[vertex as int]@[j] as int],
                        pq@.len() + dist_total(distances@) <= m0 - 1,
                    decreases edges@.len() - ei,
                {
                    let e = edges[ei];
                    let offsets = self.eind.len();
                    proof {
                        assert(rows@[vertex as int]@[ei as int] == e);
                        assert((e as int) < g.num_edges());
                        assert(g.num_edges() < offsets as int);
                        assert(self.eind@[e as int] <= self.eind@[e as int + 1]);
                        assert(self.eind@.last() == self.eind@[self.eind@.len() - 1]);
                        assert(self.eind@[e as int + 1] <= self.eind@[self.eind@.len() - 1]);
                    }
                    let total = self.eptr.len();
                    let ce = edgelength[e];
                    let start = self.eind[e] as usize;
                    let end = self.eind[e + 1] as usize;
                    let mut i2: usize = start;
                    while i2 < end
                        invariant
                            g == *self,
                            g.wf(),
                            cost == edgelength@,
                            cost.len() == g.num_edges(),
                            forall|i: int| 0 <= i < srcs.len()
                                ==> (#[trigger] srcs[i] as int) < g.num_vertices(),
                            nv as int == g.num_vertices(),
                            inf as int == 2 * g.num_vertices(),
                            distances@.len() == nv as int,
                            rows@.len() == g.num_vertices(),
                            (vertex as int) < nv as int,
                            (e as int) < g.num_edges(),
                            g.edge_has(e as int, vertex as int),
                            ce == cost[e as int],
                            start as int == g.eind@[e as int] as int,
                            end as int == g.eind@[e as int + 1] as int,
                            start <= i2 <= end,
                            end <= g.eptr@.len(),
                            cur as int == distances@[vertex as int] as int,
                            cur < inf,
                            rows_sound(g, rows@),
                            forall|v: int| 0 <= v < distances@.len()
                                ==> #[trigger] distances@[v] <= inf,
                            forall|i: int| 0 <= i < srcs.len()
                                ==> distances@[#[trigger] srcs[i] as int] == 0,
                            dists_sound(g, srcs, cost, distances@),
                            pq_ok(distances@, pq@, nv as int, inf as int),
                            queued_or_relaxed(g, cost, distances@, pq@, vertex as int),
                            forall|j: int, w: int| 0 <= j < ei as int
                                && 0 <= w < distances@.len()
                                && #[trigger] g.edge_has(rows@[vertex as int]@[j] as int, w)
                                ==> #[trigger] distances@[w] as int
                                    <= cur as int + cost[rows@[vertex as int]@[j] as int],
                            forall|m: int| start as int <= m < i2 as int
                                ==> distances@[#[trigger] g.eptr@[m] as int] as int
                                    <= cur as int + ce,
                            pq@.len() + dist_total(distances@) <= m0 - 1,
                        decreases end - i2,
                    {
                        let nb = self.eptr[i2] as usize;
                        let dnb = distances[nb];
                        if cur < dnb && ce < dnb - cur {
                            let cand = cur + ce;
                            let ghost d_before = distances@;
                            let ghost q_b2 = pq@;
                            distances.set(nb, cand);
                            pq.push((cand, nb));
                            proof {
                                lemma_dist_total_update(d_before, nb as int, cand);
                                assert(g.edge_has(e as int, nb as int)) by {
                                    assert(g.eind@[e as int] as int <= i2 as int
                                        && (i2 as int) < g.eind@[e as int + 1] as int);
                                    assert(g.eptr@[i2 as int] as int == nb as int);
                                }
                                lemma_relax_update(
                                    g, srcs, cost, d_before, q_b2, vertex as int,
                                    e as int, nb as int, cand, distances@, pq@,
                                );
                            }
                        }
                        i2 = i2 + 1;
                    }
                    proof {
                        assert forall|j: int, w: int| 0 <= j < ei as int + 1
                            && 0 <= w < distances@.len()
                            && #[trigger] g.edge_has(rows@[vertex as int]@[j] as int, w)
                            implies #[trigger] distances@[w] as int
                                <= cur as int + cost[rows@[vertex as int]@[j] as int] by {
                            if j == ei as int {
                                let m = choose|m: int| g.eind@[e as int] as int <= m
                                    < g.eind@[e as int + 1] as int
                                    && #[trigger] g.eptr@[m] as int == w;
                                assert(distances@[g.eptr@[m] as int] as int
                                    <= cur as int + ce);
                            }
                        }
                    }
                    ei = ei + 1;
                }
                let noff = self.eind.len();
                proof {
                    assert(g.num_edges() <= noff as int);
                    assert(relaxed_at(g, cost, distances@, vertex as int)) by {
                        assert forall|e2: int, w: int| 0 <= e2 < g.num_edges()
                            && 0 <= w < distances@.len()
                            && #[trigger] g.edge_has(e2, vertex as int)
                            && #[trigger] g.edge_has(e2, w)
                            implies distances@[w] as int
                                <= distances@[vertex as int] as int + cost[e2] by {
                            assert(rows@[vertex as int]@.contains(e2 as usize));
                            let j = choose|j: int| 0 <= j < rows@[vertex as int]@.len()
                                && rows@[vertex as int]@[j] == e2 as usize;
                            assert(rows@[vertex as int]@[j] == e2 as usize);
                            assert((e2 as usize) as int == e2);
                            assert(g.edge_has(rows@[vertex as int]@[j] as int, w));
                            assert(distances@[w] as int
                                <= cur as int + cost[rows@[vertex as int]@[j] as int]);
                        }
                    };
                    assert(queued_or_relaxed(g, cost, distances@, pq@, -1)) by {
                        assert forall|v: int| 0 <= v < distances@.len()
                                && #[trigger] distances@[v] < 2 * g.num_vertices()
                                && v != -1
                            implies pq@.contains((distances@[v], v as usize))
                                || relaxed_at(g, cost, distances@, v) by {
                            if v == vertex as int {
                                assert(relaxed_at(g, cost, distances@, v));
                            }
                        }
                    };
                }
            } else {
                proof {
                    assert(distances@[vertex as int] < dist);
                    assert(queued_or_relaxed(g, cost, distances@, pq@, -1)) by {
                        assert forall|v: int| 0 <= v < distances@.len()
                                && #[trigger] distances@[v] < 2 * g.num_vertices()
                                && v != -1
                            implies pq@.contains((distances@[v], v as usize))
                                || relaxed_at(g, cost, distances@, v) by {
                            assert((distances@[v], v as usize) != q_before[mi as int]);
                        }
                    };
                    assert(pq@.len() + dist_total(distances@) <= m0 - 1);
                }
            }
        }
        proof {
            assert forall|v: int| 0 <= v < distances@.len()
                    && #[trigger] distances@[v] < 2 * g.num_vertices()
                implies relaxed_at(g, cost, distances@, v) by {
                assert(!pq@.contains((distances@[v], v as usize)));
            }
        }
        distances
    }
}

} // verus!
