//! Paths through the graph as mathematical sequences of node identifiers,
//! their travel weight, and the lemmas the search proofs build on.

use vstd::prelude::*;
use vstd::set_lib::lemma_len_subset;
use crate::graph::{Graph, NodeId, MAX_EDGE_WEIGHT_UH};
use crate::graph::lemma_edge_weight_bounds;

verus! {

/// A path: a nonempty sequence of existing nodes in which each node is
/// followed by one of its direct successors.
pub open spec fn is_path(g: Graph, p: Seq<NodeId>) -> bool {
    &&& p.len() >= 1
    &&& forall|k: int| 0 <= k < p.len() ==> g.has_node(#[trigger] p[k])
    &&& forall|k: int| 0 <= k < p.len() - 1 ==> g.succs(#[trigger] p[k]).contains(p[k + 1])
}

/// A path that starts at `a` and ends at `b`.
pub open spec fn is_path_between(g: Graph, p: Seq<NodeId>, a: NodeId, b: NodeId) -> bool {
    is_path(g, p) && p.first() == a && p.last() == b
}

/// Some path leads from `a` to `b`.
pub open spec fn reachable(g: Graph, a: NodeId, b: NodeId) -> bool {
    exists|p: Seq<NodeId>| is_path_between(g, p, a, b)
}

/// Total travel weight of a path in microhours: the sum of its edge weights.
pub open spec fn path_weight(g: Graph, p: Seq<NodeId>) -> int
    decreases p.len(),
{
    if p.len() <= 1 {
        0
    } else {
        path_weight(g, p.drop_last()) + g.weight(p[p.len() - 2], p[p.len() - 1])
    }
}

/// `w` is the weight of a best path from `s` to `d`: some path achieves it
/// and no path weighs less.
pub open spec fn is_min_weight(g: Graph, s: NodeId, d: NodeId, w: int) -> bool {
    &&& exists|p: Seq<NodeId>| is_path_between(g, p, s, d) && path_weight(g, p) == w
    &&& forall|p: Seq<NodeId>| is_path_between(g, p, s, d) ==> w <= path_weight(g, p)
}

/// `n` is the hop count of a best path from `s` to `d`: some path has
/// `n` edges and no path has fewer.
pub open spec fn is_min_hops(g: Graph, s: NodeId, d: NodeId, n: int) -> bool {
    &&& exists|p: Seq<NodeId>| is_path_between(g, p, s, d) && p.len() - 1 == n
    &&& forall|p: Seq<NodeId>| is_path_between(g, p, s, d) ==> n <= p.len() - 1
}

/// Extending a path by one successor keeps it a path and adds one edge weight.
pub proof fn lemma_path_append(g: Graph, p: Seq<NodeId>, v: NodeId)
    requires
        is_path(g, p),
        g.has_node(v),
        g.succs(p.last()).contains(v),
    ensures
        is_path(g, p.push(v)),
        p.push(v).first() == p.first(),
        p.push(v).last() == v,
        path_weight(g, p.push(v)) == path_weight(g, p) + g.weight(p.last(), v),
{
    let q = p.push(v);
    assert(q.drop_last() =~= p);
    assert(forall|k: int| 0 <= k < q.len() - 1 ==> g.succs(#[trigger] q[k]).contains(q[k + 1]));
}

/// A nonempty prefix of a path is a path between its own endpoints.
pub proof fn lemma_path_take(g: Graph, p: Seq<NodeId>, m: int)
    requires
        is_path(g, p),
        1 <= m <= p.len(),
    ensures
        is_path_between(g, p.take(m), p.first(), p[m - 1]),
{
}

/// A suffix of a path is a path from the cut node to the same end.
pub proof fn lemma_path_skip(g: Graph, p: Seq<NodeId>, j: int)
    requires
        is_path(g, p),
        0 <= j < p.len(),
    ensures
        is_path_between(g, p.skip(j), p[j], p.last()),
{
    assert(p.skip(j).last() == p.last());
}

/// Taking one more node of a path adds exactly that edge's weight.
pub proof fn lemma_path_weight_take_step(g: Graph, p: Seq<NodeId>, k: int)
    requires
        is_path(g, p),
        0 <= k < p.len() - 1,
    ensures
        path_weight(g, p.take(k + 2)) == path_weight(g, p.take(k + 1)) + g.weight(p[k], p[k + 1]),
{
    lemma_path_take(g, p, k + 1);
    assert(p.take(k + 2) =~= p.take(k + 1).push(p[k + 1]));
    lemma_path_append(g, p.take(k + 1), p[k + 1]);
}

/// A path's weight splits at any index into prefix weight plus suffix weight.
pub proof fn lemma_path_weight_split(g: Graph, p: Seq<NodeId>, j: int)
    requires
        is_path(g, p),
        0 <= j < p.len(),
    ensures
        path_weight(g, p) == path_weight(g, p.take(j + 1)) + path_weight(g, p.skip(j)),
    decreases p.len(),
{
    if j == p.len() - 1 {
        assert(p.take(j + 1) =~= p);
        assert(p.skip(j).len() == 1);
    } else {
        let q = p.drop_last();
        assert(is_path(g, q)) by {
            assert(forall|k: int| 0 <= k < q.len() ==> q[k] == p[k]);
        }
        lemma_path_weight_split(g, q, j);
        assert(q.take(j + 1) =~= p.take(j + 1));
        lemma_path_skip(g, q, j);
        assert(p.skip(j) =~= q.skip(j).push(p[p.len() - 1]));
        assert(q.skip(j).last() == q.last() == p[p.len() - 2]);
        assert(g.succs(p[p.len() - 2]).contains(p[p.len() - 1]));
        lemma_path_append(g, q.skip(j), p[p.len() - 1]);
    }
}

/// In a well-formed graph every edge along a path weighs at least zero and
/// at most `MAX_EDGE_WEIGHT_UH`.
pub proof fn lemma_step_weight_bounds(g: Graph, u: NodeId, v: NodeId)
    requires
        g.wf(),
        g.has_node(u),
        g.succs(u).contains(v),
    ensures
        g.has_edge(u, v),
        0 <= g.weight(u, v) <= MAX_EDGE_WEIGHT_UH,
{
    let i = g.node_index(u);
    assert(exists|k: int| 0 <= k < g.nodes@[i].next_nodes@.len() && g.nodes@[i].next_nodes@[k] == v);
    let j = g.edge_index(u, v);
    assert(0 <= j < g.edges@.len() && g.edges@[j].from == u && g.edges@[j].to == v);
    lemma_edge_weight_bounds(g.edges@[j]);
}

/// A path's weight is nonnegative and at most one maximal edge per hop.
pub proof fn lemma_path_weight_bounds(g: Graph, p: Seq<NodeId>)
    requires
        g.wf(),
        is_path(g, p),
    ensures
        0 <= path_weight(g, p) <= (p.len() - 1) * MAX_EDGE_WEIGHT_UH,
    decreases p.len(),
{
    if p.len() <= 1 {
    } else {
        let q = p.drop_last();
        assert(is_path(g, q)) by {
            assert(forall|k: int| 0 <= k < q.len() ==> q[k] == p[k]);
        }
        lemma_path_weight_bounds(g, q);
        lemma_step_weight_bounds(g, p[p.len() - 2], p[p.len() - 1]);
        assert((q.len() - 1) * MAX_EDGE_WEIGHT_UH + MAX_EDGE_WEIGHT_UH == (p.len() - 1)
            * MAX_EDGE_WEIGHT_UH) by (nonlinear_arith)
            requires
                q.len() == p.len() - 1,
                p.len() >= 2,
        ;
    }
}

/// Distinct node identifiers are no more numerous than the graph's nodes.
pub proof fn lemma_distinct_node_ids_len(g: Graph, p: Seq<NodeId>)
    requires
        p.no_duplicates(),
        forall|k: int| 0 <= k < p.len() ==> g.has_node(#[trigger] p[k]),
    ensures
        p.len() <= g.nodes@.len(),
{
    let ids = g.nodes@.map(|i: int, nd: crate::graph::Node| nd.id);
    assert(forall|k: int| 0 <= k < p.len() ==> ids.to_set().contains(#[trigger] p[k])) by {
        assert forall|k: int| 0 <= k < p.len() implies ids.to_set().contains(#[trigger] p[k]) by {
            let i = choose|i: int|
                0 <= i < g.nodes@.len() && (#[trigger] g.nodes@[i]).id == p[k];
            assert(ids[i] == p[k]);
        }
    }
    p.unique_seq_to_set();
    assert(p.to_set().subset_of(ids.to_set()));
    ids.lemma_cardinality_of_set();
    lemma_len_subset(p.to_set(), ids.to_set());
}

/// A path without repeated nodes has at most as many nodes as the graph.
pub proof fn lemma_simple_path_len(g: Graph, p: Seq<NodeId>)
    requires
        is_path(g, p),
        p.no_duplicates(),
    ensures
        p.len() <= g.nodes@.len(),
{
    lemma_distinct_node_ids_len(g, p);
}

/// A heuristic (per node index, in microhours) is consistent when it never
/// drops by more than an edge's weight across that edge. A consistent
/// heuristic is an admissible lower bound along every path, which is what
/// guided search needs for optimality.
#[verifier::opaque]
pub open spec fn consistent_heuristic(g: Graph, h: Seq<u128>) -> bool {
    &&& h.len() == g.nodes@.len()
    &&& forall|i: int, k: int|
        0 <= i < g.nodes@.len() && 0 <= k < (#[trigger] g.nodes@[i]).next_nodes@.len() ==> h[i]
            <= g.weight(g.nodes@[i].id, #[trigger] g.nodes@[i].next_nodes@[k]) + h[g.node_index(
            g.nodes@[i].next_nodes@[k],
        )]
}

/// `w` is at most the weight of every path from `source` to `id`.
#[verifier::opaque]
pub open spec fn min_known(g: Graph, source: NodeId, id: NodeId, w: int) -> bool {
    forall|q: Seq<NodeId>| is_path_between(g, q, source, id) ==> w <= path_weight(g, q)
}

/// A consistent heuristic falls along any path by at most the path's weight.
pub proof fn lemma_consistent_path_bound(g: Graph, h: Seq<u128>, p: Seq<NodeId>)
    requires
        g.wf(),
        consistent_heuristic(g, h),
        is_path(g, p),
    ensures
        h[g.node_index(p.first())] <= path_weight(g, p) + h[g.node_index(p.last())],
    decreases p.len(),
{
    reveal(consistent_heuristic);
    if p.len() > 1 {
        let q = p.drop_last();
        assert(is_path(g, q)) by {
            assert(forall|k: int| 0 <= k < q.len() ==> q[k] == p[k]);
        }
        lemma_consistent_path_bound(g, h, q);
        let u = p[p.len() - 2];
        let v = p[p.len() - 1];
        let i = g.node_index(u);
        assert(0 <= i < g.nodes@.len() && g.nodes@[i].id == u);
        assert(g.succs(u).contains(v));
        let k = choose|k: int| 0 <= k < g.succs(u).len() && g.succs(u)[k] == v;
        assert(g.nodes@[i].next_nodes@[k] == v);
        assert(h[i] <= g.weight(u, v) + h[g.node_index(v)]);
    }
}

/// Walking a path whose end is not settled, there is a first unsettled node,
/// and the best-known weight to it is at most the weight of the path prefix
/// that reaches it. `dist` is the best-known cumulative weight per node and
/// must cover every successor of a settled node within one edge's weight.
pub proof fn lemma_first_exit(
    g: Graph,
    p: Seq<NodeId>,
    settled: Set<NodeId>,
    dist: Map<NodeId, int>,
    k: int,
)
    requires
        g.wf(),
        is_path(g, p),
        forall|u: NodeId, kk: int|
            settled.contains(u) && g.has_node(u) && 0 <= kk < g.succs(u).len()
                ==> dist.contains_key(#[trigger] g.succs(u)[kk]) && dist[g.succs(u)[kk]] <= dist[u]
                + g.weight(u, g.succs(u)[kk]),
        !settled.contains(p.last()),
        0 <= k < p.len(),
        forall|i: int| 0 <= i < k ==> settled.contains(#[trigger] p[i]),
        dist.contains_key(p[k]),
        dist[p[k]] <= path_weight(g, p.take(k + 1)),
    ensures
        exists|j: int|
            0 <= j < p.len() && !settled.contains(#[trigger] p[j]) && dist.contains_key(p[j])
                && dist[p[j]] <= path_weight(g, p.take(j + 1)) && (forall|i: int|
                0 <= i < j ==> settled.contains(#[trigger] p[i])),
    decreases p.len() - k,
{
    if !settled.contains(p[k]) {
        assert(0 <= k < p.len() && !settled.contains(p[k]) && dist.contains_key(p[k]) && dist[p[k]]
            <= path_weight(g, p.take(k + 1)) && (forall|i: int|
            0 <= i < k ==> settled.contains(#[trigger] p[i])));
    } else {
        assert(k < p.len() - 1);
        let u = p[k];
        let v = p[k + 1];
        assert(g.succs(u).contains(v));
        let kk = choose|kk: int| 0 <= kk < g.succs(u).len() && g.succs(u)[kk] == v;
        assert(dist.contains_key(g.succs(u)[kk]) && dist[g.succs(u)[kk]] <= dist[u] + g.weight(
            u,
            g.succs(u)[kk],
        ));
        lemma_path_weight_take_step(g, p, k);
        lemma_first_exit(g, p, settled, dist, k + 1);
    }
}

/// Hop-count variant of `lemma_first_exit`, for breadth-first search:
/// `depth` covers every successor of a settled node within one hop.
pub proof fn lemma_first_exit_hops(
    g: Graph,
    p: Seq<NodeId>,
    settled: Set<NodeId>,
    depth: Map<NodeId, int>,
    k: int,
)
    requires
        g.wf(),
        is_path(g, p),
        forall|u: NodeId, kk: int|
            settled.contains(u) && g.has_node(u) && 0 <= kk < g.succs(u).len()
                ==> depth.contains_key(#[trigger] g.succs(u)[kk]) && depth[g.succs(u)[kk]]
                <= depth[u] + 1,
        !settled.contains(p.last()),
        0 <= k < p.len(),
        forall|i: int| 0 <= i < k ==> settled.contains(#[trigger] p[i]),
        depth.contains_key(p[k]),
        depth[p[k]] <= k,
    ensures
        exists|j: int|
            0 <= j < p.len() && !settled.contains(#[trigger] p[j]) && depth.contains_key(p[j])
                && depth[p[j]] <= j && (forall|i: int|
                0 <= i < j ==> settled.contains(#[trigger] p[i])),
    decreases p.len() - k,
{
    if !settled.contains(p[k]) {
        assert(0 <= k < p.len() && !settled.contains(p[k]) && depth.contains_key(p[k]) && depth[p[k]]
            <= k && (forall|i: int| 0 <= i < k ==> settled.contains(#[trigger] p[i])));
    } else {
        assert(k < p.len() - 1);
        let u = p[k];
        let v = p[k + 1];
        assert(g.succs(u).contains(v));
        let kk = choose|kk: int| 0 <= kk < g.succs(u).len() && g.succs(u)[kk] == v;
        assert(depth.contains_key(g.succs(u)[kk]) && depth[g.succs(u)[kk]] <= depth[u] + 1);
        lemma_first_exit_hops(g, p, settled, depth, k + 1);
    }
}

/// If a set of nodes contains the start of a path and is closed under
/// successor steps, it contains the end of the path.
pub proof fn lemma_closed_set_holds_path(g: Graph, p: Seq<NodeId>, s: Set<NodeId>)
    requires
        is_path(g, p),
        s.contains(p.first()),
        forall|u: NodeId, k: int|
            s.contains(u) && g.has_node(u) && 0 <= k < g.succs(u).len() ==> s.contains(
                #[trigger] g.succs(u)[k],
            ),
    ensures
        s.contains(p.last()),
    decreases p.len(),
{
    if p.len() > 1 {
        let q = p.drop_last();
        assert(is_path(g, q)) by {
            assert(forall|k: int| 0 <= k < q.len() ==> q[k] == p[k]);
        }
        lemma_closed_set_holds_path(g, q, s);
        let u = p[p.len() - 2];
        assert(g.succs(u).contains(p.last()));
        let k = choose|k: int| 0 <= k < g.succs(u).len() && g.succs(u)[k] == p.last();
        assert(s.contains(g.succs(u)[k]));
    }
}

} // verus!
