//! Classic nonnegative-weight shortest path: the weighted search core run
//! with a zero heuristic, so exploration order is by travel time alone.

use vstd::prelude::*;
use crate::graph::{Graph, NodeId};
use crate::graph::lemma_node_index_unique;
use crate::paths::{
    is_path_between, reachable, path_weight, is_min_weight, consistent_heuristic,
    lemma_step_weight_bounds,
};
use crate::search::{SearchResult, search_by_weight, pred_map};

verus! {

/// The zero heuristic never overestimates, so it is consistent.
pub(crate) proof fn lemma_zero_heuristic_consistent(g: Graph, h: Seq<u128>)
    requires
        g.wf(),
        h.len() == g.nodes@.len(),
        forall|i: int| 0 <= i < h.len() ==> #[trigger] h[i] == 0,
    ensures
        consistent_heuristic(g, h),
{
    reveal(consistent_heuristic);
    assert forall|i: int, k: int|
        0 <= i < g.nodes@.len() && 0 <= k < (#[trigger] g.nodes@[i]).next_nodes@.len() implies h[i]
        <= g.weight(g.nodes@[i].id, #[trigger] g.nodes@[i].next_nodes@[k]) + h[g.node_index(
        g.nodes@[i].next_nodes@[k],
    )] by {
        let u = g.nodes@[i].id;
        let v = g.nodes@[i].next_nodes@[k];
        lemma_node_index_unique(g, i, u);
        assert(g.succs(u)[k] == v);
        assert(g.succs(u).contains(v));
        lemma_step_weight_bounds(g, u, v);
        assert(g.has_node(v));
        assert(0 <= g.node_index(v) < g.nodes@.len());
        assert(h[g.node_index(v)] == 0);
    }
}

/// Shortest route by free-flow travel time. On success the reported weight
/// is the exact minimum over all routes from `source` to `destination`, the
/// returned route achieves it, and the predecessor pairs — one per
/// discovered node, each across a real edge — retrace it; the iteration
/// count equals the number of edges examined, which the visited-edge list
/// holds in examination order, and the active edges lie off that list; the
/// not-found answer comes exactly when no route exists.
pub fn dijkstra(graph: &Graph, source: NodeId, destination: NodeId) -> (r: Option<SearchResult>)
    requires
        graph.wf(),
        graph.has_node(source),
        graph.has_node(destination),
    ensures
        match r {
            Some(res) => {
                &&& is_path_between(*graph, res.path@, source, destination)
                &&& res.path@.no_duplicates()
                &&& path_weight(*graph, res.path@) == res.weight as int
                &&& is_min_weight(*graph, source, destination, res.weight as int)
                &&& !pred_map(res.predecessors@).contains_key(source)
                &&& forall|k: int|
                    1 <= k < res.path@.len() ==> pred_map(res.predecessors@).contains_key(
                        #[trigger] res.path@[k],
                    ) && pred_map(res.predecessors@)[res.path@[k]] == res.path@[k - 1]
                &&& res.iterations == res.visited_edges@.len()
                &&& forall|k: int|
                    0 <= k < res.visited_edges@.len() ==> graph.has_edge(
                        (#[trigger] res.visited_edges@[k]).0,
                        res.visited_edges@[k].1,
                    )
                &&& forall|k: int|
                    0 <= k < res.active_edges@.len() ==> graph.has_edge(
                        (#[trigger] res.active_edges@[k]).0,
                        res.active_edges@[k].1,
                    ) && !res.visited_edges@.contains(res.active_edges@[k])
                &&& forall|id: NodeId|
                    #[trigger] pred_map(res.predecessors@).contains_key(id) ==> graph.has_node(id)
                        && id != source && graph.succs(pred_map(res.predecessors@)[id]).contains(
                        id,
                    )
                &&& (source == destination ==> res.predecessors@.len() == 0
                    && res.visited_edges@.len() == 0 && res.active_edges@.len() == 0
                    && res.iterations == 0 && res.weight == 0)
            },
            None => !reachable(*graph, source, destination),
        },
        !reachable(*graph, source, destination) ==> r is None,
{
    let n = graph.nodes.len();
    let mut h: Vec<u128> = Vec::new();
    while h.len() < n
        invariant
            h@.len() <= n,
            forall|i: int| 0 <= i < h@.len() ==> #[trigger] h@[i] == 0,
        decreases n - h@.len(),
    {
        h.push(0);
    }
    proof {
        lemma_zero_heuristic_consistent(*graph, h@);
    }
    let r = search_by_weight(graph, source, destination, &h);
    proof {
        if r is Some {
            let res = r->Some_0;
            assert(is_path_between(*graph, res.path@, source, destination));
            assert(reachable(*graph, source, destination));
            assert(is_min_weight(*graph, source, destination, res.weight as int));
        }
    }
    r
}

} // verus!
