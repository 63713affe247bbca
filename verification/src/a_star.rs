//! A*: the weighted search core guided by a per-node heuristic derived from
//! the straight-line distance to the destination at the highest speed any
//! road allows. The heuristic shapes exploration order only; the recorded
//! cumulative weight stays true travel time.

use vstd::prelude::*;
use crate::graph::{Graph, NodeId};
use crate::paths::{is_path_between, reachable, path_weight, is_min_weight, consistent_heuristic};
use crate::search::{PathResult, search_by_weight, pred_map, MAX_HEURISTIC_UH};

verus! {

/// The assumed maximum travel speed, an upper bound for every edge's limit.
pub const MAX_SPEED_ASTAR_KMH: u64 = 200;

/// The heuristic A* derives from straight-line distances: metres to the
/// destination turned into microhours at the assumed maximum speed.
pub open spec fn astar_heuristic_uh(d: Seq<u64>) -> Seq<u128> {
    Seq::new(d.len(), |i: int| ((d[i] * 1000) / (MAX_SPEED_ASTAR_KMH as int)) as u128)
}

/// Heuristic-guided shortest-route search. `dist_to_destination_m` gives,
/// for each node index, the straight-line distance in metres from that node
/// to the destination. The returned route and weight are always a real
/// route and its true travel time, found exactly when one exists; when the
/// derived heuristic is consistent, the weight is the exact minimum.
pub fn a_star(
    graph: &Graph,
    source: NodeId,
    destination: NodeId,
    dist_to_destination_m: &Vec<u64>,
) -> (r: Option<PathResult>)
    requires
        graph.wf(),
        graph.has_node(source),
        graph.has_node(destination),
        dist_to_destination_m@.len() == graph.nodes@.len(),
    ensures
        match r {
            Some(res) => {
                &&& is_path_between(*graph, res.path@, source, destination)
                &&& res.path@.no_duplicates()
                &&& path_weight(*graph, res.path@) == res.weight as int
                &&& !pred_map(res.predecessors@).contains_key(source)
                &&& forall|k: int|
                    1 <= k < res.path@.len() ==> pred_map(res.predecessors@).contains_key(
                        #[trigger] res.path@[k],
                    ) && pred_map(res.predecessors@)[res.path@[k]] == res.path@[k - 1]
                &&& (consistent_heuristic(*graph, astar_heuristic_uh(dist_to_destination_m@))
                    ==> is_min_weight(*graph, source, destination, res.weight as int))
                &&& forall|id: NodeId|
                    #[trigger] pred_map(res.predecessors@).contains_key(id) ==> graph.has_node(id)
                        && id != source && graph.succs(pred_map(res.predecessors@)[id]).contains(
                        id,
                    )
                &&& (source == destination ==> res.predecessors@.len() == 0 && res.iterations == 0
                    && res.weight == 0)
            },
            None => !reachable(*graph, source, destination),
        },
        !reachable(*graph, source, destination) ==> r is None,
{
    let n = graph.nodes.len();
    let mut h: Vec<u128> = Vec::new();
    while h.len() < n
        invariant
            h@.len() <= n,
            n == dist_to_destination_m@.len(),
            forall|i: int|
                0 <= i < h@.len() ==> #[trigger] h@[i] == astar_heuristic_uh(
                    dist_to_destination_m@,
                )[i] && h@[i] <= MAX_HEURISTIC_UH,
        decreases n - h@.len(),
    {
        let d = dist_to_destination_m[h.len()];
        proof {
            assert(0 <= (d as int * 1000) / (MAX_SPEED_ASTAR_KMH as int) <= d as int * 1000)
                by (nonlinear_arith)
                requires
                    0 <= d as int,
            ;
            assert(d as int * 1000 <= u64::MAX * 1000) by (nonlinear_arith)
                requires
                    d as int <= u64::MAX,
            ;
        }
        h.push(((d as u128) * 1000) / (MAX_SPEED_ASTAR_KMH as u128));
    }
    let r = search_by_weight(graph, source, destination, &h);
    proof {
        assert(h@ =~= astar_heuristic_uh(dist_to_destination_m@));
    }
    match r {
        Some(res) => {
            proof {
                assert(is_path_between(*graph, res.path@, source, destination));
                assert(reachable(*graph, source, destination));
            }
            Some(
                PathResult {
                    predecessors: res.predecessors,
                    path: res.path,
                    weight: res.weight,
                    iterations: res.iterations,
                },
            )
        },
        None => None,
    }
}

} // verus!
