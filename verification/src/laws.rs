//! The library-wide laws relating the search algorithms.

use vstd::prelude::*;
use crate::graph::{Graph, NodeId};
use crate::paths::{is_path_between, path_weight, is_min_weight};

verus! {

/// There is exactly one minimal route weight, so whenever two searches both
/// report a minimal weight — Dijkstra always, A* under a consistent
/// heuristic — they report the same number.
pub proof fn lemma_min_weight_unique(g: Graph, s: NodeId, d: NodeId, w1: int, w2: int)
    requires
        is_min_weight(g, s, d, w1),
        is_min_weight(g, s, d, w2),
    ensures
        w1 == w2,
{
    let p1 = choose|p: Seq<NodeId>| is_path_between(g, p, s, d) && path_weight(g, p) == w1;
    let p2 = choose|p: Seq<NodeId>| is_path_between(g, p, s, d) && path_weight(g, p) == w2;
    assert(w1 <= path_weight(g, p2));
    assert(w2 <= path_weight(g, p1));
}

/// A search that returns any real route — the pruned A* variant in
/// particular — never reports a weight below the true minimum.
pub proof fn lemma_route_weight_at_least_minimum(
    g: Graph,
    s: NodeId,
    d: NodeId,
    w_min: int,
    p: Seq<NodeId>,
)
    requires
        is_min_weight(g, s, d, w_min),
        is_path_between(g, p, s, d),
    ensures
        w_min <= path_weight(g, p),
{
}

} // verus!
