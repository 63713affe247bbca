//! Unweighted shortest path by edge count: breadth-first search over a FIFO
//! queue. A node is marked discovered the moment it is first enqueued — the
//! standard discipline, chosen deliberately over the variant that defers the
//! mark until after a node's successors are scanned, which can enqueue the
//! same node several times before the mark takes effect. The route returned
//! uses as few edges as any route can; the synthetic weight equals the
//! iteration count, one per successor examined.

use vstd::prelude::*;
use crate::graph::{Graph, NodeId};
use crate::graph::{find_node, lemma_node_index_unique};
use crate::fifo::{fifo_new, fifo_add, fifo_remove, fifo_size, fifo_contents};
use crate::paths::{
    is_path_between, reachable, is_min_hops, lemma_first_exit_hops, lemma_closed_set_holds_path,
    lemma_distinct_node_ids_len,
};
use crate::search::{SearchResult, pred_map, build_path, build_pred_pairs, pair_vec_remove,
    pair_vec_insert};

verus! {

/// Everything breadth-first search records of one discovered node: the
/// stored route reaches it from the source in exactly `d` hops, repeats no
/// node, runs through `s` until its last node, and is retraced by the
/// predecessor map.
#[verifier::opaque]
pub open spec fn hop_record(
    g: Graph,
    source: NodeId,
    id: NodeId,
    p: Seq<NodeId>,
    d: int,
    s: Set<NodeId>,
    pred_m: Map<NodeId, NodeId>,
) -> bool {
    &&& is_path_between(g, p, source, id)
    &&& p.no_duplicates()
    &&& p.len() - 1 == d
    &&& forall|k: int| 0 <= k < p.len() - 1 ==> s.contains(#[trigger] p[k])
    &&& forall|k: int|
        1 <= k < p.len() ==> pred_m.contains_key(#[trigger] p[k]) && pred_m[p[k]] == p[k - 1]
}

/// The source's own record: the one-node route of zero hops.
proof fn lemma_hop_record_source(
    g: Graph,
    source: NodeId,
    s: Set<NodeId>,
    pred_m: Map<NodeId, NodeId>,
)
    requires
        g.has_node(source),
    ensures
        hop_record(g, source, source, seq![source], 0, s, pred_m),
{
    reveal(hop_record);
    assert(seq![source].len() == 1 && seq![source][0] == source);
}

/// A record against a set still holds against any larger set.
proof fn lemma_hop_record_wider(
    g: Graph,
    source: NodeId,
    id: NodeId,
    p: Seq<NodeId>,
    d: int,
    s1: Set<NodeId>,
    s2: Set<NodeId>,
    pred_m: Map<NodeId, NodeId>,
)
    requires
        hop_record(g, source, id, p, d, s1, pred_m),
        s1.subset_of(s2),
    ensures
        hop_record(g, source, id, p, d, s2, pred_m),
{
    reveal(hop_record);
}

/// Unfold a record into its parts.
proof fn lemma_hop_record_facts(
    g: Graph,
    source: NodeId,
    id: NodeId,
    p: Seq<NodeId>,
    d: int,
    s: Set<NodeId>,
    pred_m: Map<NodeId, NodeId>,
)
    requires
        hop_record(g, source, id, p, d, s, pred_m),
    ensures
        is_path_between(g, p, source, id),
        p.no_duplicates(),
        p.len() - 1 == d,
        forall|k: int| 0 <= k < p.len() - 1 ==> s.contains(#[trigger] p[k]),
        forall|k: int|
            1 <= k < p.len() ==> pred_m.contains_key(#[trigger] p[k]) && pred_m[p[k]] == p[k - 1],
{
    reveal(hop_record);
}

/// Discovering `v` from `u` extends `u`'s record into one of one more hop.
proof fn lemma_hop_record_extend(
    g: Graph,
    source: NodeId,
    u: NodeId,
    pu: Seq<NodeId>,
    du: int,
    v: NodeId,
    s: Set<NodeId>,
    pred_m: Map<NodeId, NodeId>,
)
    requires
        g.wf(),
        hop_record(g, source, u, pu, du, s, pred_m),
        s.contains(u),
        g.has_node(v),
        g.succs(u).contains(v),
        !s.contains(v),
    ensures
        hop_record(g, source, v, pu.push(v), du + 1, s, pred_m.insert(v, u)),
{
    reveal(hop_record);
    crate::paths::lemma_path_append(g, pu, v);
    assert(forall|k: int| 0 <= k < pu.len() ==> #[trigger] pu[k] != v);
    assert(pu.push(v).no_duplicates());
    let q = pu.push(v);
    let pm = pred_m.insert(v, u);
    assert forall|k: int| 1 <= k < q.len() implies pm.contains_key(#[trigger] q[k]) && pm[q[k]]
        == q[k - 1] by {
        if k < pu.len() {
            assert(q[k] == pu[k] && pu[k] != v);
        } else {
            assert(q[k] == v && q[k - 1] == pu[pu.len() - 1] == u);
        }
    }
}

/// A record of another node survives giving `v` a new predecessor, as long
/// as `v` is not yet in `s` and is not that node.
proof fn lemma_hop_record_other(
    g: Graph,
    source: NodeId,
    id: NodeId,
    p: Seq<NodeId>,
    d: int,
    s: Set<NodeId>,
    pred_m: Map<NodeId, NodeId>,
    v: NodeId,
    u2: NodeId,
)
    requires
        hop_record(g, source, id, p, d, s, pred_m),
        id != v,
        !s.contains(v),
    ensures
        hop_record(g, source, id, p, d, s, pred_m.insert(v, u2)),
{
    reveal(hop_record);
    let pm = pred_m.insert(v, u2);
    assert forall|k: int| 1 <= k < p.len() implies pm.contains_key(#[trigger] p[k]) && pm[p[k]]
        == p[k - 1] by {
        if k < p.len() - 1 {
            assert(s.contains(p[k]));
        } else {
            assert(p[k] == id);
        }
    }
}

/// When the destination stands at the front of the queue, its recorded
/// depth is at most the hop count of any route from the source: the first
/// node of any route not yet expanded was discovered at no greater depth,
/// and the queue yields nodes in nondecreasing depth.
proof fn lemma_front_min_hops(
    g: Graph,
    source: NodeId,
    destination: NodeId,
    settled: Set<NodeId>,
    depth_m: Map<NodeId, int>,
    q0: Seq<NodeId>,
)
    requires
        g.wf(),
        depth_m.contains_key(source),
        depth_m[source] == 0,
        forall|u2: NodeId, kk2: int|
            settled.contains(u2) && g.has_node(u2) && 0 <= kk2 < g.succs(u2).len()
                ==> depth_m.contains_key(#[trigger] g.succs(u2)[kk2]) && depth_m[g.succs(u2)[kk2]]
                <= depth_m[u2] + 1,
        q0.len() > 0,
        q0[0] == destination,
        !settled.contains(destination),
        forall|id: NodeId|
            #[trigger] depth_m.contains_key(id) && !settled.contains(id) ==> q0.contains(id),
        forall|k: int, l: int|
            0 <= k <= l < q0.len() ==> depth_m[#[trigger] q0[k]] <= depth_m[#[trigger] q0[l]],
    ensures
        forall|q: Seq<NodeId>|
            is_path_between(g, q, source, destination) ==> depth_m[destination] <= q.len() - 1,
{
    assert forall|q: Seq<NodeId>|
        is_path_between(g, q, source, destination) implies depth_m[destination] <= q.len()
        - 1 by {
        lemma_first_exit_hops(g, q, settled, depth_m, 0);
        let j = choose|j: int|
            0 <= j < q.len() && !settled.contains(#[trigger] q[j]) && depth_m.contains_key(q[j])
                && depth_m[q[j]] <= j && (forall|i: int|
                0 <= i < j ==> settled.contains(#[trigger] q[i]));
        let y = q[j];
        if y == destination {
            assert(depth_m[destination] <= j);
        } else {
            assert(q0.contains(y));
            let m = choose|m: int| 0 <= m < q0.len() && q0[m] == y;
            assert(depth_m[q0[0]] <= depth_m[q0[m]]);
        }
    }
}

/// Shortest route by hop count, explored in first-in first-out discovery
/// order. On success the returned route uses the minimum possible number of
/// edges, the predecessor pairs retrace it, and the reported weight is the
/// iteration count; the not-found answer comes exactly when no route exists.
#[verifier::rlimit(100)]
#[verifier::spinoff_prover]
pub fn bfs(g: &Graph, source: NodeId, destination: NodeId) -> (r: Option<SearchResult>)
    requires
        g.wf(),
        g.has_node(source),
        g.has_node(destination),
    ensures
        match r {
            Some(res) => {
                &&& is_path_between(*g, res.path@, source, destination)
                &&& res.path@.no_duplicates()
                &&& is_min_hops(*g, source, destination, res.path@.len() - 1)
                &&& res.weight == res.iterations
                &&& !pred_map(res.predecessors@).contains_key(source)
                &&& forall|k: int|
                    1 <= k < res.path@.len() ==> pred_map(res.predecessors@).contains_key(
                        #[trigger] res.path@[k],
                    ) && pred_map(res.predecessors@)[res.path@[k]] == res.path@[k - 1]
                &&& forall|k: int|
                    0 <= k < res.visited_edges@.len() ==> g.has_edge(
                        (#[trigger] res.visited_edges@[k]).0,
                        res.visited_edges@[k].1,
                    )
                &&& forall|k: int|
                    0 <= k < res.active_edges@.len() ==> g.has_edge(
                        (#[trigger] res.active_edges@[k]).0,
                        res.active_edges@[k].1,
                    ) && !res.visited_edges@.contains(res.active_edges@[k])
                &&& forall|id: NodeId|
                    #[trigger] pred_map(res.predecessors@).contains_key(id) ==> g.has_node(id)
                        && id != source && g.succs(pred_map(res.predecessors@)[id]).contains(id)
                &&& (source == destination ==> res.predecessors@.len() == 0
                    && res.visited_edges@.len() == 0 && res.active_edges@.len() == 0
                    && res.iterations == 0 && res.weight == 0)
            },
            None => !reachable(*g, source, destination),
        },
        !reachable(*g, source, destination) ==> r is None,
{
    let n = g.nodes.len();
    let si = match find_node(g, source) {
        Some(i) => i,
        None => {
            proof {
                assert(false);
            }
            0
        },
    };
    proof {
        lemma_node_index_unique(*g, si as int, source);
    }
    let mut discovered: Vec<bool> = Vec::new();
    let mut pred: Vec<Option<NodeId>> = Vec::new();
    while discovered.len() < n
        invariant
            discovered@.len() <= n,
            forall|i: int| 0 <= i < discovered@.len() ==> !(#[trigger] discovered@[i]),
        decreases n - discovered@.len(),
    {
        discovered.push(false);
    }
    while pred.len() < n
        invariant
            pred@.len() <= n,
            forall|i: int| 0 <= i < pred@.len() ==> (#[trigger] pred@[i]) is None,
        decreases n - pred@.len(),
    {
        pred.push(None);
    }
    let mut ve: Vec<(NodeId, NodeId)> = Vec::new();
    let mut ae: Vec<(NodeId, NodeId)> = Vec::new();
    let mut iterations: u128 = 0;
    let ghost mut disc: Set<NodeId> = Set::empty();
    let ghost mut depth_m: Map<NodeId, int> = Map::empty();
    let ghost mut pred_m: Map<NodeId, NodeId> = Map::empty();
    let ghost mut paths_m: Map<NodeId, Seq<NodeId>> = Map::empty();
    let ghost mut settled: Set<NodeId> = Set::empty();
    let ghost mut settled_seq: Seq<NodeId> = Seq::empty();
    discovered[si] = true;
    proof {
        disc = disc.insert(source);
        depth_m = depth_m.insert(source, 0);
        paths_m = paths_m.insert(source, seq![source]);
        lemma_hop_record_source(*g, source, settled, pred_m);
    }
    let mut queue = fifo_new();
    fifo_add(&mut queue, source);
    proof {
        assert(fifo_contents(queue)[0] == source);
        assert forall|id: NodeId|
            #[trigger] disc.contains(id) && !settled.contains(id) implies fifo_contents(
            queue,
        ).contains(id) by {
            assert(id == source);
            assert(fifo_contents(queue)[0] == id);
        }
    }
    while fifo_size(&queue) > 0
        invariant
            g.wf(),
            g.has_node(source),
            g.has_node(destination),
            n == g.nodes@.len(),
            discovered@.len() == n,
            pred@.len() == n,
            forall|i: int|
                0 <= i < n ==> (#[trigger] discovered@[i]) == disc.contains(g.nodes@[i].id),
            forall|i: int|
                0 <= i < n ==> (((#[trigger] pred@[i]) is Some) <==> pred_m.contains_key(
                    g.nodes@[i].id,
                )),
            forall|i: int|
                0 <= i < n && (#[trigger] pred@[i]) is Some ==> pred@[i]->Some_0 == pred_m[
                    g.nodes@[i].id],
            forall|id: NodeId| #[trigger] disc.contains(id) ==> g.has_node(id),
            forall|id: NodeId| #[trigger] settled.contains(id) ==> disc.contains(id),
            forall|id: NodeId| #[trigger] disc.contains(id) <==> depth_m.contains_key(id),
            forall|id: NodeId|
                #[trigger] pred_m.contains_key(id) <==> (disc.contains(id) && id != source),
            disc.contains(source),
            depth_m[source] == 0,
            forall|id: NodeId| #[trigger] disc.contains(id) ==> depth_m[id] >= 0,
            !settled.contains(destination),
            forall|id: NodeId|
                #[trigger] disc.contains(id) ==> paths_m.contains_key(id) && hop_record(
                    *g,
                    source,
                    id,
                    paths_m[id],
                    depth_m[id],
                    settled,
                    pred_m,
                ),
            // settled successors are discovered within one hop
            forall|u2: NodeId, kk2: int|
                settled.contains(u2) && g.has_node(u2) && 0 <= kk2 < g.succs(u2).len()
                    ==> disc.contains(#[trigger] g.succs(u2)[kk2]) && depth_m[g.succs(u2)[kk2]]
                    <= depth_m[u2] + 1,
            // the queue holds exactly the discovered, unsettled nodes, once
            // each, in nondecreasing depth spanning at most two levels
            forall|k: int|
                0 <= k < fifo_contents(queue).len() ==> disc.contains(
                    #[trigger] fifo_contents(queue)[k],
                ) && !settled.contains(fifo_contents(queue)[k]),
            forall|id: NodeId|
                #[trigger] disc.contains(id) && !settled.contains(id) ==> fifo_contents(
                    queue,
                ).contains(id),
            fifo_contents(queue).no_duplicates(),
            forall|k: int, l: int|
                0 <= k <= l < fifo_contents(queue).len() ==> depth_m[#[trigger] fifo_contents(
                    queue,
                )[k]] <= depth_m[#[trigger] fifo_contents(queue)[l]],
            forall|k: int|
                0 <= k < fifo_contents(queue).len() ==> depth_m[#[trigger] fifo_contents(queue)[k]]
                    <= depth_m[fifo_contents(queue)[0]] + 1,
            forall|x: NodeId, k: int|
                #[trigger] settled.contains(x) && 0 <= k < fifo_contents(queue).len() ==> depth_m[x]
                    <= depth_m[#[trigger] fifo_contents(queue)[k]],
            forall|k: int|
                0 <= k < ve@.len() ==> g.has_edge((#[trigger] ve@[k]).0, ve@[k].1)
                    && settled.contains(ve@[k].0),
            ae@.no_duplicates(),
            forall|k: int|
                0 <= k < ae@.len() ==> g.has_edge((#[trigger] ae@[k]).0, ae@[k].1)
                    && !ve@.contains(#[trigger] ae@[k]),
            forall|id: NodeId|
                #[trigger] pred_m.contains_key(id) ==> g.has_node(pred_m[id]) && g.succs(
                    pred_m[id],
                ).contains(id),
            source == destination ==> (forall|id: NodeId|
                #[trigger] disc.contains(id) ==> id == source) && ve@.len() == 0 && ae@.len() == 0
                && iterations == 0,
            settled_seq.no_duplicates(),
            forall|k: int| 0 <= k < settled_seq.len() ==> g.has_node(#[trigger] settled_seq[k]),
            settled_seq.to_set() == settled,
            settled_seq.len() <= n,
            iterations as int <= settled_seq.len() * (usize::MAX as int),
        decreases n - settled_seq.len(), fifo_contents(queue).len(),
    {
        let ghost q0 = fifo_contents(queue);
        let u = fifo_remove(&mut queue);
        proof {
            assert(u == q0[0]);
            assert(fifo_contents(queue) == q0.drop_first());
            assert(disc.contains(u) && !settled.contains(u));
            assert(forall|k: int|
                0 <= k < fifo_contents(queue).len() ==> #[trigger] fifo_contents(queue)[k] == q0[k
                    + 1]);
            assert forall|id: NodeId|
                #[trigger] disc.contains(id) && !settled.contains(id) && id != u implies
                fifo_contents(queue).contains(id) by {
                let m = choose|m: int| 0 <= m < q0.len() && q0[m] == id;
                assert(m != 0);
                assert(fifo_contents(queue)[m - 1] == id);
            }
        }
        let ui = match find_node(g, u) {
            Some(i) => i,
            None => {
                proof {
                    assert(false);
                }
                0
            },
        };
        proof {
            lemma_node_index_unique(*g, ui as int, u);
        }
        let ghost du_depth = depth_m[u];
        if u == destination {
            proof {
                assert forall|id: NodeId|
                    #[trigger] depth_m.contains_key(id) && !settled.contains(id) implies
                    q0.contains(id) by {
                    assert(disc.contains(id));
                }
                lemma_front_min_hops(*g, source, destination, settled, depth_m, q0);
                lemma_hop_record_facts(
                    *g,
                    source,
                    destination,
                    paths_m[destination],
                    depth_m[destination],
                    settled,
                    pred_m,
                );
            }
            let ghost pd = paths_m[destination];
            let path = build_path(g, &pred, source, destination, Ghost(pred_m), Ghost(pd));
            let predecessors = build_pred_pairs(g, &pred, Ghost(pred_m));
            proof {
                assert forall|k: int|
                    1 <= k < path@.len() implies pred_map(predecessors@).contains_key(
                    #[trigger] path@[k],
                ) && pred_map(predecessors@)[path@[k]] == path@[k - 1] by {
                    assert(pred_m.contains_key(path@[k]) && pred_m[path@[k]] == path@[k - 1]);
                    assert(g.has_node(path@[k]));
                }
                if pred_map(predecessors@).contains_key(source) {
                    assert(pred_m.contains_key(source));
                    assert(false);
                }
                assert(reachable(*g, source, destination));
                assert(path@.len() - 1 == depth_m[destination]);
                assert(is_min_hops(*g, source, destination, path@.len() - 1));
                assert forall|id: NodeId|
                    #[trigger] pred_map(predecessors@).contains_key(id) implies g.has_node(id)
                    && id != source && g.succs(pred_map(predecessors@)[id]).contains(id) by {
                    assert(pred_m.contains_key(id) && pred_map(predecessors@)[id] == pred_m[id]);
                    assert(disc.contains(id));
                }
                if source == destination {
                    assert forall|i: int|
                        0 <= i < pred@.len() implies !((#[trigger] pred@[i]) is Some) by {
                        if pred@[i] is Some {
                            assert(pred_m.contains_key(g.nodes@[i].id));
                            assert(disc.contains(g.nodes@[i].id));
                            assert(g.nodes@[i].id == source);
                        }
                    }
                    assert(predecessors@.len() == 0);
                }
            }
            return Some(
                SearchResult {
                    predecessors,
                    path,
                    visited_edges: ve,
                    active_edges: ae,
                    weight: iterations,
                    iterations,
                },
            );
        }
        let ghost s_in = settled.insert(u);
        proof {
            assert(!settled_seq.to_set().contains(u));
            assert(settled_seq.push(u).no_duplicates());
            assert(forall|k: int|
                0 <= k < settled_seq.push(u).len() ==> g.has_node(#[trigger] settled_seq.push(u)[k]));
            lemma_distinct_node_ids_len(*g, settled_seq.push(u));
            assert(settled_seq.len() <= n - 1);
            assert forall|id: NodeId|
                #[trigger] disc.contains(id) implies paths_m.contains_key(id) && hop_record(
                *g,
                source,
                id,
                paths_m[id],
                depth_m[id],
                s_in,
                pred_m,
            ) by {
                lemma_hop_record_wider(
                    *g,
                    source,
                    id,
                    paths_m[id],
                    depth_m[id],
                    settled,
                    s_in,
                    pred_m,
                );
            }
        }
        let ghost iter0 = iterations;
        let ghost pu = paths_m[u];
        let deg = g.nodes[ui].next_nodes.len();
        let mut kk: usize = 0;
        while kk < deg
            invariant
                g.wf(),
                g.has_node(source),
                g.has_node(destination),
                n == g.nodes@.len(),
                0 <= kk <= deg,
                deg == g.succs(u).len(),
                discovered@.len() == n,
                pred@.len() == n,
                0 <= (ui as int) < n,
                g.nodes@[ui as int].id == u,
                g.node_index(u) == ui as int,
                u != destination,
                g.has_node(u),
                disc.contains(u),
                !settled.contains(u),
                s_in == settled.insert(u),
                du_depth == depth_m[u],
                pu == paths_m[u],
                forall|i: int|
                    0 <= i < n ==> (#[trigger] discovered@[i]) == disc.contains(g.nodes@[i].id),
                forall|i: int|
                    0 <= i < n ==> (((#[trigger] pred@[i]) is Some) <==> pred_m.contains_key(
                        g.nodes@[i].id,
                    )),
                forall|i: int|
                    0 <= i < n && (#[trigger] pred@[i]) is Some ==> pred@[i]->Some_0 == pred_m[
                        g.nodes@[i].id],
                forall|id: NodeId| #[trigger] disc.contains(id) ==> g.has_node(id),
                forall|id: NodeId| #[trigger] settled.contains(id) ==> disc.contains(id),
                forall|id: NodeId| #[trigger] disc.contains(id) <==> depth_m.contains_key(id),
                forall|id: NodeId|
                    #[trigger] pred_m.contains_key(id) <==> (disc.contains(id) && id != source),
                disc.contains(source),
                depth_m[source] == 0,
                forall|id: NodeId| #[trigger] disc.contains(id) ==> depth_m[id] >= 0,
                !settled.contains(destination),
                forall|id: NodeId|
                    #[trigger] disc.contains(id) ==> paths_m.contains_key(id) && hop_record(
                        *g,
                        source,
                        id,
                        paths_m[id],
                        depth_m[id],
                        s_in,
                        pred_m,
                    ),
                forall|u2: NodeId, kk2: int|
                    settled.contains(u2) && g.has_node(u2) && 0 <= kk2 < g.succs(u2).len()
                        ==> disc.contains(#[trigger] g.succs(u2)[kk2]) && depth_m[g.succs(u2)[kk2]]
                        <= depth_m[u2] + 1,
                forall|kk2: int|
                    0 <= kk2 < kk ==> disc.contains(#[trigger] g.succs(u)[kk2]) && depth_m[
                        g.succs(u)[kk2]] <= du_depth + 1,
                forall|k: int|
                    0 <= k < fifo_contents(queue).len() ==> disc.contains(
                        #[trigger] fifo_contents(queue)[k],
                    ) && !settled.contains(fifo_contents(queue)[k]) && fifo_contents(queue)[k] != u,
                forall|id: NodeId|
                    #[trigger] disc.contains(id) && !settled.contains(id) && id != u
                        ==> fifo_contents(queue).contains(id),
                fifo_contents(queue).no_duplicates(),
                forall|k: int, l: int|
                    0 <= k <= l < fifo_contents(queue).len() ==> depth_m[#[trigger] fifo_contents(
                        queue,
                    )[k]] <= depth_m[#[trigger] fifo_contents(queue)[l]],
                forall|k: int|
                    0 <= k < fifo_contents(queue).len() ==> du_depth <= depth_m[
                        #[trigger] fifo_contents(queue)[k]] <= du_depth + 1,
                forall|x: NodeId|
                    #[trigger] settled.contains(x) ==> depth_m[x] <= du_depth,
                source != destination,
                forall|k: int|
                    0 <= k < ve@.len() ==> g.has_edge((#[trigger] ve@[k]).0, ve@[k].1)
                        && (settled.contains(ve@[k].0) || ve@[k].0 == u),
                ae@.no_duplicates(),
                forall|k: int|
                    0 <= k < ae@.len() ==> g.has_edge((#[trigger] ae@[k]).0, ae@[k].1)
                        && !ve@.contains(#[trigger] ae@[k]),
                forall|id: NodeId|
                    #[trigger] pred_m.contains_key(id) ==> g.has_node(pred_m[id]) && g.succs(
                        pred_m[id],
                    ).contains(id),
                settled_seq.no_duplicates(),
                forall|k: int| 0 <= k < settled_seq.len() ==> g.has_node(#[trigger] settled_seq[k]),
                settled_seq.to_set() == settled,
                settled_seq.len() <= n - 1,
                iter0 as int <= settled_seq.len() * (usize::MAX as int),
                iterations as int == iter0 as int + kk,
            decreases deg - kk,
        {
            proof {
                assert(kk < deg <= usize::MAX);
                assert(settled_seq.len() * (usize::MAX as int) + kk + 1 <= (settled_seq.len() + 1)
                    * (usize::MAX as int)) by (nonlinear_arith)
                    requires
                        0 <= settled_seq.len(),
                        0 <= kk,
                        kk + 1 <= usize::MAX as int,
                ;
                assert((settled_seq.len() + 1) * (usize::MAX as int) <= (n as int) * (
                usize::MAX as int)) by (nonlinear_arith)
                    requires
                        settled_seq.len() + 1 <= n as int,
                        0 <= usize::MAX as int,
                ;
                assert((n as int) * (usize::MAX as int) < u128::MAX) by (nonlinear_arith)
                    requires
                        0 <= n as int <= usize::MAX as int,
                        usize::MAX as int <= u64::MAX as int,
                ;
            }
            iterations = iterations + 1;
            let v = g.nodes[ui].next_nodes[kk];
            proof {
                assert(g.succs(u)[kk as int] == v);
                assert(g.has_node(v));
            }
            let vi = match find_node(g, v) {
                Some(i) => i,
                None => {
                    proof {
                        assert(false);
                    }
                    0
                },
            };
            proof {
                lemma_node_index_unique(*g, vi as int, v);
            }
            if !discovered[vi] {
                let ghost d0 = disc;
                let ghost pm0 = paths_m;
                let ghost pr0 = pred_m;
                let ghost q1 = fifo_contents(queue);
                proof {
                    assert(!disc.contains(v));
                    assert(!settled.contains(v) && v != u);
                    assert(!s_in.contains(v));
                    lemma_hop_record_extend(*g, source, u, pu, du_depth, v, s_in, pred_m);
                    disc = disc.insert(v);
                    depth_m = depth_m.insert(v, du_depth + 1);
                    pred_m = pred_m.insert(v, u);
                    paths_m = paths_m.insert(v, pu.push(v));
                    assert forall|id: NodeId|
                        #[trigger] disc.contains(id) implies paths_m.contains_key(id) && hop_record(
                        *g,
                        source,
                        id,
                        paths_m[id],
                        depth_m[id],
                        s_in,
                        pred_m,
                    ) by {
                        if id != v {
                            lemma_hop_record_other(
                                *g,
                                source,
                                id,
                                pm0[id],
                                depth_m[id],
                                s_in,
                                pr0,
                                v,
                                u,
                            );
                        }
                    }
                }
                discovered[vi] = true;
                pred[vi] = Some(u);
                proof {
                    assert forall|i: int|
                        0 <= i < n && i != vi as int implies g.nodes@[i].id != v by {}
                    assert forall|i: int|
                        0 <= i < n implies (#[trigger] discovered@[i]) == disc.contains(
                        g.nodes@[i].id,
                    ) by {
                        if i != vi as int {
                            assert(g.nodes@[i].id != v);
                        }
                    }
                    assert forall|i: int|
                        0 <= i < n implies (((#[trigger] pred@[i]) is Some)
                            <==> pred_m.contains_key(g.nodes@[i].id)) by {
                        if i != vi as int {
                            assert(g.nodes@[i].id != v);
                        }
                    }
                    assert forall|i: int|
                        0 <= i < n && (#[trigger] pred@[i]) is Some implies pred@[i]->Some_0
                            == pred_m[g.nodes@[i].id] by {
                        if i != vi as int {
                            assert(g.nodes@[i].id != v);
                        }
                    }
                }
                let ghost ve0 = ve@;
                let ghost ae0 = ae@;
                ve.push((u, v));
                pair_vec_remove(&mut ae, (u, v));
                proof {
                    assert forall|k: int|
                        0 <= k < ve@.len() implies g.has_edge((#[trigger] ve@[k]).0, ve@[k].1)
                        && (settled.contains(ve@[k].0) || ve@[k].0 == u) by {
                        if k < ve0.len() {
                            assert(ve@[k] == ve0[k]);
                        } else {
                            assert(ve@[k] == (u, v));
                        }
                    }
                    assert forall|k: int|
                        0 <= k < ae@.len() implies g.has_edge((#[trigger] ae@[k]).0, ae@[k].1)
                        && !ve@.contains(#[trigger] ae@[k]) by {
                        assert(ae@.contains(ae@[k]));
                        assert(ae0.contains(ae@[k]));
                        assert(ae@[k] != (u, v));
                        if ve@.contains(ae@[k]) {
                            let k3 = choose|k3: int| 0 <= k3 < ve@.len() && ve@[k3] == ae@[k];
                            if k3 < ve0.len() {
                                assert(ve0.contains(ae@[k]));
                            } else {
                                assert(ve@[k3] == (u, v));
                            }
                            assert(false);
                        }
                    }
                }
                fifo_add(&mut queue, v);
                proof {
                    let q2 = fifo_contents(queue);
                    assert(q2 == q1.push(v));
                    assert(forall|k: int| 0 <= k < q1.len() ==> q2[k] == #[trigger] q1[k]);
                    assert(q2[q1.len() as int] == v);
                    assert(q2.no_duplicates()) by {
                        assert(forall|k: int| 0 <= k < q1.len() ==> #[trigger] q1[k] != v);
                    }
                    assert forall|id: NodeId|
                        #[trigger] disc.contains(id) && !settled.contains(id) && id != u implies
                        q2.contains(id) by {
                        if id == v {
                            assert(q2[q1.len() as int] == id);
                        } else {
                            assert(d0.contains(id));
                            let m = choose|m: int| 0 <= m < q1.len() && q1[m] == id;
                            assert(q2[m] == id);
                        }
                    }
                }
                proof {
                    assert forall|k: int|
                        0 <= k < ve@.len() implies (#[trigger] ve@[k]).0 != v by {
                        assert(settled.contains(ve@[k].0) || ve@[k].0 == u);
                    }
                }
                let vdeg = g.nodes[vi].next_nodes.len();
                let mut t: usize = 0;
                while t < vdeg
                    invariant
                        g.wf(),
                        0 <= t <= vdeg,
                        0 <= (vi as int) < g.nodes@.len(),
                        vdeg == g.nodes@[vi as int].next_nodes@.len(),
                        g.nodes@[vi as int].id == v,
                        g.node_index(v) == vi as int,
                        ae@.no_duplicates(),
                        forall|k: int|
                            0 <= k < ae@.len() ==> g.has_edge(
                                (#[trigger] ae@[k]).0,
                                ae@[k].1,
                            ) && !ve@.contains(#[trigger] ae@[k]),
                        forall|k: int| 0 <= k < ve@.len() ==> (#[trigger] ve@[k]).0 != v,
                    decreases vdeg - t,
                {
                    let wnode = g.nodes[vi].next_nodes[t];
                    proof {
                        assert(g.succs(v)[t as int] == wnode);
                        assert(g.has_edge(v, wnode));
                    }
                    let ghost ae1 = ae@;
                    pair_vec_insert(&mut ae, (v, wnode));
                    proof {
                        assert forall|k: int|
                            0 <= k < ae@.len() implies g.has_edge(
                            (#[trigger] ae@[k]).0,
                            ae@[k].1,
                        ) && !ve@.contains(#[trigger] ae@[k]) by {
                            assert(ae@.contains(ae@[k]));
                            if ae@[k] == (v, wnode) {
                                if ve@.contains(ae@[k]) {
                                    let k3 = choose|k3: int|
                                        0 <= k3 < ve@.len() && ve@[k3] == ae@[k];
                                    assert(ve@[k3].0 == v);
                                    assert(false);
                                }
                            } else {
                                assert(ae1.contains(ae@[k]));
                            }
                        }
                    }
                    t = t + 1;
                }
            } else {
                proof {
                    assert(disc.contains(v));
                    if settled.contains(v) {
                        assert(depth_m[v] <= du_depth + 1);
                    } else if v == u {
                        assert(depth_m[v] == du_depth);
                    } else {
                        assert(fifo_contents(queue).contains(v));
                        let m = choose|m: int|
                            0 <= m < fifo_contents(queue).len() && fifo_contents(queue)[m] == v;
                        assert(depth_m[fifo_contents(queue)[m]] <= du_depth + 1);
                    }
                }
            }
            kk = kk + 1;
        }
        proof {
            settled = settled.insert(u);
            let ghost prev = settled_seq;
            settled_seq = settled_seq.push(u);
            assert forall|x: NodeId| #[trigger] settled_seq.contains(x) implies (prev.contains(x)
                || x == u) by {
                let idx = choose|idx: int| 0 <= idx < settled_seq.len() && settled_seq[idx] == x;
                if idx < prev.len() {
                    assert(prev[idx] == x);
                }
            }
            assert forall|x: NodeId| #[trigger] prev.contains(x) implies settled_seq.contains(
                x,
            ) by {
                let idx = choose|idx: int| 0 <= idx < prev.len() && prev[idx] == x;
                assert(settled_seq[idx] == x);
            }
            assert(settled_seq == prev.push(u));
            assert(settled_seq[prev.len() as int] == u);
            assert(settled_seq.contains(u));
            assert(settled_seq.to_set() =~= settled);
            assert(iterations as int <= settled_seq.len() * (usize::MAX as int)) by {
                assert(iter0 as int <= (settled_seq.len() - 1) * (usize::MAX as int));
                assert(kk <= usize::MAX as int);
                assert((settled_seq.len() - 1) * (usize::MAX as int) + usize::MAX as int
                    == settled_seq.len() * (usize::MAX as int)) by (nonlinear_arith)
                    requires
                        1 <= settled_seq.len(),
                ;
            }
        }
    }
    proof {
        if reachable(*g, source, destination) {
            let q = choose|q: Seq<NodeId>| is_path_between(*g, q, source, destination);
            assert(settled.contains(source));
            assert forall|u2: NodeId, kk2: int|
                settled.contains(u2) && g.has_node(u2) && 0 <= kk2 < g.succs(u2).len() implies
                settled.contains(#[trigger] g.succs(u2)[kk2]) by {
                assert(disc.contains(g.succs(u2)[kk2]));
            }
            lemma_closed_set_holds_path(*g, q, settled);
            assert(false);
        }
    }
    None
}

} // verus!
