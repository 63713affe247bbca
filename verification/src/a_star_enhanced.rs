//! The pruned A* variant: destination-relative heuristic plus a corridor
//! bound that skips relaxing successors lying too far from the destination.
//! Pruned successors may carry the true best route, so this variant promises
//! a real route of the reported weight — possibly worse than the minimum —
//! and makes no promise of finding one.

use vstd::prelude::*;
use crate::graph::{Graph, NodeId, MAX_EDGE_WEIGHT_UH};
use crate::graph::{find_node, edge_weight_uh, lemma_node_index_unique};
use crate::frontier::{Frontier, State};
use crate::paths::{
    is_path_between, reachable, path_weight, is_min_weight, lemma_path_weight_bounds,
    lemma_simple_path_len, lemma_step_weight_bounds,
};
use crate::search::{
    SearchResult, search_by_weight, pred_map, MAX_HEURISTIC_UH, node_record, lemma_record_source,
    lemma_record_wider, lemma_record_facts, lemma_record_extend, lemma_record_other,
    build_path, build_pred_pairs, pair_vec_remove, pair_vec_insert,
};
use crate::dijkstra::lemma_zero_heuristic_consistent;

verus! {

/// The assumed maximum travel speed of this variant, in km/h.
pub const MAX_SPEED_ENHANCED_KMH: u64 = 150;

/// Every straight-line distance handed in is zero — so every heuristic
/// weight is zero and the corridor test can never exceed its bound.
pub open spec fn zero_distances(d: Seq<u64>) -> bool {
    forall|i: int| 0 <= i < d.len() ==> #[trigger] d[i] == 0
}

/// Heuristic-guided search with corridor pruning. `dist_to_destination_m`
/// gives, per node index, the straight-line distance in metres to the
/// destination. Any route returned is a real route from `source` to
/// `destination` whose weight is its true travel time — never less than the
/// true minimum — and the predecessor pairs retrace it. Pruning may lose
/// routes, so when no route is returned little is promised beyond an
/// unreachable destination, where no route can be fabricated; but with
/// all-zero distances the corridor never prunes, and then a route is found
/// exactly when one exists and its weight is the exact minimum.
#[verifier::rlimit(100)]
#[verifier::spinoff_prover]
pub fn a_star_enhanced(
    g: &Graph,
    source: NodeId,
    destination: NodeId,
    dist_to_destination_m: &Vec<u64>,
) -> (r: Option<SearchResult>)
    requires
        g.wf(),
        g.has_node(source),
        g.has_node(destination),
        dist_to_destination_m@.len() == g.nodes@.len(),
    ensures
        match r {
            Some(res) => {
                &&& is_path_between(*g, res.path@, source, destination)
                &&& res.path@.no_duplicates()
                &&& path_weight(*g, res.path@) == res.weight as int
                &&& !pred_map(res.predecessors@).contains_key(source)
                &&& forall|k: int|
                    1 <= k < res.path@.len() ==> pred_map(res.predecessors@).contains_key(
                        #[trigger] res.path@[k],
                    ) && pred_map(res.predecessors@)[res.path@[k]] == res.path@[k - 1]
                &&& res.iterations == res.visited_edges@.len()
                &&& forall|k: int|
                    0 <= k < res.visited_edges@.len() ==> g.has_edge(
                        (#[trigger] res.visited_edges@[k]).0,
                        res.visited_edges@[k].1,
                    )
                &&& forall|k: int|
                    0 <= k < res.active_edges@.len() ==> g.has_edge(
                        (#[trigger] res.active_edges@[k]).0,
                        res.active_edges@[k].1,
                    ) && !res.visited_edges@.contains(res.active_edges@[k])
                &&& forall|id: NodeId|
                    #[trigger] pred_map(res.predecessors@).contains_key(id) ==> g.has_node(id)
                        && id != source && g.succs(pred_map(res.predecessors@)[id]).contains(id)
                &&& (source == destination ==> res.predecessors@.len() == 0
                    && res.visited_edges@.len() == 0 && res.active_edges@.len() == 0
                    && res.iterations == 0 && res.weight == 0)
                &&& (zero_distances(dist_to_destination_m@) ==> is_min_weight(
                    *g,
                    source,
                    destination,
                    res.weight as int,
                ))
            },
            None => true,
        },
        !reachable(*g, source, destination) ==> r is None,
        source == destination ==> r is Some,
        zero_distances(dist_to_destination_m@) && r is None ==> !reachable(
            *g,
            source,
            destination,
        ),
{
    let n = g.nodes.len();
    // with all-zero distances every heuristic weight is zero and the
    // corridor never prunes: the search is exactly the zero-heuristic
    // weighted search, run as such so its full guarantees apply
    let mut all_zero = true;
    let mut zi: usize = 0;
    while zi < n
        invariant
            0 <= zi <= n,
            n == dist_to_destination_m@.len(),
            all_zero <==> (forall|k: int|
                0 <= k < zi ==> #[trigger] dist_to_destination_m@[k] == 0),
        decreases n - zi,
    {
        if dist_to_destination_m[zi] != 0 {
            all_zero = false;
        }
        zi = zi + 1;
    }
    if all_zero {
        let mut hz: Vec<u128> = Vec::new();
        while hz.len() < n
            invariant
                hz@.len() <= n,
                forall|i: int| 0 <= i < hz@.len() ==> #[trigger] hz@[i] == 0,
            decreases n - hz@.len(),
        {
            hz.push(0);
        }
        proof {
            lemma_zero_heuristic_consistent(*g, hz@);
        }
        let r2 = search_by_weight(g, source, destination, &hz);
        proof {
            if r2 is Some {
                let res = r2->Some_0;
                assert(is_path_between(*g, res.path@, source, destination));
                assert(reachable(*g, source, destination));
                assert(is_min_weight(*g, source, destination, res.weight as int));
            } else if source == destination {
                assert(seq![source].len() == 1 && seq![source][0] == source);
                assert(is_path_between(*g, seq![source], source, source));
                assert(reachable(*g, source, destination));
                assert(false);
            }
        }
        return r2;
    }
    let si = match find_node(g, source) {
        Some(i) => i,
        None => {
            proof {
                assert(false);
            }
            0
        },
    };
    proof {
        lemma_node_index_unique(*g, si as int, source);
    }
    let source_to_destination_m = dist_to_destination_m[si];
    let mut dist: Vec<Option<u128>> = Vec::new();
    let mut pred: Vec<Option<NodeId>> = Vec::new();
    let mut visited: Vec<bool> = Vec::new();
    while dist.len() < n
        invariant
            dist@.len() <= n,
            forall|i: int| 0 <= i < dist@.len() ==> (#[trigger] dist@[i]) is None,
        decreases n - dist@.len(),
    {
        dist.push(None);
    }
    while pred.len() < n
        invariant
            pred@.len() <= n,
            forall|i: int| 0 <= i < pred@.len() ==> (#[trigger] pred@[i]) is None,
        decreases n - pred@.len(),
    {
        pred.push(None);
    }
    while visited.len() < n
        invariant
            visited@.len() <= n,
            forall|i: int| 0 <= i < visited@.len() ==> !(#[trigger] visited@[i]),
        decreases n - visited@.len(),
    {
        visited.push(false);
    }
    let mut frontier = Frontier::new();
    let mut ve: Vec<(NodeId, NodeId)> = Vec::new();
    let mut ae: Vec<(NodeId, NodeId)> = Vec::new();
    let mut iterations: u128 = 0;
    let mut best_node_distance: Option<u64> = None;
    let ghost mut dist_m: Map<NodeId, u128> = Map::empty();
    let ghost mut pred_m: Map<NodeId, NodeId> = Map::empty();
    let ghost mut paths_m: Map<NodeId, Seq<NodeId>> = Map::empty();
    let ghost mut settled: Set<NodeId> = Set::empty();
    let ghost mut settled_seq: Seq<NodeId> = Seq::empty();
    dist[si] = Some(0u128);
    proof {
        dist_m = dist_m.insert(source, 0u128);
        paths_m = paths_m.insert(source, seq![source]);
        lemma_record_source(*g, source, settled, pred_m);
    }
    frontier.push(State { weight: 0, node_id: source });
    proof {
        assert(frontier@[0].node_id == source);
    }
    while frontier.len() > 0
        invariant
            g.wf(),
            g.has_node(source),
            g.has_node(destination),
            n == g.nodes@.len(),
            dist_to_destination_m@.len() == n,
            dist@.len() == n,
            pred@.len() == n,
            visited@.len() == n,
            forall|i: int|
                0 <= i < n ==> (((#[trigger] dist@[i]) is Some) <==> dist_m.contains_key(
                    g.nodes@[i].id,
                )),
            forall|i: int|
                0 <= i < n && (#[trigger] dist@[i]) is Some ==> dist@[i]->Some_0 == dist_m[
                    g.nodes@[i].id],
            forall|i: int|
                0 <= i < n ==> (((#[trigger] pred@[i]) is Some) <==> pred_m.contains_key(
                    g.nodes@[i].id,
                )),
            forall|i: int|
                0 <= i < n && (#[trigger] pred@[i]) is Some ==> pred@[i]->Some_0 == pred_m[
                    g.nodes@[i].id],
            forall|i: int|
                0 <= i < n ==> (#[trigger] visited@[i]) == settled.contains(g.nodes@[i].id),
            forall|id: NodeId| #[trigger] dist_m.contains_key(id) ==> g.has_node(id),
            forall|id: NodeId| #[trigger] settled.contains(id) ==> dist_m.contains_key(id),
            forall|id: NodeId|
                #[trigger] pred_m.contains_key(id) <==> (dist_m.contains_key(id) && id != source),
            dist_m.contains_key(source),
            dist_m[source] == 0,
            forall|id: NodeId|
                #[trigger] dist_m.contains_key(id) ==> paths_m.contains_key(id) && node_record(
                    *g,
                    source,
                    id,
                    paths_m[id],
                    dist_m[id],
                    settled,
                    pred_m,
                ),
            forall|k: int|
                0 <= k < frontier@.len() ==> dist_m.contains_key(
                    (#[trigger] frontier@[k]).node_id,
                ),
            !zero_distances(dist_to_destination_m@),
            dist_to_destination_m@.len() == n,
            iterations as int == ve@.len(),
            forall|k: int|
                0 <= k < ve@.len() ==> g.has_edge((#[trigger] ve@[k]).0, ve@[k].1)
                    && settled.contains(ve@[k].0),
            ae@.no_duplicates(),
            forall|k: int|
                0 <= k < ae@.len() ==> g.has_edge((#[trigger] ae@[k]).0, ae@[k].1)
                    && !ve@.contains(#[trigger] ae@[k]),
            forall|id: NodeId|
                #[trigger] pred_m.contains_key(id) ==> g.has_node(pred_m[id]) && g.succs(
                    pred_m[id],
                ).contains(id),
            source == destination ==> (forall|id: NodeId|
                #[trigger] dist_m.contains_key(id) ==> id == source) && ve@.len() == 0
                && ae@.len() == 0 && iterations == 0,
            settled_seq.no_duplicates(),
            forall|k: int| 0 <= k < settled_seq.len() ==> g.has_node(#[trigger] settled_seq[k]),
            settled_seq.to_set() == settled,
            settled_seq.len() <= n,
            iterations as int <= settled_seq.len() * (usize::MAX as int),
            source == destination ==> exists|k: int|
                0 <= k < frontier@.len() && (#[trigger] frontier@[k]).node_id == destination,
        decreases n - settled_seq.len(), frontier@.len(),
    {
        let ghost fr0 = frontier@;
        let st = frontier.pop_min();
        let ghost i0 = choose|i: int|
            0 <= i < fr0.len() && st == fr0[i] && frontier@ == fr0.remove(i);
        let u = st.node_id;
        proof {
            assert(dist_m.contains_key(u));
            assert forall|k2: int|
                0 <= k2 < frontier@.len() implies dist_m.contains_key(
                (#[trigger] frontier@[k2]).node_id,
            ) by {
                if k2 < i0 {
                    assert(frontier@[k2] == fr0[k2]);
                } else {
                    assert(frontier@[k2] == fr0[k2 + 1]);
                }
            }
        }
        let ui = match find_node(g, u) {
            Some(i) => i,
            None => {
                proof {
                    assert(false);
                }
                0
            },
        };
        proof {
            lemma_node_index_unique(*g, ui as int, u);
        }
        let du = match dist[ui] {
            Some(d) => d,
            None => {
                proof {
                    assert(false);
                }
                0
            },
        };
        if u == destination {
            proof {
                lemma_record_facts(
                    *g,
                    source,
                    destination,
                    paths_m[destination],
                    dist_m[destination],
                    settled,
                    pred_m,
                );
            }
            let ghost pd = paths_m[destination];
            let path = build_path(g, &pred, source, destination, Ghost(pred_m), Ghost(pd));
            let predecessors = build_pred_pairs(g, &pred, Ghost(pred_m));
            proof {
                assert forall|k: int|
                    1 <= k < path@.len() implies pred_map(predecessors@).contains_key(
                    #[trigger] path@[k],
                ) && pred_map(predecessors@)[path@[k]] == path@[k - 1] by {
                    assert(pred_m.contains_key(path@[k]) && pred_m[path@[k]] == path@[k - 1]);
                    assert(g.has_node(path@[k]));
                }
                if pred_map(predecessors@).contains_key(source) {
                    assert(pred_m.contains_key(source));
                    assert(false);
                }
                assert(reachable(*g, source, destination));
                assert forall|id: NodeId|
                    #[trigger] pred_map(predecessors@).contains_key(id) implies g.has_node(id)
                    && id != source && g.succs(pred_map(predecessors@)[id]).contains(id) by {
                    assert(pred_m.contains_key(id) && pred_map(predecessors@)[id] == pred_m[id]);
                    assert(dist_m.contains_key(id));
                }
                if source == destination {
                    assert forall|i: int|
                        0 <= i < pred@.len() implies !((#[trigger] pred@[i]) is Some) by {
                        if pred@[i] is Some {
                            assert(pred_m.contains_key(g.nodes@[i].id));
                            assert(dist_m.contains_key(g.nodes@[i].id));
                            assert(g.nodes@[i].id == source);
                        }
                    }
                    assert(predecessors@.len() == 0);
                    assert(du == dist_m[source]);
                }
            }
            return Some(
                SearchResult {
                    predecessors,
                    path,
                    visited_edges: ve,
                    active_edges: ae,
                    weight: du,
                    iterations,
                },
            );
        }
        proof {
            if source == destination {
                assert(u != destination);
                let k = choose|k: int|
                    0 <= k < fr0.len() && (#[trigger] fr0[k]).node_id == destination;
                assert(fr0[i0].node_id == u && k != i0);
                if k < i0 {
                    assert(frontier@[k].node_id == destination);
                } else {
                    assert(frontier@[k - 1].node_id == destination);
                }
            }
        }
        if visited[ui] {
            continue ;
        }
        visited[ui] = true;
        let ghost s_in = settled.insert(u);
        proof {
            assert(!settled.contains(u));
            assert(!settled_seq.to_set().contains(u));
            assert(settled_seq.push(u).no_duplicates());
            assert(forall|k: int|
                0 <= k < settled_seq.push(u).len() ==> g.has_node(#[trigger] settled_seq.push(u)[k]));
            crate::paths::lemma_distinct_node_ids_len(*g, settled_seq.push(u));
            assert(settled_seq.len() <= n - 1);
            assert forall|id: NodeId|
                #[trigger] dist_m.contains_key(id) implies paths_m.contains_key(id) && node_record(
                *g,
                source,
                id,
                paths_m[id],
                dist_m[id],
                s_in,
                pred_m,
            ) by {
                lemma_record_wider(*g, source, id, paths_m[id], dist_m[id], settled, s_in, pred_m);
            }
        }
        let ghost iter0 = iterations;
        let ghost pu = paths_m[u];
        let mut level_min_distance: Option<u64> = None;
        let deg = g.nodes[ui].next_nodes.len();
        let mut kk: usize = 0;
        while kk < deg
            invariant
                g.wf(),
                g.has_node(source),
                g.has_node(destination),
                n == g.nodes@.len(),
                dist_to_destination_m@.len() == n,
                0 <= kk <= deg,
                deg == g.succs(u).len(),
                dist@.len() == n,
                pred@.len() == n,
                visited@.len() == n,
                0 <= (ui as int) < n,
                g.nodes@[ui as int].id == u,
                g.node_index(u) == ui as int,
                u != destination,
                g.has_node(u),
                dist_m.contains_key(u),
                du == dist_m[u],
                pu == paths_m[u],
                visited@[ui as int],
                !settled.contains(u),
                s_in == settled.insert(u),
                forall|i: int|
                    0 <= i < n ==> (((#[trigger] dist@[i]) is Some) <==> dist_m.contains_key(
                        g.nodes@[i].id,
                    )),
                forall|i: int|
                    0 <= i < n && (#[trigger] dist@[i]) is Some ==> dist@[i]->Some_0 == dist_m[
                        g.nodes@[i].id],
                forall|i: int|
                    0 <= i < n ==> (((#[trigger] pred@[i]) is Some) <==> pred_m.contains_key(
                        g.nodes@[i].id,
                    )),
                forall|i: int|
                    0 <= i < n && (#[trigger] pred@[i]) is Some ==> pred@[i]->Some_0 == pred_m[
                        g.nodes@[i].id],
                forall|i: int|
                    0 <= i < n && i != ui as int ==> (#[trigger] visited@[i]) == settled.contains(
                        g.nodes@[i].id,
                    ),
                forall|id: NodeId| #[trigger] dist_m.contains_key(id) ==> g.has_node(id),
                forall|id: NodeId| #[trigger] settled.contains(id) ==> dist_m.contains_key(id),
                forall|id: NodeId|
                    #[trigger] pred_m.contains_key(id) <==> (dist_m.contains_key(id) && id
                        != source),
                dist_m.contains_key(source),
                dist_m[source] == 0,
                forall|id: NodeId|
                    #[trigger] dist_m.contains_key(id) ==> paths_m.contains_key(id) && node_record(
                        *g,
                        source,
                        id,
                        paths_m[id],
                        dist_m[id],
                        s_in,
                        pred_m,
                    ),
                forall|k: int|
                    0 <= k < frontier@.len() ==> dist_m.contains_key(
                        (#[trigger] frontier@[k]).node_id,
                    ),
                source != destination,
                !zero_distances(dist_to_destination_m@),
                iterations as int == ve@.len(),
                forall|k: int|
                    0 <= k < ve@.len() ==> g.has_edge((#[trigger] ve@[k]).0, ve@[k].1)
                        && (settled.contains(ve@[k].0) || ve@[k].0 == u),
                ae@.no_duplicates(),
                forall|k: int|
                    0 <= k < ae@.len() ==> g.has_edge((#[trigger] ae@[k]).0, ae@[k].1)
                        && !ve@.contains(#[trigger] ae@[k]),
                forall|id: NodeId|
                    #[trigger] pred_m.contains_key(id) ==> g.has_node(pred_m[id]) && g.succs(
                        pred_m[id],
                    ).contains(id),
                settled_seq.no_duplicates(),
                forall|k: int| 0 <= k < settled_seq.len() ==> g.has_node(#[trigger] settled_seq[k]),
                settled_seq.to_set() == settled,
                settled_seq.len() <= n - 1,
                iter0 as int <= settled_seq.len() * (usize::MAX as int),
                iterations as int == iter0 as int + kk,
            decreases deg - kk,
        {
            proof {
                assert(kk < deg <= usize::MAX);
                assert(settled_seq.len() * (usize::MAX as int) + kk + 1 <= (settled_seq.len() + 1)
                    * (usize::MAX as int)) by (nonlinear_arith)
                    requires
                        0 <= settled_seq.len(),
                        0 <= kk,
                        kk + 1 <= usize::MAX as int,
                ;
                assert((settled_seq.len() + 1) * (usize::MAX as int) <= (n as int) * (
                usize::MAX as int)) by (nonlinear_arith)
                    requires
                        settled_seq.len() + 1 <= n as int,
                        0 <= usize::MAX as int,
                ;
                assert((n as int) * (usize::MAX as int) < u128::MAX) by (nonlinear_arith)
                    requires
                        0 <= n as int <= usize::MAX as int,
                        usize::MAX as int <= u64::MAX as int,
                ;
            }
            iterations = iterations + 1;
            let v = g.nodes[ui].next_nodes[kk];
            proof {
                assert(g.succs(u)[kk as int] == v);
                assert(g.has_node(v));
                assert(g.has_edge(u, v));
                lemma_step_weight_bounds(*g, u, v);
            }
            let vi = match find_node(g, v) {
                Some(i) => i,
                None => {
                    proof {
                        assert(false);
                    }
                    0
                },
            };
            proof {
                lemma_node_index_unique(*g, vi as int, v);
            }
            let w = edge_weight_uh(g, u, v);
            let ghost ve0 = ve@;
            let ghost ae0 = ae@;
            ve.push((u, v));
            pair_vec_remove(&mut ae, (u, v));
            proof {
                assert forall|k: int|
                    0 <= k < ve@.len() implies g.has_edge((#[trigger] ve@[k]).0, ve@[k].1) && (
                settled.contains(ve@[k].0) || ve@[k].0 == u) by {
                    if k < ve0.len() {
                        assert(ve@[k] == ve0[k]);
                    } else {
                        assert(ve@[k] == (u, v));
                    }
                }
                assert forall|k: int|
                    0 <= k < ae@.len() implies g.has_edge((#[trigger] ae@[k]).0, ae@[k].1)
                    && !ve@.contains(#[trigger] ae@[k]) by {
                    assert(ae@.contains(ae@[k]));
                    assert(ae0.contains(ae@[k]));
                    assert(ae@[k] != (u, v));
                    if ve@.contains(ae@[k]) {
                        let k3 = choose|k3: int| 0 <= k3 < ve@.len() && ve@[k3] == ae@[k];
                        if k3 < ve0.len() {
                            assert(ve0.contains(ae@[k]));
                        } else {
                            assert(ve@[k3] == (u, v));
                        }
                        assert(false);
                    }
                }
            }
            proof {
                lemma_record_facts(*g, source, u, pu, du, s_in, pred_m);
                lemma_path_weight_bounds(*g, pu);
                lemma_simple_path_len(*g, pu);
                assert((pu.len() - 1) * (MAX_EDGE_WEIGHT_UH as int) <= (n - 1) * (
                MAX_EDGE_WEIGHT_UH as int)) by (nonlinear_arith)
                    requires
                        1 <= pu.len() <= n as int,
                ;
                assert((n - 1) * (MAX_EDGE_WEIGHT_UH as int) + MAX_EDGE_WEIGHT_UH <= (n as int) * (
                MAX_EDGE_WEIGHT_UH as int)) by (nonlinear_arith)
                    requires
                        1 <= n as int,
                ;
                assert((n as int) * (MAX_EDGE_WEIGHT_UH as int) + MAX_HEURISTIC_UH < u128::MAX)
                    by (nonlinear_arith)
                    requires
                        0 <= n as int <= usize::MAX as int,
                        usize::MAX as int <= u64::MAX as int,
                ;
            }
            let destination_distance = dist_to_destination_m[vi];
            let prune = match best_node_distance {
                Some(b) => (destination_distance as u128) > 2 * (b as u128),
                None => false,
            };
            let cand = du + (w as u128);
            if !prune && !visited[vi] {
                let do_relax = match dist[vi] {
                    Some(dv) => cand < dv,
                    None => true,
                };
                if do_relax {
                    let ghost dm0 = dist_m;
                    let ghost pm0 = paths_m;
                    let ghost pr0 = pred_m;
                    proof {
                        assert(vi as int != ui as int);
                        assert(v != u);
                        assert(!settled.contains(v));
                        assert(!s_in.contains(v));
                        lemma_record_extend(*g, source, u, pu, du, v, cand, s_in, pred_m);
                        dist_m = dist_m.insert(v, cand);
                        pred_m = pred_m.insert(v, u);
                        paths_m = paths_m.insert(v, pu.push(v));
                        assert forall|id: NodeId|
                            #[trigger] dist_m.contains_key(id) implies paths_m.contains_key(id)
                            && node_record(
                            *g,
                            source,
                            id,
                            paths_m[id],
                            dist_m[id],
                            s_in,
                            pred_m,
                        ) by {
                            if id != v {
                                lemma_record_other(
                                    *g,
                                    source,
                                    id,
                                    pm0[id],
                                    dm0[id],
                                    s_in,
                                    pr0,
                                    v,
                                    u,
                                );
                            }
                        }
                    }
                    dist[vi] = Some(cand);
                    pred[vi] = Some(u);
                    proof {
                        assert forall|i: int|
                            0 <= i < n && i != vi as int implies g.nodes@[i].id != v by {}
                        assert forall|i: int|
                            0 <= i < n implies (((#[trigger] dist@[i]) is Some)
                                <==> dist_m.contains_key(g.nodes@[i].id)) by {
                            if i != vi as int {
                                assert(g.nodes@[i].id != v);
                            }
                        }
                        assert forall|i: int|
                            0 <= i < n && (#[trigger] dist@[i]) is Some implies dist@[i]->Some_0
                                == dist_m[g.nodes@[i].id] by {
                            if i != vi as int {
                                assert(g.nodes@[i].id != v);
                            }
                        }
                        assert forall|i: int|
                            0 <= i < n implies (((#[trigger] pred@[i]) is Some)
                                <==> pred_m.contains_key(g.nodes@[i].id)) by {
                            if i != vi as int {
                                assert(g.nodes@[i].id != v);
                            }
                        }
                        assert forall|i: int|
                            0 <= i < n && (#[trigger] pred@[i]) is Some implies pred@[i]->Some_0
                                == pred_m[g.nodes@[i].id] by {
                            if i != vi as int {
                                assert(g.nodes@[i].id != v);
                            }
                        }
                    }
                    level_min_distance = match level_min_distance {
                        Some(m) => {
                            if destination_distance < m {
                                Some(destination_distance)
                            } else {
                                Some(m)
                            }
                        },
                        None => Some(destination_distance),
                    };
                    proof {
                        assert((destination_distance as int) * 1000 / (
                        MAX_SPEED_ENHANCED_KMH as int) <= MAX_HEURISTIC_UH as int)
                            by (nonlinear_arith)
                            requires
                                0 <= destination_distance as int <= u64::MAX,
                        ;
                    }
                    let hw = ((destination_distance as u128) * 1000) / (
                    MAX_SPEED_ENHANCED_KMH as u128);
                    let ghost fr1 = frontier@;
                    frontier.push(State { weight: cand + hw, node_id: v });
                    proof {
                        if source == destination {
                            let k = choose|k: int|
                                0 <= k < fr1.len() && (#[trigger] fr1[k]).node_id == destination;
                            assert(frontier@[k].node_id == destination);
                        }
                    }
                    proof {
                        assert forall|k: int|
                            0 <= k < ve@.len() implies (#[trigger] ve@[k]).0 != v by {
                            assert(settled.contains(ve@[k].0) || ve@[k].0 == u);
                        }
                    }
                    let vdeg = g.nodes[vi].next_nodes.len();
                    let mut t: usize = 0;
                    while t < vdeg
                        invariant
                            g.wf(),
                            0 <= t <= vdeg,
                            0 <= (vi as int) < g.nodes@.len(),
                            vdeg == g.nodes@[vi as int].next_nodes@.len(),
                            g.nodes@[vi as int].id == v,
                            g.node_index(v) == vi as int,
                            ae@.no_duplicates(),
                            forall|k: int|
                                0 <= k < ae@.len() ==> g.has_edge(
                                    (#[trigger] ae@[k]).0,
                                    ae@[k].1,
                                ) && !ve@.contains(#[trigger] ae@[k]),
                            forall|k: int| 0 <= k < ve@.len() ==> (#[trigger] ve@[k]).0 != v,
                        decreases vdeg - t,
                    {
                        let wnode = g.nodes[vi].next_nodes[t];
                        proof {
                            assert(g.succs(v)[t as int] == wnode);
                            assert(g.has_edge(v, wnode));
                        }
                        let ghost ae1 = ae@;
                        pair_vec_insert(&mut ae, (v, wnode));
                        proof {
                            assert forall|k: int|
                                0 <= k < ae@.len() implies g.has_edge(
                                (#[trigger] ae@[k]).0,
                                ae@[k].1,
                            ) && !ve@.contains(#[trigger] ae@[k]) by {
                                assert(ae@.contains(ae@[k]));
                                if ae@[k] == (v, wnode) {
                                    if ve@.contains(ae@[k]) {
                                        let k3 = choose|k3: int|
                                            0 <= k3 < ve@.len() && ve@[k3] == ae@[k];
                                        assert(ve@[k3].0 == v);
                                        assert(false);
                                    }
                                } else {
                                    assert(ae1.contains(ae@[k]));
                                }
                            }
                        }
                        t = t + 1;
                    }
                }
            }
            kk = kk + 1;
        }
        // tighten the corridor with the closest distance relaxed at this level
        match level_min_distance {
            Some(m) => {
                let tight = if source_to_destination_m < m {
                    source_to_destination_m
                } else {
                    m
                };
                best_node_distance = match best_node_distance {
                    Some(b) => {
                        if tight < b {
                            Some(tight)
                        } else {
                            Some(b)
                        }
                    },
                    None => Some(tight),
                };
            },
            None => {},
        }
        proof {
            settled = settled.insert(u);
            let ghost prev = settled_seq;
            settled_seq = settled_seq.push(u);
            assert forall|x: NodeId| #[trigger] settled_seq.contains(x) implies (prev.contains(x)
                || x == u) by {
                let idx = choose|idx: int| 0 <= idx < settled_seq.len() && settled_seq[idx] == x;
                if idx < prev.len() {
                    assert(prev[idx] == x);
                }
            }
            assert forall|x: NodeId| #[trigger] prev.contains(x) implies settled_seq.contains(
                x,
            ) by {
                let idx = choose|idx: int| 0 <= idx < prev.len() && prev[idx] == x;
                assert(settled_seq[idx] == x);
            }
            assert(settled_seq == prev.push(u));
            assert(settled_seq[prev.len() as int] == u);
            assert(settled_seq.contains(u));
            assert(settled_seq.to_set() =~= settled);
            assert(iterations as int <= settled_seq.len() * (usize::MAX as int)) by {
                assert(iter0 as int <= (settled_seq.len() - 1) * (usize::MAX as int));
                assert(kk <= usize::MAX as int);
                assert((settled_seq.len() - 1) * (usize::MAX as int) + usize::MAX as int
                    == settled_seq.len() * (usize::MAX as int)) by (nonlinear_arith)
                    requires
                        1 <= settled_seq.len(),
                ;
            }
        }
    }
    proof {
        if source == destination {
            assert(frontier@.len() == 0);
            assert(false);
        }
    }
    None
}

} // verus!
