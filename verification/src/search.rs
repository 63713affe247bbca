//! The weighted search core shared by Dijkstra and A*: a settled/frontier
//! loop with lazy deletion over the `Frontier`, returning the predecessor
//! map, the reconstructed path, edge telemetry, the total travel weight in
//! microhours, and the iteration count.

use vstd::prelude::*;
use crate::graph::{Graph, NodeId, MAX_EDGE_WEIGHT_UH};
use crate::graph::{find_node, edge_weight_uh, lemma_node_index_unique};
use crate::frontier::{Frontier, State, state_le};
use crate::paths::{
    is_path_between, reachable, path_weight, consistent_heuristic, min_known, lemma_path_append,
    lemma_path_skip, lemma_path_weight_split, lemma_path_weight_bounds, lemma_simple_path_len,
    lemma_step_weight_bounds, lemma_consistent_path_bound, lemma_first_exit,
    lemma_closed_set_holds_path,
};

verus! {

/// Upper bound on a per-node heuristic value in microhours.
pub const MAX_HEURISTIC_UH: u128 = 0xFFFF_FFFF_FFFF_FFFF * 1000;

/// Result of a search that reports edge telemetry: one predecessor pair
/// for every node the search discovered, on the found route or off it; the
/// route itself from source to destination; the edges examined, in
/// examination order; the edges on the open search boundary; the total
/// travel weight in microhours; and the number of successor examinations
/// performed, one per examined edge.
pub struct SearchResult {
    pub predecessors: Vec<(NodeId, NodeId)>,
    pub path: Vec<NodeId>,
    pub visited_edges: Vec<(NodeId, NodeId)>,
    pub active_edges: Vec<(NodeId, NodeId)>,
    pub weight: u128,
    pub iterations: u128,
}

/// Result of a search without edge telemetry.
pub struct PathResult {
    pub predecessors: Vec<(NodeId, NodeId)>,
    pub path: Vec<NodeId>,
    pub weight: u128,
    pub iterations: u128,
}

/// The mapping a list of (node, predecessor) pairs denotes; later pairs win.
pub open spec fn pred_map(prs: Seq<(NodeId, NodeId)>) -> Map<NodeId, NodeId>
    decreases prs.len(),
{
    if prs.len() == 0 {
        Map::empty()
    } else {
        pred_map(prs.drop_last()).insert(prs.last().0, prs.last().1)
    }
}

/// Does the vector contain this ordered pair?
pub(crate) fn pair_vec_contains(v: &Vec<(NodeId, NodeId)>, p: (NodeId, NodeId)) -> (r: bool)
    ensures
        r == v@.contains(p),
{
    let n = v.len();
    let mut i: usize = 0;
    while i < n
        invariant
            0 <= i <= n,
            n == v@.len(),
            forall|k: int| 0 <= k < i ==> #[trigger] v@[k] != p,
        decreases n - i,
    {
        if v[i].0 == p.0 && v[i].1 == p.1 {
            assert(v@[i as int] == p);
            return true;
        }
        i = i + 1;
    }
    false
}

/// Remove the pair if present: every other pair stays, and a
/// duplicate-free vector stays duplicate-free and no longer holds it.
pub(crate) fn pair_vec_remove(v: &mut Vec<(NodeId, NodeId)>, p: (NodeId, NodeId))
    ensures
        forall|e: (NodeId, NodeId)| final(v)@.contains(e) ==> old(v)@.contains(e),
        forall|e: (NodeId, NodeId)|
            e != p && old(v)@.contains(e) ==> final(v)@.contains(e),
        old(v)@.no_duplicates() ==> !final(v)@.contains(p) && final(v)@.no_duplicates(),
{
    let n = v.len();
    let mut i: usize = 0;
    while i < n
        invariant
            0 <= i <= n,
            n == v@.len(),
            v@ == old(v)@,
            forall|k: int| 0 <= k < i ==> #[trigger] v@[k] != p,
        decreases n - i,
    {
        if v[i].0 == p.0 && v[i].1 == p.1 {
            let ghost pre = v@;
            proof {
                assert(pre[i as int] == p);
            }
            v.remove(i);
            proof {
                assert forall|e: (NodeId, NodeId)| v@.contains(e) implies pre.contains(e) by {
                    let k = choose|k: int| 0 <= k < v@.len() && v@[k] == e;
                    if k < i {
                        assert(pre[k] == e);
                    } else {
                        assert(pre[k + 1] == e);
                    }
                }
                assert forall|e: (NodeId, NodeId)|
                    e != p && pre.contains(e) implies v@.contains(e) by {
                    let k = choose|k: int| 0 <= k < pre.len() && pre[k] == e;
                    if k < i {
                        assert(v@[k] == e);
                    } else {
                        assert(k != i);
                        assert(v@[k - 1] == e);
                    }
                }
                if pre.no_duplicates() {
                    assert forall|k2: int| 0 <= k2 < v@.len() implies #[trigger] v@[k2] != p by {
                        if k2 < i {
                            assert(v@[k2] == pre[k2]);
                        } else {
                            assert(v@[k2] == pre[k2 + 1]);
                            assert(pre[k2 + 1] != pre[i as int]);
                        }
                    }
                    assert forall|a: int, b: int|
                        0 <= a < b < v@.len() implies v@[a] != v@[b] by {
                        let a2: int = if a < i { a } else { a + 1 };
                        let b2: int = if b < i { b } else { b + 1 };
                        assert(v@[a] == pre[a2] && v@[b] == pre[b2]);
                        assert(pre[a2] != pre[b2]);
                    }
                }
            }
            return ;
        }
        i = i + 1;
    }
    proof {
        assert forall|k: int| 0 <= k < v@.len() implies #[trigger] v@[k] != p by {}
    }
}

/// Add the pair unless it is already present; a duplicate-free vector
/// stays duplicate-free.
pub(crate) fn pair_vec_insert(v: &mut Vec<(NodeId, NodeId)>, p: (NodeId, NodeId))
    ensures
        forall|e: (NodeId, NodeId)|
            final(v)@.contains(e) <==> (old(v)@.contains(e) || e == p),
        old(v)@.no_duplicates() ==> final(v)@.no_duplicates(),
{
    if !pair_vec_contains(v, p) {
        let ghost pre = v@;
        v.push(p);
        proof {
            assert(v@[pre.len() as int] == p);
            assert forall|e: (NodeId, NodeId)| v@.contains(e) implies pre.contains(e) || e == p by {
                let k = choose|k: int| 0 <= k < v@.len() && v@[k] == e;
                if k < pre.len() {
                    assert(pre[k] == e);
                }
            }
            assert forall|e: (NodeId, NodeId)| pre.contains(e) implies v@.contains(e) by {
                let k = choose|k: int| 0 <= k < pre.len() && pre[k] == e;
                assert(v@[k] == e);
            }
            if pre.no_duplicates() {
                assert forall|a: int, b: int|
                    0 <= a < b < v@.len() implies v@[a] != v@[b] by {
                    if b < pre.len() {
                        assert(v@[a] == pre[a] && v@[b] == pre[b]);
                    } else {
                        assert(v@[b] == p && v@[a] == pre[a]);
                        assert(!pre.contains(p));
                    }
                }
            }
        }
    }
}

/// After removing index `i`, every other element is still present.
pub(crate) proof fn lemma_entries_after_remove(s: Seq<State>, i: int, k: int)
    requires
        0 <= i < s.len(),
        0 <= k < s.len(),
        k != i,
    ensures
        exists|k2: int| 0 <= k2 < s.remove(i).len() && s.remove(i)[k2] == s[k],
{
    if k < i {
        assert(s.remove(i)[k] == s[k]);
    } else {
        assert(s.remove(i)[k - 1] == s[k]);
    }
}

/// When a node `u` is about to be settled — it was popped with the least
/// priority of the whole frontier — the best-known weight to it is already
/// no larger than the weight of any path from the source, provided the
/// heuristic is consistent. This is the optimality argument shared by
/// Dijkstra (zero heuristic) and A*.
pub(crate) proof fn lemma_settled_min(
    g: Graph,
    h: Seq<u128>,
    source: NodeId,
    u: NodeId,
    settled: Set<NodeId>,
    dist_m: Map<NodeId, u128>,
    entries: Seq<State>,
    f0: State,
    q: Seq<NodeId>,
)
    requires
        g.wf(),
        consistent_heuristic(g, h),
        h.len() == g.nodes@.len(),
        dist_m.contains_key(source),
        dist_m[source] == 0,
        forall|id: NodeId| #[trigger] dist_m.contains_key(id) ==> g.has_node(id),
        forall|id: NodeId| #[trigger] settled.contains(id) ==> dist_m.contains_key(id),
        forall|u2: NodeId, kk: int|
            settled.contains(u2) && g.has_node(u2) && 0 <= kk < g.succs(u2).len()
                ==> dist_m.contains_key(#[trigger] g.succs(u2)[kk]) && dist_m[g.succs(u2)[kk]]
                as int <= dist_m[u2] as int + g.weight(u2, g.succs(u2)[kk]),
        forall|k: int|
            0 <= k < entries.len() ==> dist_m.contains_key((#[trigger] entries[k]).node_id)
                && entries[k].weight as int >= dist_m[entries[k].node_id] as int + h[g.node_index(
                entries[k].node_id,
            )] as int,
        forall|id: NodeId|
            #[trigger] dist_m.contains_key(id) && !settled.contains(id) ==> exists|k: int|
                0 <= k < entries.len() && (#[trigger] entries[k]).node_id == id
                    && entries[k].weight as int == dist_m[id] as int + h[g.node_index(id)] as int,
        dist_m.contains_key(u),
        !settled.contains(u),
        f0.node_id == u,
        f0.weight as int >= dist_m[u] as int + h[g.node_index(u)] as int,
        forall|k: int| 0 <= k < entries.len() ==> state_le(f0, #[trigger] entries[k]),
        is_path_between(g, q, source, u),
    ensures
        dist_m[u] as int <= path_weight(g, q),
{
    let dist_i = Map::<NodeId, int>::new(
        |id: NodeId| dist_m.contains_key(id),
        |id: NodeId| dist_m[id] as int,
    );
    assert(q.last() == u && !settled.contains(q.last()));
    assert(q.take(1).len() == 1);
    assert(dist_i[q[0]] <= path_weight(g, q.take(1)));
    lemma_first_exit(g, q, settled, dist_i, 0);
    let j = choose|j: int|
        0 <= j < q.len() && !settled.contains(#[trigger] q[j]) && dist_i.contains_key(q[j])
            && dist_i[q[j]] <= path_weight(g, q.take(j + 1)) && (forall|i: int|
            0 <= i < j ==> settled.contains(#[trigger] q[i]));
    let y = q[j];
    let ek = choose|k: int|
        0 <= k < entries.len() && (#[trigger] entries[k]).node_id == y && entries[k].weight as int
            == dist_m[y] as int + h[g.node_index(y)] as int;
    assert(state_le(f0, entries[ek]));
    assert(f0.weight as int <= entries[ek].weight as int);
    lemma_path_skip(g, q, j);
    lemma_consistent_path_bound(g, h, q.skip(j));
    assert(q.skip(j).first() == y);
    assert(h[g.node_index(y)] as int <= path_weight(g, q.skip(j)) + h[g.node_index(u)] as int);
    lemma_path_weight_split(g, q, j);
}

/// Collect the predecessor pairs held in the per-index table into a list
/// whose denoted mapping agrees exactly with the ghost predecessor map.
#[verifier::loop_isolation(false)]
pub(crate) fn build_pred_pairs(
    g: &Graph,
    pred: &Vec<Option<NodeId>>,
    Ghost(pred_m): Ghost<Map<NodeId, NodeId>>,
) -> (out: Vec<(NodeId, NodeId)>)
    requires
        g.wf(),
        pred@.len() == g.nodes@.len(),
        forall|i: int|
            0 <= i < pred@.len() ==> ((#[trigger] pred@[i]) is Some <==> pred_m.contains_key(
                g.nodes@[i].id,
            )),
        forall|i: int|
            0 <= i < pred@.len() && (#[trigger] pred@[i]) is Some ==> pred@[i]->Some_0 == pred_m[
                g.nodes@[i].id],
    ensures
        forall|id: NodeId|
            #[trigger] pred_map(out@).contains_key(id) ==> pred_m.contains_key(id) && pred_map(
                out@,
            )[id] == pred_m[id],
        forall|id: NodeId|
            #[trigger] pred_m.contains_key(id) && g.has_node(id) ==> pred_map(out@).contains_key(
                id,
            ),
        (forall|i: int| 0 <= i < pred@.len() ==> !((#[trigger] pred@[i]) is Some)) ==> out@.len()
            == 0,
{
    let n = pred.len();
    let mut out: Vec<(NodeId, NodeId)> = Vec::new();
    let mut i: usize = 0;
    while i < n
        invariant
            0 <= i <= n,
            n == pred@.len(),
            (forall|ii: int| 0 <= ii < i ==> !((#[trigger] pred@[ii]) is Some)) ==> out@.len()
                == 0,
            forall|id: NodeId|
                #[trigger] pred_map(out@).contains_key(id) ==> pred_m.contains_key(id) && pred_map(
                    out@,
                )[id] == pred_m[id],
            forall|ii: int|
                0 <= ii < i && (#[trigger] pred@[ii]) is Some ==> pred_map(out@).contains_key(
                    g.nodes@[ii].id,
                ),
        decreases n - i,
    {
        match pred[i] {
            Some(pr) => {
                let id = g.nodes[i].id;
                let ghost pre = out@;
                out.push((id, pr));
                proof {
                    assert(out@.drop_last() =~= pre);
                    assert(pred_map(out@) =~= pred_map(pre).insert(id, pr));
                }
            },
            None => {},
        }
        i = i + 1;
    }
    proof {
        assert forall|id: NodeId|
            #[trigger] pred_m.contains_key(id) && g.has_node(id) implies pred_map(
            out@,
        ).contains_key(id) by {
            let ii = g.node_index(id);
            assert(0 <= ii < g.nodes@.len() && g.nodes@[ii].id == id);
            assert(pred@[ii] is Some);
        }
    }
    out
}

/// Rebuild the route by walking the predecessor table back from the
/// destination; it retraces exactly the ghost path of the destination.
#[verifier::loop_isolation(false)]
pub(crate) fn build_path(
    g: &Graph,
    pred: &Vec<Option<NodeId>>,
    source: NodeId,
    destination: NodeId,
    Ghost(pred_m): Ghost<Map<NodeId, NodeId>>,
    Ghost(p): Ghost<Seq<NodeId>>,
) -> (path: Vec<NodeId>)
    requires
        g.wf(),
        pred@.len() == g.nodes@.len(),
        is_path_between(*g, p, source, destination),
        p.no_duplicates(),
        !pred_m.contains_key(source),
        forall|i: int|
            0 <= i < pred@.len() ==> ((#[trigger] pred@[i]) is Some <==> pred_m.contains_key(
                g.nodes@[i].id,
            )),
        forall|i: int|
            0 <= i < pred@.len() && (#[trigger] pred@[i]) is Some ==> pred@[i]->Some_0 == pred_m[
                g.nodes@[i].id],
        forall|k: int| 1 <= k < p.len() ==> pred_m.contains_key(#[trigger] p[k]) && pred_m[p[k]]
            == p[k - 1],
    ensures
        path@ == p,
{
    let mut rev: Vec<NodeId> = Vec::new();
    let mut cur: NodeId = destination;
    rev.push(cur);
    let ghost mut pos: int = p.len() - 1;
    proof {
        if pos == 0 {
            assert(cur == source);
        } else {
            assert(p[0] == source);
            if cur == source {
                assert(p[pos] == p[0] && pos != 0);
                assert(false);
            }
        }
    }
    while cur != source
        invariant
            0 <= pos < p.len(),
            p[pos] == cur,
            (pos == 0) <==> (cur == source),
            rev@.len() == p.len() - pos,
            forall|k: int| 0 <= k < rev@.len() ==> #[trigger] rev@[k] == p[p.len() - 1 - k],
        decreases pos,
    {
        assert(pos >= 1);
        assert(pred_m.contains_key(p[pos as int]) && pred_m[p[pos as int]] == p[pos - 1]);
        let ci = match find_node(g, cur) {
            Some(ci) => ci,
            None => {
                proof {
                    assert(g.has_node(cur));
                    assert(false);
                }
                0
            },
        };
        proof {
            lemma_node_index_unique(*g, ci as int, cur);
        }
        let pr = match pred[ci] {
            Some(pr) => pr,
            None => {
                proof {
                    assert(pred@[ci as int] is Some);
                    assert(false);
                }
                0
            },
        };
        assert(pr == pred_m[cur]);
        cur = pr;
        rev.push(cur);
        proof {
            pos = pos - 1;
            if cur == source && pos != 0 {
                assert(p[pos] == p[0]);
                assert(false);
            }
            if pos == 0 {
                assert(cur == p[0] == source);
            }
        }
    }
    let mut path: Vec<NodeId> = Vec::new();
    let mut j: usize = rev.len();
    proof {
        assert(pos == 0);
        assert(rev@.len() == p.len());
    }
    while j > 0
        invariant
            0 <= j <= rev@.len(),
            rev@.len() == p.len(),
            path@.len() == p.len() - j,
            forall|k: int| 0 <= k < rev@.len() ==> #[trigger] rev@[k] == p[p.len() - 1 - k],
            forall|k: int| 0 <= k < path@.len() ==> #[trigger] path@[k] == p[k],
        decreases j,
    {
        j = j - 1;
        path.push(rev[j]);
    }
    proof {
        assert(path@ =~= p);
    }
    path
}

/// Everything the search records of one discovered node: the stored route
/// reaches it from the source, repeats no node, weighs exactly the stored
/// weight, runs through `s` until its last node, and is retraced by the
/// predecessor map.
#[verifier::opaque]
pub open spec fn node_record(
    g: Graph,
    source: NodeId,
    id: NodeId,
    p: Seq<NodeId>,
    w: u128,
    s: Set<NodeId>,
    pred_m: Map<NodeId, NodeId>,
) -> bool {
    &&& is_path_between(g, p, source, id)
    &&& p.no_duplicates()
    &&& path_weight(g, p) == w as int
    &&& forall|k: int| 0 <= k < p.len() - 1 ==> s.contains(#[trigger] p[k])
    &&& forall|k: int|
        1 <= k < p.len() ==> pred_m.contains_key(#[trigger] p[k]) && pred_m[p[k]] == p[k - 1]
}

/// The source's own record: the one-node route of weight zero.
pub(crate) proof fn lemma_record_source(g: Graph, source: NodeId, s: Set<NodeId>, pred_m: Map<NodeId, NodeId>)
    requires
        g.has_node(source),
    ensures
        node_record(g, source, source, seq![source], 0, s, pred_m),
{
    reveal(node_record);
    assert(seq![source].len() == 1 && seq![source][0] == source);
}

/// A record against a set still holds against any larger set.
pub(crate) proof fn lemma_record_wider(
    g: Graph,
    source: NodeId,
    id: NodeId,
    p: Seq<NodeId>,
    w: u128,
    s1: Set<NodeId>,
    s2: Set<NodeId>,
    pred_m: Map<NodeId, NodeId>,
)
    requires
        node_record(g, source, id, p, w, s1, pred_m),
        s1.subset_of(s2),
    ensures
        node_record(g, source, id, p, w, s2, pred_m),
{
    reveal(node_record);
}

/// Unfold a record into its parts.
pub(crate) proof fn lemma_record_facts(
    g: Graph,
    source: NodeId,
    id: NodeId,
    p: Seq<NodeId>,
    w: u128,
    s: Set<NodeId>,
    pred_m: Map<NodeId, NodeId>,
)
    requires
        node_record(g, source, id, p, w, s, pred_m),
    ensures
        is_path_between(g, p, source, id),
        p.no_duplicates(),
        path_weight(g, p) == w as int,
        forall|k: int| 0 <= k < p.len() - 1 ==> s.contains(#[trigger] p[k]),
        forall|k: int|
            1 <= k < p.len() ==> pred_m.contains_key(#[trigger] p[k]) && pred_m[p[k]] == p[k - 1],
{
    reveal(node_record);
}

/// Relaxing the edge `(u, v)` extends `u`'s record into one for `v`.
pub(crate) proof fn lemma_record_extend(
    g: Graph,
    source: NodeId,
    u: NodeId,
    pu: Seq<NodeId>,
    du: u128,
    v: NodeId,
    cand: u128,
    s: Set<NodeId>,
    pred_m: Map<NodeId, NodeId>,
)
    requires
        g.wf(),
        node_record(g, source, u, pu, du, s, pred_m),
        s.contains(u),
        g.has_node(v),
        g.succs(u).contains(v),
        !s.contains(v),
        cand as int == du as int + g.weight(u, v),
    ensures
        node_record(g, source, v, pu.push(v), cand, s, pred_m.insert(v, u)),
{
    reveal(node_record);
    lemma_path_append(g, pu, v);
    assert(forall|k: int| 0 <= k < pu.len() ==> #[trigger] pu[k] != v);
    assert(pu.push(v).no_duplicates());
    let q = pu.push(v);
    let pm = pred_m.insert(v, u);
    assert forall|k: int| 1 <= k < q.len() implies pm.contains_key(#[trigger] q[k]) && pm[q[k]]
        == q[k - 1] by {
        if k < pu.len() {
            assert(q[k] == pu[k] && pu[k] != v);
        } else {
            assert(q[k] == v && q[k - 1] == pu[pu.len() - 1] == u);
        }
    }
}

/// A record of another node survives giving `v` a new predecessor, as long
/// as `v` is not yet in `s` and is not that node.
pub(crate) proof fn lemma_record_other(
    g: Graph,
    source: NodeId,
    id: NodeId,
    p: Seq<NodeId>,
    w: u128,
    s: Set<NodeId>,
    pred_m: Map<NodeId, NodeId>,
    v: NodeId,
    u2: NodeId,
)
    requires
        node_record(g, source, id, p, w, s, pred_m),
        id != v,
        !s.contains(v),
    ensures
        node_record(g, source, id, p, w, s, pred_m.insert(v, u2)),
{
    reveal(node_record);
    let pm = pred_m.insert(v, u2);
    assert forall|k: int| 1 <= k < p.len() implies pm.contains_key(#[trigger] p[k]) && pm[p[k]]
        == p[k - 1] by {
        if k < p.len() - 1 {
            assert(s.contains(p[k]));
        } else {
            assert(p[k] == id);
        }
    }
}

/// Weighted best-first search with lazy deletion: Dijkstra's algorithm when
/// the heuristic is zero, guided A* otherwise. A node is settled the first
/// time it is expanded; relaxations never touch settled nodes, and a cheaper
/// discovery is pushed again, so stale frontier entries are skipped at pop
/// time. Whatever the heuristic, the route returned is a real route of the
/// reported weight; with a consistent heuristic it is a cheapest one.
#[verifier::rlimit(100)]
#[verifier::spinoff_prover]
pub(crate) fn search_by_weight(
    g: &Graph,
    source: NodeId,
    destination: NodeId,
    h: &Vec<u128>,
) -> (r: Option<SearchResult>)
    requires
        g.wf(),
        g.has_node(source),
        g.has_node(destination),
        h@.len() == g.nodes@.len(),
        forall|i: int| 0 <= i < h@.len() ==> #[trigger] h@[i] <= MAX_HEURISTIC_UH,
    ensures
        match r {
            Some(res) => {
                &&& is_path_between(*g, res.path@, source, destination)
                &&& res.path@.no_duplicates()
                &&& path_weight(*g, res.path@) == res.weight as int
                &&& !pred_map(res.predecessors@).contains_key(source)
                &&& forall|k: int|
                    1 <= k < res.path@.len() ==> pred_map(res.predecessors@).contains_key(
                        #[trigger] res.path@[k],
                    ) && pred_map(res.predecessors@)[res.path@[k]] == res.path@[k - 1]
                &&& (consistent_heuristic(*g, h@) ==> (forall|q: Seq<NodeId>|
                    is_path_between(*g, q, source, destination) ==> res.weight as int
                        <= path_weight(*g, q)))
                &&& res.iterations == res.visited_edges@.len()
                &&& forall|k: int|
                    0 <= k < res.visited_edges@.len() ==> g.has_edge(
                        (#[trigger] res.visited_edges@[k]).0,
                        res.visited_edges@[k].1,
                    )
                &&& forall|k: int|
                    0 <= k < res.active_edges@.len() ==> g.has_edge(
                        (#[trigger] res.active_edges@[k]).0,
                        res.active_edges@[k].1,
                    ) && !res.visited_edges@.contains(res.active_edges@[k])
                &&& forall|id: NodeId|
                    #[trigger] pred_map(res.predecessors@).contains_key(id) ==> g.has_node(id)
                        && id != source && g.succs(pred_map(res.predecessors@)[id]).contains(id)
                &&& (source == destination ==> res.predecessors@.len() == 0
                    && res.visited_edges@.len() == 0 && res.active_edges@.len() == 0
                    && res.iterations == 0 && res.weight == 0)
            },
            None => !reachable(*g, source, destination),
        },
{
    let n = g.nodes.len();
    let si = match find_node(g, source) {
        Some(i) => i,
        None => {
            proof {
                assert(false);
            }
            0
        },
    };
    proof {
        lemma_node_index_unique(*g, si as int, source);
    }
    let mut dist: Vec<Option<u128>> = Vec::new();
    let mut pred: Vec<Option<NodeId>> = Vec::new();
    let mut visited: Vec<bool> = Vec::new();
    while dist.len() < n
        invariant
            dist@.len() <= n,
            forall|i: int| 0 <= i < dist@.len() ==> (#[trigger] dist@[i]) is None,
        decreases n - dist@.len(),
    {
        dist.push(None);
    }
    while pred.len() < n
        invariant
            pred@.len() <= n,
            forall|i: int| 0 <= i < pred@.len() ==> (#[trigger] pred@[i]) is None,
        decreases n - pred@.len(),
    {
        pred.push(None);
    }
    while visited.len() < n
        invariant
            visited@.len() <= n,
            forall|i: int| 0 <= i < visited@.len() ==> !(#[trigger] visited@[i]),
        decreases n - visited@.len(),
    {
        visited.push(false);
    }
    let mut frontier = Frontier::new();
    let mut ve: Vec<(NodeId, NodeId)> = Vec::new();
    let mut ae: Vec<(NodeId, NodeId)> = Vec::new();
    let mut iterations: u128 = 0;
    let ghost mut dist_m: Map<NodeId, u128> = Map::empty();
    let ghost mut pred_m: Map<NodeId, NodeId> = Map::empty();
    let ghost mut paths_m: Map<NodeId, Seq<NodeId>> = Map::empty();
    let ghost mut settled: Set<NodeId> = Set::empty();
    let ghost mut settled_seq: Seq<NodeId> = Seq::empty();
    dist[si] = Some(0u128);
    proof {
        dist_m = dist_m.insert(source, 0u128);
        paths_m = paths_m.insert(source, seq![source]);
        lemma_record_source(*g, source, settled, pred_m);
    }
    let hs = h[si];
    frontier.push(State { weight: hs, node_id: source });
    proof {
        assert(frontier@[0].node_id == source && frontier@[0].weight == hs);
        assert forall|id: NodeId|
            #[trigger] dist_m.contains_key(id) && !settled.contains(id) implies exists|k: int|
                0 <= k < frontier@.len() && (#[trigger] frontier@[k]).node_id == id
                    && frontier@[k].weight as int == dist_m[id] as int + h@[g.node_index(id)]
                    as int by {
            assert(id == source);
            assert(frontier@[0].node_id == id && frontier@[0].weight as int == dist_m[id] as int
                + h@[g.node_index(id)] as int);
        }
    }
    while frontier.len() > 0
        invariant
            g.wf(),
            g.has_node(source),
            g.has_node(destination),
            h@.len() == g.nodes@.len(),
            forall|i: int| 0 <= i < h@.len() ==> #[trigger] h@[i] <= MAX_HEURISTIC_UH,
            n == g.nodes@.len(),
            dist@.len() == n,
            pred@.len() == n,
            visited@.len() == n,
            // exec state mirrors the ghost maps, index against identifier
            forall|i: int|
                0 <= i < n ==> (((#[trigger] dist@[i]) is Some) <==> dist_m.contains_key(
                    g.nodes@[i].id,
                )),
            forall|i: int|
                0 <= i < n && (#[trigger] dist@[i]) is Some ==> dist@[i]->Some_0 == dist_m[
                    g.nodes@[i].id],
            forall|i: int|
                0 <= i < n ==> (((#[trigger] pred@[i]) is Some) <==> pred_m.contains_key(
                    g.nodes@[i].id,
                )),
            forall|i: int|
                0 <= i < n && (#[trigger] pred@[i]) is Some ==> pred@[i]->Some_0 == pred_m[
                    g.nodes@[i].id],
            forall|i: int|
                0 <= i < n ==> (#[trigger] visited@[i]) == settled.contains(g.nodes@[i].id),
            // domains
            forall|id: NodeId| #[trigger] dist_m.contains_key(id) ==> g.has_node(id),
            forall|id: NodeId| #[trigger] settled.contains(id) ==> dist_m.contains_key(id),
            forall|id: NodeId|
                #[trigger] pred_m.contains_key(id) <==> (dist_m.contains_key(id) && id != source),
            dist_m.contains_key(source),
            dist_m[source] == 0,
            !settled.contains(destination),
            // each discovered node carries a sound record of its route
            forall|id: NodeId|
                #[trigger] dist_m.contains_key(id) ==> paths_m.contains_key(id) && node_record(
                    *g,
                    source,
                    id,
                    paths_m[id],
                    dist_m[id],
                    settled,
                    pred_m,
                ),
            // every successor of a settled node has been discovered
            forall|u2: NodeId, kk2: int|
                settled.contains(u2) && g.has_node(u2) && 0 <= kk2 < g.succs(u2).len()
                    ==> dist_m.contains_key(#[trigger] g.succs(u2)[kk2]),
            // every frontier entry names a discovered node, no cheaper than known
            forall|k: int|
                0 <= k < frontier@.len() ==> dist_m.contains_key(
                    (#[trigger] frontier@[k]).node_id,
                ) && frontier@[k].weight as int >= dist_m[frontier@[k].node_id] as int + h@[
                    g.node_index(frontier@[k].node_id)] as int,
            // every unsettled discovered node has a fresh frontier entry
            forall|id: NodeId|
                #[trigger] dist_m.contains_key(id) && !settled.contains(id) ==> exists|k: int|
                    0 <= k < frontier@.len() && (#[trigger] frontier@[k]).node_id == id
                        && frontier@[k].weight as int == dist_m[id] as int + h@[g.node_index(id)]
                        as int,
            // with a consistent heuristic, settled nodes are optimally known
            consistent_heuristic(*g, h@) ==> (forall|id: NodeId|
                #[trigger] settled.contains(id) ==> min_known(*g, source, id, dist_m[id] as int)),
            consistent_heuristic(*g, h@) ==> (forall|u2: NodeId, kk2: int|
                settled.contains(u2) && g.has_node(u2) && 0 <= kk2 < g.succs(u2).len() ==> dist_m[
                    #[trigger] g.succs(u2)[kk2]] as int <= dist_m[u2] as int + g.weight(
                    u2,
                    g.succs(u2)[kk2],
                )),
            // telemetry: examined edges in order, boundary edges off them
            iterations as int == ve@.len(),
            forall|k: int|
                0 <= k < ve@.len() ==> g.has_edge((#[trigger] ve@[k]).0, ve@[k].1)
                    && settled.contains(ve@[k].0),
            ae@.no_duplicates(),
            forall|k: int|
                0 <= k < ae@.len() ==> g.has_edge((#[trigger] ae@[k]).0, ae@[k].1)
                    && !ve@.contains(#[trigger] ae@[k]),
            forall|id: NodeId|
                #[trigger] pred_m.contains_key(id) ==> g.has_node(pred_m[id]) && g.succs(
                    pred_m[id],
                ).contains(id),
            source == destination ==> (forall|id: NodeId|
                #[trigger] dist_m.contains_key(id) ==> id == source) && ve@.len() == 0
                && ae@.len() == 0 && iterations == 0,
            // settling order and the iteration counter bound
            settled_seq.no_duplicates(),
            forall|k: int| 0 <= k < settled_seq.len() ==> g.has_node(#[trigger] settled_seq[k]),
            settled_seq.to_set() == settled,
            settled_seq.len() <= n,
            iterations as int <= settled_seq.len() * (usize::MAX as int),
        decreases n - settled_seq.len(), frontier@.len(),
    {
        let ghost fr0 = frontier@;
        let st = frontier.pop_min();
        let ghost i0 = choose|i: int|
            0 <= i < fr0.len() && st == fr0[i] && frontier@ == fr0.remove(i);
        let u = st.node_id;
        proof {
            assert(dist_m.contains_key(u));
        }
        let ui = match find_node(g, u) {
            Some(i) => i,
            None => {
                proof {
                    assert(false);
                }
                0
            },
        };
        proof {
            lemma_node_index_unique(*g, ui as int, u);
        }
        let du = match dist[ui] {
            Some(d) => d,
            None => {
                proof {
                    assert(false);
                }
                0
            },
        };
        if u == destination {
            proof {
                if consistent_heuristic(*g, h@) {
                    assert forall|q: Seq<NodeId>|
                        is_path_between(*g, q, source, destination) implies du as int
                        <= path_weight(*g, q) by {
                        lemma_settled_min(*g, h@, source, destination, settled, dist_m, fr0, st, q);
                    }
                }
                lemma_record_facts(
                    *g,
                    source,
                    destination,
                    paths_m[destination],
                    dist_m[destination],
                    settled,
                    pred_m,
                );
            }
            let ghost pd = paths_m[destination];
            let path = build_path(g, &pred, source, destination, Ghost(pred_m), Ghost(pd));
            let predecessors = build_pred_pairs(g, &pred, Ghost(pred_m));
            proof {
                assert forall|k: int|
                    1 <= k < path@.len() implies pred_map(predecessors@).contains_key(
                    #[trigger] path@[k],
                ) && pred_map(predecessors@)[path@[k]] == path@[k - 1] by {
                    assert(pred_m.contains_key(path@[k]) && pred_m[path@[k]] == path@[k - 1]);
                    assert(g.has_node(path@[k]));
                }
                if pred_map(predecessors@).contains_key(source) {
                    assert(pred_m.contains_key(source));
                    assert(false);
                }
                assert forall|id: NodeId|
                    #[trigger] pred_map(predecessors@).contains_key(id) implies g.has_node(id)
                    && id != source && g.succs(pred_map(predecessors@)[id]).contains(id) by {
                    assert(pred_m.contains_key(id) && pred_map(predecessors@)[id] == pred_m[id]);
                    assert(dist_m.contains_key(id));
                }
                if source == destination {
                    assert forall|i: int|
                        0 <= i < pred@.len() implies !((#[trigger] pred@[i]) is Some) by {
                        if pred@[i] is Some {
                            assert(pred_m.contains_key(g.nodes@[i].id));
                            assert(dist_m.contains_key(g.nodes@[i].id));
                            assert(g.nodes@[i].id == source);
                        }
                    }
                    assert(predecessors@.len() == 0);
                    assert(du == dist_m[source]);
                }
            }
            return Some(
                SearchResult {
                    predecessors,
                    path,
                    visited_edges: ve,
                    active_edges: ae,
                    weight: du,
                    iterations,
                },
            );
        }
        if visited[ui] {
            proof {
                assert(settled.contains(u));
                assert forall|k2: int|
                    0 <= k2 < frontier@.len() implies dist_m.contains_key(
                    (#[trigger] frontier@[k2]).node_id,
                ) && frontier@[k2].weight as int >= dist_m[frontier@[k2].node_id] as int + h@[
                    g.node_index(frontier@[k2].node_id)] as int by {
                    if k2 < i0 {
                        assert(frontier@[k2] == fr0[k2]);
                    } else {
                        assert(frontier@[k2] == fr0[k2 + 1]);
                    }
                }
                assert forall|id: NodeId|
                    #[trigger] dist_m.contains_key(id) && !settled.contains(id) implies exists|
                    k: int,
                |
                    0 <= k < frontier@.len() && (#[trigger] frontier@[k]).node_id == id
                        && frontier@[k].weight as int == dist_m[id] as int + h@[g.node_index(id)]
                        as int by {
                    let k = choose|k: int|
                        0 <= k < fr0.len() && (#[trigger] fr0[k]).node_id == id && fr0[k].weight
                            as int == dist_m[id] as int + h@[g.node_index(id)] as int;
                    assert(fr0[i0].node_id == u && id != u);
                    lemma_entries_after_remove(fr0, i0, k);
                    let k2 = choose|k2: int|
                        0 <= k2 < frontier@.len() && frontier@[k2] == fr0[k];
                    assert(frontier@[k2].node_id == id);
                }
            }
            continue ;
        }
        // u is settled now; expand it
        visited[ui] = true;
        let ghost s_in = settled.insert(u);
        proof {
            if consistent_heuristic(*g, h@) {
                assert forall|q: Seq<NodeId>|
                    is_path_between(*g, q, source, u) implies dist_m[u] as int <= path_weight(
                    *g,
                    q,
                ) by {
                    lemma_settled_min(*g, h@, source, u, settled, dist_m, fr0, st, q);
                }
                assert(min_known(*g, source, u, dist_m[u] as int)) by {
                    reveal(min_known);
                }
            }
            assert(!settled_seq.to_set().contains(u));
            assert(settled_seq.push(u).no_duplicates());
            assert(forall|k: int|
                0 <= k < settled_seq.push(u).len() ==> g.has_node(#[trigger] settled_seq.push(u)[k]));
            crate::paths::lemma_distinct_node_ids_len(*g, settled_seq.push(u));
            assert(settled_seq.len() <= n - 1);
            // records still hold against the grown settled set
            assert forall|id: NodeId|
                #[trigger] dist_m.contains_key(id) implies paths_m.contains_key(id) && node_record(
                *g,
                source,
                id,
                paths_m[id],
                dist_m[id],
                s_in,
                pred_m,
            ) by {
                lemma_record_wider(
                    *g,
                    source,
                    id,
                    paths_m[id],
                    dist_m[id],
                    settled,
                    s_in,
                    pred_m,
                );
            }
            // the popped entry leaves the frontier; restore the two frontier facts
            assert forall|k2: int|
                0 <= k2 < frontier@.len() implies dist_m.contains_key(
                (#[trigger] frontier@[k2]).node_id,
            ) && frontier@[k2].weight as int >= dist_m[frontier@[k2].node_id] as int + h@[
                g.node_index(frontier@[k2].node_id)] as int by {
                if k2 < i0 {
                    assert(frontier@[k2] == fr0[k2]);
                } else {
                    assert(frontier@[k2] == fr0[k2 + 1]);
                }
            }
            assert forall|id: NodeId|
                #[trigger] dist_m.contains_key(id) && !settled.contains(id) && id != u implies
                exists|k: int|
                    0 <= k < frontier@.len() && (#[trigger] frontier@[k]).node_id == id
                        && frontier@[k].weight as int == dist_m[id] as int + h@[g.node_index(id)]
                        as int by {
                let k = choose|k: int|
                    0 <= k < fr0.len() && (#[trigger] fr0[k]).node_id == id && fr0[k].weight
                        as int == dist_m[id] as int + h@[g.node_index(id)] as int;
                assert(fr0[i0].node_id == u && id != u);
                lemma_entries_after_remove(fr0, i0, k);
                let k2 = choose|k2: int| 0 <= k2 < frontier@.len() && frontier@[k2] == fr0[k];
                assert(frontier@[k2].node_id == id);
            }
        }
        let ghost iter0 = iterations;
        let ghost pu = paths_m[u];
        let deg = g.nodes[ui].next_nodes.len();
        let mut kk: usize = 0;
        while kk < deg
            invariant
                g.wf(),
                g.has_node(source),
                g.has_node(destination),
                h@.len() == g.nodes@.len(),
                forall|i: int| 0 <= i < h@.len() ==> #[trigger] h@[i] <= MAX_HEURISTIC_UH,
                n == g.nodes@.len(),
                0 <= kk <= deg,
                deg == g.succs(u).len(),
                dist@.len() == n,
                pred@.len() == n,
                visited@.len() == n,
                0 <= (ui as int) < n,
                g.nodes@[ui as int].id == u,
                g.node_index(u) == ui as int,
                u != destination,
                g.has_node(u),
                dist_m.contains_key(u),
                du == dist_m[u],
                pu == paths_m[u],
                visited@[ui as int],
                !settled.contains(u),
                s_in == settled.insert(u),
                forall|i: int|
                    0 <= i < n ==> (((#[trigger] dist@[i]) is Some) <==> dist_m.contains_key(
                        g.nodes@[i].id,
                    )),
                forall|i: int|
                    0 <= i < n && (#[trigger] dist@[i]) is Some ==> dist@[i]->Some_0 == dist_m[
                        g.nodes@[i].id],
                forall|i: int|
                    0 <= i < n ==> (((#[trigger] pred@[i]) is Some) <==> pred_m.contains_key(
                        g.nodes@[i].id,
                    )),
                forall|i: int|
                    0 <= i < n && (#[trigger] pred@[i]) is Some ==> pred@[i]->Some_0 == pred_m[
                        g.nodes@[i].id],
                forall|i: int|
                    0 <= i < n && i != ui as int ==> (#[trigger] visited@[i]) == settled.contains(
                        g.nodes@[i].id,
                    ),
                forall|id: NodeId| #[trigger] dist_m.contains_key(id) ==> g.has_node(id),
                forall|id: NodeId| #[trigger] settled.contains(id) ==> dist_m.contains_key(id),
                forall|id: NodeId|
                    #[trigger] pred_m.contains_key(id) <==> (dist_m.contains_key(id) && id
                        != source),
                dist_m.contains_key(source),
                dist_m[source] == 0,
                !settled.contains(destination),
                forall|id: NodeId|
                    #[trigger] dist_m.contains_key(id) ==> paths_m.contains_key(id) && node_record(
                        *g,
                        source,
                        id,
                        paths_m[id],
                        dist_m[id],
                        s_in,
                        pred_m,
                    ),
                forall|u2: NodeId, kk2: int|
                    settled.contains(u2) && g.has_node(u2) && 0 <= kk2 < g.succs(u2).len()
                        ==> dist_m.contains_key(#[trigger] g.succs(u2)[kk2]),
                forall|kk2: int|
                    0 <= kk2 < kk ==> dist_m.contains_key(#[trigger] g.succs(u)[kk2]),
                forall|k: int|
                    0 <= k < frontier@.len() ==> dist_m.contains_key(
                        (#[trigger] frontier@[k]).node_id,
                    ) && frontier@[k].weight as int >= dist_m[frontier@[k].node_id] as int + h@[
                        g.node_index(frontier@[k].node_id)] as int,
                forall|id: NodeId|
                    #[trigger] dist_m.contains_key(id) && !settled.contains(id) && id != u ==>
                    exists|k: int|
                        0 <= k < frontier@.len() && (#[trigger] frontier@[k]).node_id == id
                            && frontier@[k].weight as int == dist_m[id] as int + h@[g.node_index(
                            id,
                        )] as int,
                consistent_heuristic(*g, h@) ==> (forall|id: NodeId|
                    #[trigger] settled.contains(id) ==> min_known(*g, source, id, dist_m[id] as int)),
                consistent_heuristic(*g, h@) ==> min_known(*g, source, u, dist_m[u] as int),
                consistent_heuristic(*g, h@) ==> (forall|u2: NodeId, kk2: int|
                    settled.contains(u2) && g.has_node(u2) && 0 <= kk2 < g.succs(u2).len()
                        ==> dist_m[#[trigger] g.succs(u2)[kk2]] as int <= dist_m[u2] as int
                        + g.weight(u2, g.succs(u2)[kk2])),
                consistent_heuristic(*g, h@) ==> (forall|kk2: int|
                    0 <= kk2 < kk ==> dist_m[#[trigger] g.succs(u)[kk2]] as int <= dist_m[u] as int
                        + g.weight(u, g.succs(u)[kk2])),
                settled_seq.no_duplicates(),
                forall|k: int| 0 <= k < settled_seq.len() ==> g.has_node(#[trigger] settled_seq[k]),
                settled_seq.to_set() == settled,
                settled_seq.len() <= n - 1,
                iter0 as int <= settled_seq.len() * (usize::MAX as int),
                iterations as int == iter0 as int + kk,
                source != destination,
                iterations as int == ve@.len(),
                forall|k: int|
                    0 <= k < ve@.len() ==> g.has_edge((#[trigger] ve@[k]).0, ve@[k].1)
                        && (settled.contains(ve@[k].0) || ve@[k].0 == u),
                ae@.no_duplicates(),
                forall|k: int|
                    0 <= k < ae@.len() ==> g.has_edge((#[trigger] ae@[k]).0, ae@[k].1)
                        && !ve@.contains(#[trigger] ae@[k]),
                forall|id: NodeId|
                    #[trigger] pred_m.contains_key(id) ==> g.has_node(pred_m[id]) && g.succs(
                        pred_m[id],
                    ).contains(id),
            decreases deg - kk,
        {
            proof {
                assert(kk < deg <= usize::MAX);
                assert(settled_seq.len() * (usize::MAX as int) + kk + 1 <= (settled_seq.len() + 1)
                    * (usize::MAX as int)) by (nonlinear_arith)
                    requires
                        0 <= settled_seq.len(),
                        0 <= kk,
                        kk + 1 <= usize::MAX as int,
                ;
                assert((settled_seq.len() + 1) * (usize::MAX as int) <= (n as int) * (
                usize::MAX as int)) by (nonlinear_arith)
                    requires
                        settled_seq.len() + 1 <= n as int,
                        0 <= usize::MAX as int,
                ;
                assert((n as int) * (usize::MAX as int) < u128::MAX) by (nonlinear_arith)
                    requires
                        0 <= n as int <= usize::MAX as int,
                        usize::MAX as int <= u64::MAX as int,
                ;
            }
            iterations = iterations + 1;
            let v = g.nodes[ui].next_nodes[kk];
            proof {
                assert(g.succs(u)[kk as int] == v);
                assert(g.has_node(v));
                assert(g.has_edge(u, v));
                lemma_step_weight_bounds(*g, u, v);
            }
            let vi = match find_node(g, v) {
                Some(i) => i,
                None => {
                    proof {
                        assert(false);
                    }
                    0
                },
            };
            proof {
                lemma_node_index_unique(*g, vi as int, v);
            }
            let w = edge_weight_uh(g, u, v);
            let ghost ve0 = ve@;
            let ghost ae0 = ae@;
            ve.push((u, v));
            pair_vec_remove(&mut ae, (u, v));
            proof {
                assert forall|k: int|
                    0 <= k < ve@.len() implies g.has_edge((#[trigger] ve@[k]).0, ve@[k].1) && (
                settled.contains(ve@[k].0) || ve@[k].0 == u) by {
                    if k < ve0.len() {
                        assert(ve@[k] == ve0[k]);
                    } else {
                        assert(ve@[k] == (u, v));
                    }
                }
                assert forall|k: int|
                    0 <= k < ae@.len() implies g.has_edge((#[trigger] ae@[k]).0, ae@[k].1)
                    && !ve@.contains(#[trigger] ae@[k]) by {
                    assert(ae@.contains(ae@[k]));
                    assert(ae0.contains(ae@[k]));
                    assert(ae@[k] != (u, v));
                    if ve@.contains(ae@[k]) {
                        let k3 = choose|k3: int| 0 <= k3 < ve@.len() && ve@[k3] == ae@[k];
                        if k3 < ve0.len() {
                            assert(ve0.contains(ae@[k]));
                        } else {
                            assert(ve@[k3] == (u, v));
                        }
                        assert(false);
                    }
                }
            }
            proof {
                // the best-known weight to u is a simple route's weight, so the
                // candidate weight through u stays well inside u128
                lemma_record_facts(*g, source, u, pu, du, s_in, pred_m);
                lemma_path_weight_bounds(*g, pu);
                lemma_simple_path_len(*g, pu);
                assert((pu.len() - 1) * (MAX_EDGE_WEIGHT_UH as int) <= (n - 1) * (
                MAX_EDGE_WEIGHT_UH as int)) by (nonlinear_arith)
                    requires
                        1 <= pu.len() <= n as int,
                ;
                assert((n - 1) * (MAX_EDGE_WEIGHT_UH as int) + MAX_EDGE_WEIGHT_UH <= (n as int) * (
                MAX_EDGE_WEIGHT_UH as int)) by (nonlinear_arith)
                    requires
                        1 <= n as int,
                ;
                assert((n as int) * (MAX_EDGE_WEIGHT_UH as int) + MAX_HEURISTIC_UH < u128::MAX)
                    by (nonlinear_arith)
                    requires
                        0 <= n as int <= usize::MAX as int,
                        usize::MAX as int <= u64::MAX as int,
                ;
            }
            let cand = du + (w as u128);
            if !visited[vi] {
                let do_relax = match dist[vi] {
                    Some(dv) => cand < dv,
                    None => true,
                };
                if do_relax {
                    let ghost dm0 = dist_m;
                    let ghost pm0 = paths_m;
                    let ghost pr0 = pred_m;
                    let ghost fr1 = frontier@;
                    proof {
                        assert(vi as int != ui as int);
                        assert(v != u);
                        assert(!settled.contains(v));
                        assert(!s_in.contains(v));
                        lemma_record_extend(*g, source, u, pu, du, v, cand, s_in, pred_m);
                        dist_m = dist_m.insert(v, cand);
                        pred_m = pred_m.insert(v, u);
                        paths_m = paths_m.insert(v, pu.push(v));
                        assert forall|id: NodeId|
                            #[trigger] dist_m.contains_key(id) implies paths_m.contains_key(id)
                            && node_record(
                            *g,
                            source,
                            id,
                            paths_m[id],
                            dist_m[id],
                            s_in,
                            pred_m,
                        ) by {
                            if id != v {
                                lemma_record_other(
                                    *g,
                                    source,
                                    id,
                                    pm0[id],
                                    dm0[id],
                                    s_in,
                                    pr0,
                                    v,
                                    u,
                                );
                            }
                        }
                    }
                    dist[vi] = Some(cand);
                    pred[vi] = Some(u);
                    proof {
                        assert forall|i: int|
                            0 <= i < n && i != vi as int implies g.nodes@[i].id != v by {}
                        assert forall|i: int|
                            0 <= i < n implies (((#[trigger] dist@[i]) is Some)
                                <==> dist_m.contains_key(g.nodes@[i].id)) by {
                            if i != vi as int {
                                assert(g.nodes@[i].id != v);
                            }
                        }
                        assert forall|i: int|
                            0 <= i < n && (#[trigger] dist@[i]) is Some implies dist@[i]->Some_0
                                == dist_m[g.nodes@[i].id] by {
                            if i != vi as int {
                                assert(g.nodes@[i].id != v);
                            }
                        }
                        assert forall|i: int|
                            0 <= i < n implies (((#[trigger] pred@[i]) is Some)
                                <==> pred_m.contains_key(g.nodes@[i].id)) by {
                            if i != vi as int {
                                assert(g.nodes@[i].id != v);
                            }
                        }
                        assert forall|i: int|
                            0 <= i < n && (#[trigger] pred@[i]) is Some implies pred@[i]->Some_0
                                == pred_m[g.nodes@[i].id] by {
                            if i != vi as int {
                                assert(g.nodes@[i].id != v);
                            }
                        }
                    }
                    let hv = h[vi];
                    frontier.push(State { weight: cand + hv, node_id: v });
                    proof {
                        assert(frontier@ == fr1.push(
                            State { weight: (cand + hv) as u128, node_id: v },
                        ));
                        assert forall|id: NodeId|
                            #[trigger] dist_m.contains_key(id) && !settled.contains(id) && id != u
                                implies exists|k: int|
                                0 <= k < frontier@.len() && (#[trigger] frontier@[k]).node_id == id
                                    && frontier@[k].weight as int == dist_m[id] as int + h@[
                                    g.node_index(id)] as int by {
                            if id == v {
                                assert(frontier@[fr1.len() as int].node_id == v);
                                assert(frontier@[fr1.len() as int].weight as int == dist_m[v] as int
                                    + h@[g.node_index(v)] as int);
                            } else {
                                let k = choose|k: int|
                                    0 <= k < fr1.len() && (#[trigger] fr1[k]).node_id == id
                                        && fr1[k].weight as int == dm0[id] as int + h@[g.node_index(
                                        id,
                                    )] as int;
                                assert(frontier@[k] == fr1[k]);
                                assert(dist_m[id] == dm0[id]);
                            }
                        }
                        assert forall|k: int|
                            0 <= k < frontier@.len() implies dist_m.contains_key(
                            (#[trigger] frontier@[k]).node_id,
                        ) && frontier@[k].weight as int >= dist_m[frontier@[k].node_id] as int + h@[
                            g.node_index(frontier@[k].node_id)] as int by {
                            if k < fr1.len() {
                                assert(frontier@[k] == fr1[k]);
                            }
                        }
                    }
                    proof {
                        assert forall|k: int|
                            0 <= k < ve@.len() implies (#[trigger] ve@[k]).0 != v by {
                            assert(settled.contains(ve@[k].0) || ve@[k].0 == u);
                        }
                    }
                    let vdeg = g.nodes[vi].next_nodes.len();
                    let mut t: usize = 0;
                    while t < vdeg
                        invariant
                            g.wf(),
                            0 <= t <= vdeg,
                            0 <= (vi as int) < g.nodes@.len(),
                            vdeg == g.nodes@[vi as int].next_nodes@.len(),
                            g.nodes@[vi as int].id == v,
                            g.node_index(v) == vi as int,
                            ae@.no_duplicates(),
                            forall|k: int|
                                0 <= k < ae@.len() ==> g.has_edge(
                                    (#[trigger] ae@[k]).0,
                                    ae@[k].1,
                                ) && !ve@.contains(#[trigger] ae@[k]),
                            forall|k: int| 0 <= k < ve@.len() ==> (#[trigger] ve@[k]).0 != v,
                        decreases vdeg - t,
                    {
                        let wnode = g.nodes[vi].next_nodes[t];
                        proof {
                            assert(g.succs(v)[t as int] == wnode);
                            assert(g.has_edge(v, wnode));
                        }
                        let ghost ae1 = ae@;
                        pair_vec_insert(&mut ae, (v, wnode));
                        proof {
                            assert forall|k: int|
                                0 <= k < ae@.len() implies g.has_edge(
                                (#[trigger] ae@[k]).0,
                                ae@[k].1,
                            ) && !ve@.contains(#[trigger] ae@[k]) by {
                                assert(ae@.contains(ae@[k]));
                                if ae@[k] == (v, wnode) {
                                    if ve@.contains(ae@[k]) {
                                        let k3 = choose|k3: int|
                                            0 <= k3 < ve@.len() && ve@[k3] == ae@[k];
                                        assert(ve@[k3].0 == v);
                                        assert(false);
                                    }
                                } else {
                                    assert(ae1.contains(ae@[k]));
                                }
                            }
                        }
                        t = t + 1;
                    }
                }
            } else {
                proof {
                    // v is already known; when v is settled and the heuristic is
                    // consistent, its weight is already at most the one through u
                    if vi as int == ui as int {
                        assert(v == u);
                        assert(dist_m[v] as int <= dist_m[u] as int + g.weight(u, v));
                    } else {
                        assert(settled.contains(v));
                        if consistent_heuristic(*g, h@) {
                            lemma_record_facts(*g, source, u, pu, du, s_in, pred_m);
                            lemma_path_append(*g, pu, v);
                            assert(is_path_between(*g, pu.push(v), source, v));
                            assert(dist_m[v] as int <= path_weight(*g, pu.push(v))) by {
                                reveal(min_known);
                            }
                        }
                    }
                }
            }
            kk = kk + 1;
        }
        proof {
            settled = settled.insert(u);
            let ghost prev = settled_seq;
            settled_seq = settled_seq.push(u);
            assert forall|x: NodeId| #[trigger] settled_seq.contains(x) implies (prev.contains(x)
                || x == u) by {
                let idx = choose|idx: int| 0 <= idx < settled_seq.len() && settled_seq[idx] == x;
                if idx < prev.len() {
                    assert(prev[idx] == x);
                }
            }
            assert forall|x: NodeId| #[trigger] prev.contains(x) implies settled_seq.contains(
                x,
            ) by {
                let idx = choose|idx: int| 0 <= idx < prev.len() && prev[idx] == x;
                assert(settled_seq[idx] == x);
            }
            assert(settled_seq == prev.push(u));
            assert(settled_seq[prev.len() as int] == u);
            assert(settled_seq.contains(u));
            assert(settled_seq.to_set() =~= settled);
            assert(iterations as int <= settled_seq.len() * (usize::MAX as int)) by {
                assert(iter0 as int <= (settled_seq.len() - 1) * (usize::MAX as int));
                assert(kk <= usize::MAX as int);
                assert((settled_seq.len() - 1) * (usize::MAX as int) + usize::MAX as int
                    == settled_seq.len() * (usize::MAX as int)) by (nonlinear_arith)
                    requires
                        1 <= settled_seq.len(),
                ;
            }
        }
    }
    proof {
        if reachable(*g, source, destination) {
            let q = choose|q: Seq<NodeId>| is_path_between(*g, q, source, destination);
            assert(settled.contains(source));
            assert forall|u2: NodeId, kk2: int|
                settled.contains(u2) && g.has_node(u2) && 0 <= kk2 < g.succs(u2).len() implies
                settled.contains(#[trigger] g.succs(u2)[kk2]) by {
                assert(dist_m.contains_key(g.succs(u2)[kk2]));
            }
            lemma_closed_set_holds_path(*g, q, settled);
            assert(false);
        }
    }
    None
}

} // verus!
