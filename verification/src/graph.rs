//! The road-network graph: nodes, directed edges, and the well-formedness
//! invariant that every search algorithm relies on.
//!
//! Coordinates are fixed-point microdegrees; an edge's travel weight is its
//! free-flow travel time in integer microhours: `length_m * 1000 / maxspeed_kmh`
//! (a metre at 1 km/h is 1000 microhours).

use vstd::prelude::*;

verus! {

/// Identifier of a node; edges are keyed by the ordered pair of endpoints.
pub type NodeId = i64;

/// Upper bound on an edge's length in metres, so weight arithmetic stays exact.
pub const MAX_EDGE_LENGTH_M: u64 = 0xFFFF_FFFF;

/// Largest possible edge weight in microhours: `MAX_EDGE_LENGTH_M * 1000 / 1`.
pub const MAX_EDGE_WEIGHT_UH: u64 = 0xFFFF_FFFF * 1000;

/// A graph node: identifier, position, and the list of direct successors.
/// Successor entries are kept in insertion order and are not deduplicated.
pub struct Node {
    pub id: NodeId,
    pub lat_microdeg: i64,
    pub lon_microdeg: i64,
    pub next_nodes: Vec<NodeId>,
}

/// A directed edge with its length in metres and speed limit in km/h.
pub struct Edge {
    pub from: NodeId,
    pub to: NodeId,
    pub length_m: u64,
    pub maxspeed_kmh: u64,
}

/// The immutable road network: node list and edge list, adjacency-indexed
/// through each node's `next_nodes`.
pub struct Graph {
    pub nodes: Vec<Node>,
    pub edges: Vec<Edge>,
}

impl Edge {
    /// An edge is usable when its speed limit is positive (it divides) and
    /// its length is small enough for exact weight arithmetic.
    pub open spec fn valid(self) -> bool {
        &&& 1 <= self.maxspeed_kmh
        &&& self.length_m <= MAX_EDGE_LENGTH_M
    }

    /// Free-flow travel time of this edge in microhours.
    pub open spec fn weight(self) -> int {
        (self.length_m * 1000) / (self.maxspeed_kmh as int)
    }
}

impl Graph {
    /// Is `id` the identifier of some node?
    pub open spec fn has_node(self, id: NodeId) -> bool {
        exists|i: int| 0 <= i < self.nodes@.len() && (#[trigger] self.nodes@[i]).id == id
    }

    /// Index of the node with identifier `id` (meaningful when `has_node`).
    pub open spec fn node_index(self, id: NodeId) -> int {
        choose|i: int| 0 <= i < self.nodes@.len() && (#[trigger] self.nodes@[i]).id == id
    }

    /// The successor list of the node with identifier `id`.
    pub open spec fn succs(self, id: NodeId) -> Seq<NodeId> {
        self.nodes@[self.node_index(id)].next_nodes@
    }

    /// Is there a directed edge from `u` to `v`?
    pub open spec fn has_edge(self, u: NodeId, v: NodeId) -> bool {
        exists|j: int|
            0 <= j < self.edges@.len() && (#[trigger] self.edges@[j]).from == u
                && self.edges@[j].to == v
    }

    /// Index of the edge `(u, v)` (meaningful when `has_edge`).
    pub open spec fn edge_index(self, u: NodeId, v: NodeId) -> int {
        choose|j: int|
            0 <= j < self.edges@.len() && (#[trigger] self.edges@[j]).from == u
                && self.edges@[j].to == v
    }

    /// Travel weight of the edge `(u, v)` in microhours.
    pub open spec fn weight(self, u: NodeId, v: NodeId) -> int {
        self.edges@[self.edge_index(u, v)].weight()
    }

    /// Internal consistency: unique node identifiers, uniquely keyed valid
    /// edges, and every referenced identifier resolving to a node. A lookup
    /// that `wf` does not cover would be a fatal data-integrity fault, so the
    /// algorithms require `wf` instead of recovering from such a fault.
    pub open spec fn wf(self) -> bool {
        &&& forall|i: int, j: int|
            0 <= i < j < self.nodes@.len() ==> (#[trigger] self.nodes@[i]).id != (
            #[trigger] self.nodes@[j]).id
        &&& forall|i: int, j: int|
            0 <= i < j < self.edges@.len() ==> !((#[trigger] self.edges@[i]).from == (
            #[trigger] self.edges@[j]).from && self.edges@[i].to == self.edges@[j].to)
        &&& forall|j: int|
            0 <= j < self.edges@.len() ==> (#[trigger] self.edges@[j]).valid()
                && self.has_node(self.edges@[j].from) && self.has_node(self.edges@[j].to)
        &&& forall|i: int, k: int|
            0 <= i < self.nodes@.len() && 0 <= k < (#[trigger] self.nodes@[i]).next_nodes@.len()
                ==> self.has_node(#[trigger] self.nodes@[i].next_nodes@[k]) && self.has_edge(
                self.nodes@[i].id,
                self.nodes@[i].next_nodes@[k],
            )
    }

    /// Number of nodes in the graph.
    pub open spec fn n(self) -> int {
        self.nodes@.len() as int
    }
}

/// In a well-formed graph, `node_index` is the one index holding `id`.
pub proof fn lemma_node_index_unique(g: Graph, i: int, id: NodeId)
    requires
        g.wf(),
        0 <= i < g.nodes@.len(),
        g.nodes@[i].id == id,
    ensures
        g.has_node(id),
        g.node_index(id) == i,
{
    assert(g.has_node(id));
    let w = g.node_index(id);
    assert(0 <= w < g.nodes@.len() && g.nodes@[w].id == id);
    if w < i {
        assert(g.nodes@[w].id != g.nodes@[i].id);
    } else if i < w {
        assert(g.nodes@[i].id != g.nodes@[w].id);
    }
}

/// In a well-formed graph, `edge_index` is the one index holding `(u, v)`.
pub proof fn lemma_edge_index_unique(g: Graph, j: int, u: NodeId, v: NodeId)
    requires
        g.wf(),
        0 <= j < g.edges@.len(),
        g.edges@[j].from == u,
        g.edges@[j].to == v,
    ensures
        g.has_edge(u, v),
        g.edge_index(u, v) == j,
{
    assert(g.has_edge(u, v));
    let w = g.edge_index(u, v);
    if w < j {
        assert(!(g.edges@[w].from == g.edges@[j].from && g.edges@[w].to == g.edges@[j].to));
    } else if j < w {
        assert(!(g.edges@[j].from == g.edges@[w].from && g.edges@[j].to == g.edges@[w].to));
    }
}

/// Every edge weight is between zero and `MAX_EDGE_WEIGHT_UH`.
pub proof fn lemma_edge_weight_bounds(e: Edge)
    requires
        e.valid(),
    ensures
        0 <= e.weight() <= MAX_EDGE_WEIGHT_UH,
{
    assert(0 <= (e.length_m * 1000) / (e.maxspeed_kmh as int) <= e.length_m * 1000) by (
    nonlinear_arith)
        requires
            1 <= e.maxspeed_kmh,
            0 <= e.length_m,
    ;
    assert(e.length_m * 1000 <= MAX_EDGE_LENGTH_M * 1000) by (nonlinear_arith)
        requires
            e.length_m <= MAX_EDGE_LENGTH_M,
    ;
}

/// Find the index of the node with identifier `id` by linear scan.
pub fn find_node(g: &Graph, id: NodeId) -> (r: Option<usize>)
    ensures
        match r {
            Some(i) => 0 <= i < g.nodes@.len() && g.nodes@[i as int].id == id && g.has_node(id),
            None => !g.has_node(id),
        },
{
    let n = g.nodes.len();
    let mut i: usize = 0;
    while i < n
        invariant
            0 <= i <= n,
            n == g.nodes@.len(),
            forall|k: int| 0 <= k < i ==> (#[trigger] g.nodes@[k]).id != id,
        decreases n - i,
    {
        if g.nodes[i].id == id {
            return Some(i);
        }
        i = i + 1;
    }
    None
}

/// Find the index of the edge `(u, v)` by linear scan.
pub fn find_edge(g: &Graph, u: NodeId, v: NodeId) -> (r: Option<usize>)
    ensures
        match r {
            Some(j) => 0 <= j < g.edges@.len() && g.edges@[j as int].from == u
                && g.edges@[j as int].to == v && g.has_edge(u, v),
            None => !g.has_edge(u, v),
        },
{
    let m = g.edges.len();
    let mut j: usize = 0;
    while j < m
        invariant
            0 <= j <= m,
            m == g.edges@.len(),
            forall|k: int|
                0 <= k < j ==> !((#[trigger] g.edges@[k]).from == u && g.edges@[k].to == v),
        decreases m - j,
    {
        if g.edges[j].from == u && g.edges[j].to == v {
            return Some(j);
        }
        j = j + 1;
    }
    None
}

/// Travel weight of the edge `(u, v)` in microhours, as executable code.
pub fn edge_weight_uh(g: &Graph, u: NodeId, v: NodeId) -> (w: u64)
    requires
        g.wf(),
        g.has_edge(u, v),
    ensures
        w == g.weight(u, v),
        w <= MAX_EDGE_WEIGHT_UH,
{
    let j = match find_edge(g, u, v) {
        Some(j) => j,
        None => {
            // has_edge rules this branch out
            proof {
                assert(false);
            }
            0
        },
    };
    proof {
        lemma_edge_index_unique(*g, j as int, u, v);
        lemma_edge_weight_bounds(g.edges@[j as int]);
    }
    let e_len = g.edges[j].length_m;
    let e_speed = g.edges[j].maxspeed_kmh;
    (e_len * 1000) / e_speed
}

} // verus!
