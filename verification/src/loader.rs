//! Building a graph from raw node and edge records, with the integrity
//! checks the data model demands: unique node identifiers, uniquely keyed
//! usable edges, and every referenced identifier resolving to a node. A
//! violation is reported before any search can run on the graph.

use vstd::prelude::*;
use crate::graph::{Graph, Node, Edge, NodeId, MAX_EDGE_LENGTH_M};

verus! {

/// A raw node record: identifier and fixed-point coordinates.
#[derive(Clone, Copy)]
pub struct NodeRecord {
    pub id: NodeId,
    pub lat_microdeg: i64,
    pub lon_microdeg: i64,
}

/// A raw directed edge record.
#[derive(Clone, Copy)]
pub struct EdgeRecord {
    pub from: NodeId,
    pub to: NodeId,
    pub length_m: u64,
    pub maxspeed_kmh: u64,
}

/// Why a set of records does not form a graph.
#[derive(Clone, Copy, Debug, PartialEq, Eq, Structural)]
pub enum GraphError {
    DuplicateNode,
    DuplicateEdge,
    InvalidEdge,
    UnknownEndpoint,
}

/// No two node records share an identifier.
pub open spec fn unique_node_ids(ns: Seq<NodeRecord>) -> bool {
    forall|i: int, j: int|
        0 <= i < j < ns.len() ==> (#[trigger] ns[i]).id != (#[trigger] ns[j]).id
}

/// An edge record is usable on its own: positive speed, bounded length.
pub open spec fn edge_record_valid(e: EdgeRecord) -> bool {
    1 <= e.maxspeed_kmh && e.length_m <= MAX_EDGE_LENGTH_M
}

/// Some node record carries this identifier.
pub open spec fn has_node_record(ns: Seq<NodeRecord>, id: NodeId) -> bool {
    exists|i: int| 0 <= i < ns.len() && (#[trigger] ns[i]).id == id
}

/// Edge record `j` is acceptable: usable, with known endpoints, and not a
/// second edge between the same ordered pair.
pub open spec fn edge_record_ok(ns: Seq<NodeRecord>, es: Seq<EdgeRecord>, j: int) -> bool {
    &&& edge_record_valid(es[j])
    &&& has_node_record(ns, es[j].from)
    &&& has_node_record(ns, es[j].to)
    &&& forall|k: int|
        0 <= k < j ==> !((#[trigger] es[k]).from == es[j].from && es[k].to == es[j].to)
}

/// The records form a graph: unique nodes and acceptable edges throughout.
pub open spec fn records_ok(ns: Seq<NodeRecord>, es: Seq<EdgeRecord>) -> bool {
    &&& unique_node_ids(ns)
    &&& forall|j: int| 0 <= j < es.len() ==> #[trigger] edge_record_ok(ns, es, j)
}

/// The successors of `id`: the target of each edge leaving it, in order.
pub open spec fn succ_list(es: Seq<EdgeRecord>, id: NodeId) -> Seq<NodeId>
    decreases es.len(),
{
    if es.len() == 0 {
        Seq::empty()
    } else if es.last().from == id {
        succ_list(es.drop_last(), id).push(es.last().to)
    } else {
        succ_list(es.drop_last(), id)
    }
}

/// Every successor in the list comes from some edge record out of `id`.
proof fn lemma_succ_list_member(es: Seq<EdgeRecord>, id: NodeId, k: int)
    requires
        0 <= k < succ_list(es, id).len(),
    ensures
        exists|j: int|
            0 <= j < es.len() && (#[trigger] es[j]).from == id && es[j].to == succ_list(es, id)[k],
    decreases es.len(),
{
    if es.len() > 0 {
        let rest = succ_list(es.drop_last(), id);
        if es.last().from == id && k == rest.len() {
            assert(es[es.len() - 1].from == id && es[es.len() - 1].to == succ_list(es, id)[k]);
        } else {
            lemma_succ_list_member(es.drop_last(), id, k);
            let j = choose|j: int|
                0 <= j < es.drop_last().len() && (#[trigger] es.drop_last()[j]).from == id
                    && es.drop_last()[j].to == rest[k];
            assert(es[j].from == id && es[j].to == succ_list(es, id)[k]);
        }
    }
}

/// Index of the node record with identifier `id`, by linear scan.
fn find_record(ns: &Vec<NodeRecord>, id: NodeId) -> (r: Option<usize>)
    ensures
        match r {
            Some(i) => 0 <= i < ns@.len() && ns@[i as int].id == id && has_node_record(ns@, id),
            None => !has_node_record(ns@, id),
        },
{
    let n = ns.len();
    let mut i: usize = 0;
    while i < n
        invariant
            0 <= i <= n,
            n == ns@.len(),
            forall|k: int| 0 <= k < i ==> (#[trigger] ns@[k]).id != id,
        decreases n - i,
    {
        if ns[i].id == id {
            return Some(i);
        }
        i = i + 1;
    }
    None
}

/// Build the graph the records describe, rejecting any integrity violation
/// before a search could trip over it. Success comes exactly when the
/// records are acceptable; the graph then carries the nodes in order, each
/// with the successors its outgoing edges list, and the edges in order.
#[verifier::loop_isolation(false)]
#[verifier::rlimit(100)]
pub fn parse_graph(ns: &Vec<NodeRecord>, es: &Vec<EdgeRecord>) -> (r: Result<Graph, GraphError>)
    ensures
        r is Ok <==> records_ok(ns@, es@),
        match r {
            Ok(g) => {
                &&& g.wf()
                &&& g.nodes@.len() == ns@.len()
                &&& forall|i: int|
                    0 <= i < ns@.len() ==> (#[trigger] g.nodes@[i]).id == ns@[i].id
                        && g.nodes@[i].lat_microdeg == ns@[i].lat_microdeg
                        && g.nodes@[i].lon_microdeg == ns@[i].lon_microdeg
                        && g.nodes@[i].next_nodes@ == succ_list(es@, ns@[i].id)
                &&& g.edges@.len() == es@.len()
                &&& forall|j: int|
                    0 <= j < es@.len() ==> (#[trigger] g.edges@[j]).from == es@[j].from
                        && g.edges@[j].to == es@[j].to && g.edges@[j].length_m == es@[j].length_m
                        && g.edges@[j].maxspeed_kmh == es@[j].maxspeed_kmh
            },
            Err(e) => match e {
                GraphError::DuplicateNode => !unique_node_ids(ns@),
                GraphError::DuplicateEdge => exists|j: int, k: int|
                    0 <= k < j < es@.len() && (#[trigger] es@[k]).from == (#[trigger] es@[j]).from
                        && es@[k].to == es@[j].to,
                GraphError::InvalidEdge => exists|j: int|
                    0 <= j < es@.len() && !edge_record_valid(#[trigger] es@[j]),
                GraphError::UnknownEndpoint => exists|j: int|
                    0 <= j < es@.len() && !(has_node_record(ns@, (#[trigger] es@[j]).from)
                        && has_node_record(ns@, es@[j].to)),
            },
        },
{
    let n = ns.len();
    let m = es.len();
    // unique node identifiers
    let mut i: usize = 0;
    while i < n
        invariant
            forall|a: int, b: int|
                0 <= a < b < ns@.len() && b < i ==> (#[trigger] ns@[a]).id != (#[trigger] ns@[b]).id,
        decreases n - i,
    {
        let mut k: usize = 0;
        while k < i
            invariant
                0 <= k <= i < n,
                forall|a: int| 0 <= a < k ==> (#[trigger] ns@[a]).id != ns@[i as int].id,
            decreases i - k,
        {
            if ns[k].id == ns[i].id {
                return Err(GraphError::DuplicateNode);
            }
            k = k + 1;
        }
        i = i + 1;
    }
    // acceptable edges, in order
    let mut edges: Vec<Edge> = Vec::new();
    let mut j: usize = 0;
    while j < m
        invariant
            edges@.len() == j <= m,
            forall|jj: int| 0 <= jj < j ==> edge_record_ok(ns@, es@, jj),
            forall|jj: int|
                0 <= jj < j ==> (#[trigger] edges@[jj]).from == es@[jj].from && edges@[jj].to
                    == es@[jj].to && edges@[jj].length_m == es@[jj].length_m
                    && edges@[jj].maxspeed_kmh == es@[jj].maxspeed_kmh,
        decreases m - j,
    {
        let e = es[j];
        if e.maxspeed_kmh < 1 || e.length_m > MAX_EDGE_LENGTH_M {
            proof {
                assert(!edge_record_valid(es@[j as int]));
                assert(!edge_record_ok(ns@, es@, j as int));
            }
            return Err(GraphError::InvalidEdge);
        }
        let from_known = match find_record(ns, e.from) {
            Some(_) => true,
            None => false,
        };
        let to_known = match find_record(ns, e.to) {
            Some(_) => true,
            None => false,
        };
        if !from_known || !to_known {
            proof {
                assert(!edge_record_ok(ns@, es@, j as int));
            }
            return Err(GraphError::UnknownEndpoint);
        }
        let mut k: usize = 0;
        while k < j
            invariant
                0 <= k <= j < m,
                forall|a: int|
                    0 <= a < k ==> !((#[trigger] es@[a]).from == es@[j as int].from && es@[a].to
                        == es@[j as int].to),
            decreases j - k,
        {
            if es[k].from == e.from && es[k].to == e.to {
                proof {
                    assert(es@[k as int].from == es@[j as int].from && es@[k as int].to == es@[
                        j as int].to);
                    assert(!edge_record_ok(ns@, es@, j as int));
                }
                return Err(GraphError::DuplicateEdge);
            }
            k = k + 1;
        }
        edges.push(
            Edge { from: e.from, to: e.to, length_m: e.length_m, maxspeed_kmh: e.maxspeed_kmh },
        );
        j = j + 1;
    }
    // nodes with their successor lists
    let mut nodes: Vec<Node> = Vec::new();
    let mut i2: usize = 0;
    while i2 < n
        invariant
            nodes@.len() == i2 <= n,
            forall|a: int|
                0 <= a < i2 ==> (#[trigger] nodes@[a]).id == ns@[a].id && nodes@[a].lat_microdeg
                    == ns@[a].lat_microdeg && nodes@[a].lon_microdeg == ns@[a].lon_microdeg
                    && nodes@[a].next_nodes@ == succ_list(es@, ns@[a].id),
        decreases n - i2,
    {
        let rec = ns[i2];
        let mut outgoing: Vec<NodeId> = Vec::new();
        let mut j2: usize = 0;
        while j2 < m
            invariant
                0 <= j2 <= m,
                m == es@.len(),
                outgoing@ == succ_list(es@.take(j2 as int), rec.id),
            decreases m - j2,
        {
            let e = es[j2];
            proof {
                assert(es@.take(j2 + 1).drop_last() =~= es@.take(j2 as int));
                assert(es@.take(j2 + 1).last() == es@[j2 as int]);
            }
            if e.from == rec.id {
                outgoing.push(e.to);
            }
            j2 = j2 + 1;
        }
        proof {
            assert(es@.take(m as int) =~= es@);
        }
        nodes.push(
            Node {
                id: rec.id,
                lat_microdeg: rec.lat_microdeg,
                lon_microdeg: rec.lon_microdeg,
                next_nodes: outgoing,
            },
        );
        i2 = i2 + 1;
    }
    let g = Graph { nodes, edges };
    proof {
        assert(records_ok(ns@, es@));
        assert forall|id: NodeId| has_node_record(ns@, id) implies g.has_node(id) by {
            let i3 = choose|i3: int| 0 <= i3 < ns@.len() && (#[trigger] ns@[i3]).id == id;
            assert(g.nodes@[i3].id == id);
        }
        assert(g.wf()) by {
            assert forall|a: int, b: int|
                0 <= a < b < g.nodes@.len() implies (#[trigger] g.nodes@[a]).id != (
            #[trigger] g.nodes@[b]).id by {
                assert(ns@[a].id != ns@[b].id);
            }
            assert forall|a: int, b: int|
                0 <= a < b < g.edges@.len() implies !((#[trigger] g.edges@[a]).from == (
            #[trigger] g.edges@[b]).from && g.edges@[a].to == g.edges@[b].to) by {
                assert(edge_record_ok(ns@, es@, b));
                assert(!(es@[a].from == es@[b].from && es@[a].to == es@[b].to));
            }
            assert forall|jj: int| 0 <= jj < g.edges@.len() implies (#[trigger] g.edges@[jj]).valid()
                && g.has_node(g.edges@[jj].from) && g.has_node(g.edges@[jj].to) by {
                assert(edge_record_ok(ns@, es@, jj));
            }
            assert forall|a: int, kk: int|
                0 <= a < g.nodes@.len() && 0 <= kk < (#[trigger] g.nodes@[a]).next_nodes@.len()
                implies g.has_node(#[trigger] g.nodes@[a].next_nodes@[kk]) && g.has_edge(
                g.nodes@[a].id,
                g.nodes@[a].next_nodes@[kk],
            ) by {
                lemma_succ_list_member(es@, g.nodes@[a].id, kk);
                let je = choose|je: int|
                    0 <= je < es@.len() && (#[trigger] es@[je]).from == g.nodes@[a].id && es@[je].to
                        == succ_list(es@, g.nodes@[a].id)[kk];
                assert(edge_record_ok(ns@, es@, je));
                assert(g.edges@[je].from == g.nodes@[a].id && g.edges@[je].to == g.nodes@[
                    a].next_nodes@[kk]);
            }
        }
    }
    Ok(g)
}

} // verus!
