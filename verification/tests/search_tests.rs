use route_search::a_star::a_star;
use route_search::a_star_enhanced::a_star_enhanced;
use route_search::bfs::bfs;
use route_search::dijkstra::dijkstra;
use route_search::frontier::{Frontier, State};
use route_search::graph::{Graph, edge_weight_uh, find_node};
use route_search::loader::{parse_graph, EdgeRecord, GraphError, NodeRecord};

fn node(id: i64) -> NodeRecord {
    NodeRecord { id, lat_microdeg: 0, lon_microdeg: 0 }
}

fn edge(from: i64, to: i64, length_m: u64, maxspeed_kmh: u64) -> EdgeRecord {
    EdgeRecord { from, to, length_m, maxspeed_kmh }
}

/// The four-node scenario: two routes of equal weight, 0.04 hours each.
fn square_graph() -> Graph {
    let ns = vec![node(1), node(2), node(3), node(4)];
    let es = vec![
        edge(1, 2, 1000, 50),
        edge(2, 4, 1000, 50),
        edge(1, 3, 500, 25),
        edge(3, 4, 500, 25),
    ];
    parse_graph(&ns, &es).unwrap()
}

/// A variant with a strictly cheaper route through node 3.
fn asymmetric_graph() -> Graph {
    let ns = vec![node(1), node(2), node(3), node(4)];
    let es = vec![
        edge(1, 2, 1000, 50),
        edge(2, 4, 1000, 50),
        edge(1, 3, 500, 50),
        edge(3, 4, 500, 50),
    ];
    parse_graph(&ns, &es).unwrap()
}

#[test]
fn dijkstra_square_weight() {
    let g = square_graph();
    let res = dijkstra(&g, 1, 4).unwrap();
    // 0.04 hours in microhours, over either of the two equal routes
    assert_eq!(res.weight, 40000u128);
    assert_eq!(res.weight as f64 / 1_000_000.0, 0.04);
    assert_eq!(res.path.len(), 3);
    assert_eq!(res.path[0], 1);
    assert_eq!(res.path[2], 4);
    // one iteration per edge examined, each recorded in the visited list
    assert_eq!(res.iterations, 4);
    assert_eq!(res.visited_edges.len(), 4);
}

#[test]
fn a_star_square_weight_matches_dijkstra() {
    let g = square_graph();
    let zeros = vec![0u64; 4];
    let res = a_star(&g, 1, 4, &zeros).unwrap();
    assert_eq!(res.weight, 40000u128);
}

#[test]
fn a_star_enhanced_square_weight() {
    let g = square_graph();
    let zeros = vec![0u64; 4];
    // with all-zero distances the contract owes both the route and the minimum
    let res = a_star_enhanced(&g, 1, 4, &zeros).unwrap();
    assert_eq!(res.weight, 40000u128);
    assert_eq!(res.iterations, res.visited_edges.len() as u128);
}

#[test]
fn bfs_square_two_hops() {
    let g = square_graph();
    let res = bfs(&g, 1, 4).unwrap();
    assert_eq!(res.path.len(), 3);
    // the synthetic weight is the iteration count, one per successor examined
    assert_eq!(res.weight, res.iterations);
    assert_eq!(res.iterations, 4);
}

#[test]
fn dijkstra_asymmetric_picks_cheaper_route() {
    let g = asymmetric_graph();
    let res = dijkstra(&g, 1, 4).unwrap();
    // 500 m at 50 km/h is 10000 microhours per edge
    assert_eq!(res.weight, 20000u128);
    assert_eq!(res.path, vec![1, 3, 4]);
}

#[test]
fn predecessor_round_trip() {
    let g = asymmetric_graph();
    let res = dijkstra(&g, 1, 4).unwrap();
    // walking predecessors from the destination reaches the source in as
    // many steps as the route has edges, without revisiting a node
    let mut cur = 4i64;
    let mut steps = 0usize;
    let mut seen = vec![cur];
    while cur != 1 {
        let mut next = None;
        for (n, p) in res.predecessors.iter() {
            if *n == cur {
                next = Some(*p);
            }
        }
        cur = next.expect("predecessor missing");
        assert!(!seen.contains(&cur), "cycle in predecessor walk");
        seen.push(cur);
        steps += 1;
        assert!(steps <= res.path.len());
    }
    assert_eq!(steps, res.path.len() - 1);
}

#[test]
fn unreachable_destination_reports_not_found() {
    let ns = vec![node(1), node(2)];
    let es = vec![edge(2, 1, 100, 50)];
    let g = parse_graph(&ns, &es).unwrap();
    let zeros = vec![0u64; 2];
    assert!(dijkstra(&g, 1, 2).is_none());
    assert!(a_star(&g, 1, 2, &zeros).is_none());
    assert!(a_star_enhanced(&g, 1, 2, &zeros).is_none());
    assert!(bfs(&g, 1, 2).is_none());
}

#[test]
fn source_equals_destination() {
    let g = square_graph();
    let res = dijkstra(&g, 1, 1).unwrap();
    assert_eq!(res.weight, 0u128);
    assert_eq!(res.path, vec![1]);
    assert!(res.predecessors.is_empty());
    assert!(res.visited_edges.is_empty());
    assert!(res.active_edges.is_empty());
    assert_eq!(res.iterations, 0);
}

#[test]
fn bfs_prefers_fewer_hops_over_cheaper_weight() {
    // the chain 1-2-3-4 is cheap but long; 1-5-4 is two hops
    let ns = vec![node(1), node(2), node(3), node(4), node(5)];
    let es = vec![
        edge(1, 2, 10, 50),
        edge(2, 3, 10, 50),
        edge(3, 4, 10, 50),
        edge(1, 5, 4000, 5),
        edge(5, 4, 4000, 5),
    ];
    let g = parse_graph(&ns, &es).unwrap();
    let res = bfs(&g, 1, 4).unwrap();
    assert_eq!(res.path, vec![1, 5, 4]);
    let dres = dijkstra(&g, 1, 4).unwrap();
    assert_eq!(dres.path, vec![1, 2, 3, 4]);
}

#[test]
fn bfs_discovery_is_first_in_first_out() {
    // both routes have two hops; FIFO discovery records node 2's edge first
    let ns = vec![node(1), node(2), node(3), node(4)];
    let es = vec![
        edge(1, 2, 100, 50),
        edge(1, 3, 100, 50),
        edge(2, 4, 100, 50),
        edge(3, 4, 100, 50),
    ];
    let g = parse_graph(&ns, &es).unwrap();
    let res = bfs(&g, 1, 4).unwrap();
    assert_eq!(res.path, vec![1, 2, 4]);
}

#[test]
fn frontier_pops_minimum_with_node_tie_break() {
    let mut f = Frontier::new();
    f.push(State { weight: 5, node_id: 10 });
    f.push(State { weight: 5, node_id: 2 });
    f.push(State { weight: 3, node_id: 7 });
    let a = f.pop_min();
    assert_eq!((a.weight, a.node_id), (3, 7));
    let b = f.pop_min();
    assert_eq!((b.weight, b.node_id), (5, 2));
    let c = f.pop_min();
    assert_eq!((c.weight, c.node_id), (5, 10));
}

#[test]
fn edge_weight_is_exact_microhours() {
    let g = square_graph();
    assert_eq!(edge_weight_uh(&g, 1, 2), 20000);
    assert_eq!(edge_weight_uh(&g, 1, 3), 20000);
    // truncating division: 100 m at 3 km/h
    let ns = vec![node(1), node(2)];
    let es = vec![edge(1, 2, 100, 3)];
    let g2 = parse_graph(&ns, &es).unwrap();
    assert_eq!(edge_weight_uh(&g2, 1, 2), 33333);
}

#[test]
fn parse_rejects_duplicate_node() {
    let ns = vec![node(1), node(1)];
    let es = vec![];
    match parse_graph(&ns, &es) {
        Err(e) => assert_eq!(e, GraphError::DuplicateNode),
        Ok(_) => panic!("expected a rejected graph"),
    }
}

#[test]
fn parse_rejects_duplicate_edge() {
    let ns = vec![node(1), node(2)];
    let es = vec![edge(1, 2, 100, 50), edge(1, 2, 200, 30)];
    match parse_graph(&ns, &es) {
        Err(e) => assert_eq!(e, GraphError::DuplicateEdge),
        Ok(_) => panic!("expected a rejected graph"),
    }
}

#[test]
fn parse_rejects_zero_speed() {
    let ns = vec![node(1), node(2)];
    let es = vec![edge(1, 2, 100, 0)];
    match parse_graph(&ns, &es) {
        Err(e) => assert_eq!(e, GraphError::InvalidEdge),
        Ok(_) => panic!("expected a rejected graph"),
    }
}

#[test]
fn parse_rejects_unknown_endpoint() {
    let ns = vec![node(1), node(2)];
    let es = vec![edge(1, 9, 100, 50)];
    match parse_graph(&ns, &es) {
        Err(e) => assert_eq!(e, GraphError::UnknownEndpoint),
        Ok(_) => panic!("expected a rejected graph"),
    }
}

#[test]
fn parse_builds_adjacency_in_edge_order() {
    let g = square_graph();
    let i = find_node(&g, 1).unwrap();
    assert_eq!(g.nodes[i].next_nodes, vec![2, 3]);
    let j = find_node(&g, 4).unwrap();
    assert!(g.nodes[j].next_nodes.is_empty());
}

#[test]
fn a_star_with_consistent_heuristic_matches_dijkstra() {
    let g = asymmetric_graph();
    // straight-line metres to node 4; at 200 km/h these give microhour
    // bounds that never drop faster than an edge's weight
    let dists = vec![4000u64, 2000, 2000, 0];
    let res = a_star(&g, 1, 4, &dists).unwrap();
    let dres = dijkstra(&g, 1, 4).unwrap();
    assert_eq!(res.weight, dres.weight);
    assert_eq!(res.weight, 20000u128);
}

#[test]
fn enhanced_pruning_never_beats_the_minimum() {
    // the cheap route runs through node 2, which lies far from the
    // destination; the corridor bound prunes it
    let ns = vec![node(1), node(2), node(3), node(4)];
    let es = vec![
        edge(1, 3, 100, 50),
        edge(3, 4, 1000, 50),
        edge(3, 2, 100, 50),
        edge(2, 4, 1, 50),
    ];
    let g = parse_graph(&ns, &es).unwrap();
    let dists = vec![200u64, 250, 100, 0];
    let dres = dijkstra(&g, 1, 4).unwrap();
    assert_eq!(dres.weight, 4020u128);
    assert_eq!(dres.path, vec![1, 3, 2, 4]);
    let eres = a_star_enhanced(&g, 1, 4, &dists).unwrap();
    assert_eq!(eres.path, vec![1, 3, 4]);
    assert_eq!(eres.weight, 22000u128);
    assert!(eres.weight >= dres.weight);
}
