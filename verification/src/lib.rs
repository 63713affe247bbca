//! Shortest-route search over a directed, weighted road-network graph.
//!
//! The graph holds nodes (with fixed-point coordinates) and directed edges
//! (with a length in metres and a speed limit in km/h). Four search
//! algorithms explore it: breadth-first search by hop count, Dijkstra by
//! free-flow travel time, A* guided by a per-node heuristic, and a pruned
//! A* variant that trades optimality for a narrower search. All travel
//! times are integers in microhours, so every contract is exact.

pub mod a_star;
pub mod a_star_enhanced;
pub mod bfs;
pub mod dijkstra;
pub mod fifo;
pub mod frontier;
pub mod graph;
pub mod laws;
pub mod loader;
pub mod paths;
pub mod search;
