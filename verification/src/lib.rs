//! Weighted undirected graphs of named locations, shortest-path tables over
//! them, and a simulated-annealing search for short closed tours.

pub mod dijkstra;
pub mod distance;
pub mod graph;
pub mod location;
pub mod queue;
pub mod random;
pub mod tour;
pub mod tsp;
