//! Best-first (A*) graph search over caller-supplied nodes, successor,
//! heuristic and goal functions, with its open set and visited index.
pub mod frontier;
pub mod visited;
pub mod graph;
pub mod search;
