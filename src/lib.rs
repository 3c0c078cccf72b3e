//! Louvain community detection over an undirected edge list.

pub mod edge;
pub mod graph;
pub mod read;
pub mod sums;
