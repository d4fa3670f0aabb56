//! Renders a directed graph as a `digraph` description whose nodes are grouped
//! into rank tiers by a breadth-first traversal from node 0.

pub mod dot;
pub mod graph;
pub mod laws;
