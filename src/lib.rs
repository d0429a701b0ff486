//! Single-source distances over a small weighted undirected graph, computed by a
//! frontier walk that settles, from each explored node, only its closest
//! unsettled neighbour.

pub mod graph;
pub mod traversal;
