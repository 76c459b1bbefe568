//! Structural statistics of an undirected graph given as an edge list.

pub mod assortativity;
pub mod clustering;
pub mod degree;
pub mod edge_list;
pub mod graph;
pub mod paths;
pub mod ratio;
pub mod sampling;
pub mod similarity;
