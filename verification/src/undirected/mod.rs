//! Algorithms on undirected graphs, whose edges are listed in both directions.

pub mod cliques;
pub mod connected_components;
pub mod kruskal;
pub mod prim;
