//! Algorithms on directed graphs given as adjacency lists.

pub mod bfs;
pub mod dfs;
pub mod iddfs;
pub mod idastar;
pub mod topological_sort;
pub mod count_paths;
pub mod dijkstra;
pub mod strongly_connected_components;
pub mod edmonds_karp;
pub mod bmssp;
