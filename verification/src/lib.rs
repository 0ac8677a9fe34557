//! Index-only pathfinding, flow, and graph algorithms on dense `usize` indices.
//!
//! The primary API is [`IndexedGraph`] for directed graphs and
//! [`IndexedUndirectedGraph`] for undirected graphs; algorithms are methods on
//! these types. Every algorithm is verified against a mathematical model of the
//! graph stated in [`spec`].

pub mod weight;

pub use weight::Weight;
pub mod spec;
pub mod outside;
pub mod directed;
pub mod undirected;
pub mod indexed_graph;
pub use indexed_graph::{IndexedGraph, IndexedUndirectedGraph};
