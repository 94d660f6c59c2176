//! Algorithm exercises around a road-network graph engine.
//!
//! The heart of the crate is the [`graph`] module and its [`dijkstra`]
//! companion: a directed road graph loaded from a compressed text
//! container, with a pluggable arc-cost model, largest-component analysis,
//! single-source shortest paths and path reconstruction.  The remaining
//! modules are self-contained data structures and algorithms: three sorts,
//! edit distance, a priority queue, a dynamic array, universal hashing with
//! a chained hash map, and a city-name frequency analyzer.

pub mod analyzer;
pub mod container;
pub mod dijkstra;
pub mod dynamic_array;
pub mod edit_distance;
pub mod graph;
pub mod hash_func;
pub mod hash_map;
pub mod heap_sort;
pub mod ins_sort;
pub mod priority_queue;
pub mod quick_sort;
pub mod seq_facts;
pub mod text;
