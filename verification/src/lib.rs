//! A reachability engine over a large fixed directed graph whose edges are
//! gated by and/or requirement expressions evaluated against a mutable
//! collection state.
//!
//! The graph is a structure-of-arrays ("static") representation with O(1)
//! neighbor-slice lookup; per-edge requirements are compiled once into a
//! bit-packed access cache; depth-first and breadth-first engines then answer
//! resumable "is this vertex reachable?" queries, never re-scanning work a
//! previous query already did.

pub mod bfs_iter;
pub mod constants;
pub mod dfs_iter;
pub mod graph;
pub mod logic;
pub mod reach;
