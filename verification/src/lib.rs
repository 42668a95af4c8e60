//! Single-source shortest paths over weighted, undirected graphs, by
//! Dijkstra's algorithm, with every function verified against its contract.
//!
//! A graph comes in one of three shapes ([`graph_type`]): an adjacency
//! mapping from node name to neighbour name to weight, an adjacency list of
//! node names with their `(neighbour, weight)` pairs, or a dense adjacency
//! matrix over node indices, in which a weight of 0 means that there is no
//! edge. The algorithm runs on the matrix; a mapping or a list is first
//! turned into the matrix over the canonical table of its node names, which
//! numbers the names in lexicographic order.
//!
//! The executable functions live in [`dijkstra`], the worked examples in
//! [`graph_samples`]. The other modules say what the results are:
//!
//! - [`walks`]: walks in a matrix and their weights, what the shortest-path
//!   tree of a source is, and that it is unique and optimal;
//! - [`tree_walk`]: the path that a tree holds for a node, and that path and
//!   tree agree;
//! - [`names`]: the order of names and the canonical table of a set of names;
//! - [`index_table`]: the passage between names and indices;
//! - [`adjacency`]: lists and mappings as mathematical values, and their
//!   matrices;
//! - [`named_graph`]: the shortest-path tree and the shortest paths of a list
//!   or a mapping, and that the three representations agree.
//!
//! A distance is a `u32`. The value `u32::MAX` stands for "no distance": a
//! node keeps it when no walk lighter than `u32::MAX` leads to it from the
//! source, and such a node is its own predecessor.

pub mod adjacency;
pub mod dijkstra;
pub mod graph_samples;
pub mod graph_type;
pub mod index_table;
pub mod named_graph;
pub mod names;
pub mod tree_walk;
pub mod walks;
