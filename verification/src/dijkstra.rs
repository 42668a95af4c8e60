//! Dijkstra's shortest-path algorithm over three graph representations: the
//! adjacency mapping, the adjacency list and the adjacency matrix.
//!
//! The algorithm itself runs on the matrix ([`graph_matrix`]); the mapping
//! ([`graph_map`]) and the list ([`graph_vector`]) are converted first, and
//! [`utils`] passes between names and indices and rebuilds paths from a
//! tree. The functions of this module offer all of it under one roof.

pub mod graph_map;
pub mod graph_matrix;
pub mod graph_vector;
pub mod utils;

pub use crate::graph_type::{
    GraphMap, GraphMatrix, GraphVector, ShortestPath, ShortestPathNamed, ShortestPathTree,
    ShortestPathTreeNamed, ShortestPathTreeNode, ShortestPathTreeNodeNamed,
};

use crate::adjacency::{
    edges_matrix, list_edges, map_add_edge, map_matrix, map_symmetric, row_names, rows_closed,
    rows_distinct, rows_to_map, rows_view,
};
use crate::dijkstra::utils::NameLookup;
use crate::graph_samples::{
    graph_of_edges, sample1_edges, sample1_paths, sample2_edges, sample2_paths, sample3_edges,
    sample3_paths, sample4_edges, sample4_paths, sample_paths_view,
};
use crate::graph_type::{
    named_path_option_view, named_paths_view, named_tree_option_view, named_tree_view,
    path_option_view, paths_view,
};
use crate::index_table::{index_table, indexed_paths, indexed_tree, named_tree};
use crate::named_graph::{has_list_tree, has_map_tree, list_tree, map_path, map_tree};
use crate::names::{is_table_of, names_view};
use crate::tree_walk::{
    has_record, named_has_record, named_path_from_tree, named_record_of,
    named_walk_back_resolves, path_from_tree, record_of, walk_back_resolves,
};
use crate::walks::{is_shortest_path_tree, is_square, is_symmetric, matrix_weights};
use vstd::prelude::*;

verus! {

/// Adds the undirected edge between `a` and `b` to the graph, or gives it a
/// new weight: afterwards the mapping leads from `a` to `b` and from `b` to
/// `a` with `distance`.
pub fn add_edge_from_named_node(graph: &mut GraphMap, a: &str, b: &str, distance: u32)
    ensures
        final(graph)@ == map_add_edge(old(graph)@, a@, b@, distance),
{
    graph.add_edge(a, b, distance);
}

/// Converts the mapping into an adjacency list with exactly its edges; see
/// [`graph_vector::graph_map_to_vector`].
pub fn graph_map_to_vector(graph_map: &GraphMap) -> (graph_vector: Option<GraphVector>)
    ensures
        graph_vector is Some,
        rows_to_map(rows_view(graph_vector->0@)) == graph_map@,
        rows_distinct(rows_view(graph_vector->0@)),
        rows_closed(rows_view(graph_vector->0@)),
        map_symmetric(rows_to_map(rows_view(graph_vector->0@))),
{
    graph_vector::graph_map_to_vector(graph_map)
}

/// Converts the mapping into the canonical table of its node names and the
/// adjacency matrix over that table; see
/// [`graph_matrix::graph_map_to_matrix`].
pub fn graph_map_to_matrix(graph_map: &GraphMap) -> (result: (Vec<String>, GraphMatrix))
    ensures
        is_table_of(names_view(result.0@), graph_map@.dom()),
        matrix_weights(result.1@) == map_matrix(names_view(result.0@), graph_map@),
        is_square(matrix_weights(result.1@)),
        is_symmetric(matrix_weights(result.1@)),
        result.1@.len() == result.0@.len(),
        result.0@.len() == graph_map@.dom().len(),
{
    graph_matrix::graph_map_to_matrix(graph_map)
}

/// Builds the lookup table of `names`; see [`utils::name_lookup_map`].
pub fn name_lookup_map(names: &Vec<String>) -> (lookup: NameLookup)
    ensures
        lookup@ == index_table(names_view(names@)),
{
    utils::name_lookup_map(names)
}

/// Converts the adjacency list into the canonical table of its node names
/// and the adjacency matrix over that table; see
/// [`graph_vector::graph_vector_to_matrix`].
pub fn graph_vector_to_matrix(graph_vector: &GraphVector) -> (result: (Vec<String>, GraphMatrix))
    requires
        rows_closed(rows_view(graph_vector@)),
    ensures
        is_table_of(names_view(result.0@), row_names(rows_view(graph_vector@)).to_set()),
        matrix_weights(result.1@) == edges_matrix(
            names_view(result.0@),
            list_edges(rows_view(graph_vector@)),
        ),
        is_square(matrix_weights(result.1@)),
        is_symmetric(matrix_weights(result.1@)),
        result.1@.len() == result.0@.len(),
        result.0@.len() == row_names(rows_view(graph_vector@)).to_set().len(),
{
    graph_vector::graph_vector_to_matrix(graph_vector)
}

/// Computes the shortest path from `from` to `to` in the graph of the
/// mapping; see [`graph_map::shortest_path`].
pub fn shortest_path_from_map_graph(graph_map: &GraphMap, from: &str, to: &str) -> (path: Option<
    ShortestPathNamed,
>)
    ensures
        named_path_option_view(path) == map_path(graph_map@, from@, to@),
        !graph_map@.contains_key(from@) || !graph_map@.contains_key(to@) ==> path is None,
{
    graph_map::shortest_path(graph_map, from, to)
}

/// Builds the path from the tree's source to `to`; see
/// [`utils::build_shortest_path_from_tree`].
pub fn build_shortest_path_from_tree(to: usize, shortest_path_tree: &Vec<ShortestPathTreeNode>) -> (path:
    Option<ShortestPath>)
    requires
        has_record(shortest_path_tree@, to),
        walk_back_resolves(
            shortest_path_tree@,
            record_of(shortest_path_tree@, to).from,
            record_of(shortest_path_tree@, to).previous,
            shortest_path_tree@.len(),
        ),
    ensures
        path_option_view(path) == path_from_tree(shortest_path_tree@, to),
        path matches Some(p) ==> {
            &&& p.from == record_of(shortest_path_tree@, to).from
            &&& p.to == to
            &&& p.distance == record_of(shortest_path_tree@, to).distance
            &&& p.path@.len() >= 2
            &&& p.path@[0] == p.from
            &&& p.path@[p.path@.len() - 1] == to
        },
{
    utils::build_shortest_path_from_tree(to, shortest_path_tree)
}

/// Builds the path from the named tree's source to `to`; see
/// [`utils::build_shortest_path_from_tree_named`].
pub fn build_shortest_path_from_tree_named(
    to: &str,
    shortest_path_tree: &ShortestPathTreeNamed,
) -> (path: Option<ShortestPathNamed>)
    requires
        named_has_record(named_tree_view(shortest_path_tree@), to@),
        named_walk_back_resolves(
            named_tree_view(shortest_path_tree@),
            named_record_of(named_tree_view(shortest_path_tree@), to@).from,
            named_record_of(named_tree_view(shortest_path_tree@), to@).previous,
            shortest_path_tree@.len(),
        ),
    ensures
        named_path_option_view(path) == named_path_from_tree(
            named_tree_view(shortest_path_tree@),
            to@,
        ),
        path matches Some(p) ==> {
            &&& p.from@ == named_record_of(named_tree_view(shortest_path_tree@), to@).from
            &&& p.to@ == to@
            &&& p.distance == named_record_of(named_tree_view(shortest_path_tree@), to@).distance
            &&& p.path@.len() >= 2
            &&& p.path@[0]@ == p.from@
            &&& p.path@[p.path@.len() - 1]@ == to@
        },
{
    utils::build_shortest_path_from_tree_named(to, shortest_path_tree)
}

/// Computes the shortest-path tree of `source` in the graph of the mapping;
/// see [`graph_map::shortest_path_tree`].
pub fn shortest_path_tree_from_map_graph(graph_map: &GraphMap, source: &str) -> (tree: Option<
    ShortestPathTreeNamed,
>)
    ensures
        tree is Some <==> graph_map@.contains_key(source@),
        named_tree_option_view(tree) == map_tree(graph_map@, source@),
        tree is Some ==> has_map_tree(graph_map@, source@),
{
    graph_map::shortest_path_tree(graph_map, source)
}

/// Computes the shortest-path tree of `source` in the graph of the
/// adjacency list; see [`graph_vector::shortest_path_tree`].
pub fn shortest_path_tree_from_vector_graph(graph_vector: &GraphVector, source: &str) -> (tree:
    Option<ShortestPathTreeNamed>)
    requires
        rows_closed(rows_view(graph_vector@)),
    ensures
        tree is Some <==> row_names(rows_view(graph_vector@)).contains(source@),
        named_tree_option_view(tree) == list_tree(rows_view(graph_vector@), source@),
        tree is Some ==> has_list_tree(rows_view(graph_vector@), source@),
{
    graph_vector::shortest_path_tree(graph_vector, source)
}

/// Replaces the indices of a tree by the names at those positions of
/// `node_names`; see [`graph_vector::shortest_path_tree_named_from_numbered`].
pub fn shortest_path_tree_named_from_numbered(
    node_names: &Vec<String>,
    shortest_path_tree: &ShortestPathTree,
) -> (tree: Option<ShortestPathTreeNamed>)
    ensures
        named_tree_option_view(tree) == named_tree(names_view(node_names@), shortest_path_tree@),
{
    graph_vector::shortest_path_tree_named_from_numbered(node_names, shortest_path_tree)
}

/// Replaces the names of a named tree by their indices in `node_names`; see
/// [`utils::shortest_path_tree_from_named`].
pub fn shortest_path_tree_from_named(
    node_names: &Vec<String>,
    shortest_path_tree_string: &Vec<ShortestPathTreeNodeNamed>,
) -> (tree: Option<ShortestPathTree>)
    ensures
        match tree {
            Some(t) => indexed_tree(
                names_view(node_names@),
                named_tree_view(shortest_path_tree_string@),
            ) == Some(t@),
            None => indexed_tree(
                names_view(node_names@),
                named_tree_view(shortest_path_tree_string@),
            ) is None,
        },
{
    utils::shortest_path_tree_from_named(node_names, shortest_path_tree_string)
}

/// Replaces the names of named paths by their indices in `node_names`; see
/// [`utils::shortest_paths_from_named`].
pub fn shortest_paths_from_named(
    node_names: &Vec<String>,
    expected_shortest_paths_named: &Vec<ShortestPathNamed>,
) -> (paths: Option<Vec<ShortestPath>>)
    ensures
        match paths {
            Some(p) => indexed_paths(
                names_view(node_names@),
                named_paths_view(expected_shortest_paths_named@),
            ) == Some(paths_view(p@)),
            None => indexed_paths(
                names_view(node_names@),
                named_paths_view(expected_shortest_paths_named@),
            ) is None,
        },
{
    utils::shortest_paths_from_named(node_names, expected_shortest_paths_named)
}

/// Computes the shortest-path tree of `source` in the graph of the matrix;
/// see [`graph_matrix::shortest_path_tree`].
pub fn shortest_path_tree(graph_matrix: &GraphMatrix, source: usize) -> (tree: Option<
    Vec<ShortestPathTreeNode>,
>)
    requires
        is_square(matrix_weights(graph_matrix@)),
    ensures
        tree is Some <==> source < graph_matrix.len(),
        tree matches Some(t) ==> is_shortest_path_tree(matrix_weights(graph_matrix@), source, t@),
{
    graph_matrix::shortest_path_tree(graph_matrix, source)
}

/// The first worked example; see [`crate::graph_samples::sample1`].
pub fn test_sample1() -> (sample: (GraphMap, Vec<ShortestPathNamed>))
    ensures
        sample.0@ == graph_of_edges(sample1_edges()),
        named_paths_view(sample.1@) == sample_paths_view(sample1_paths()),
{
    crate::graph_samples::sample1()
}

/// The second worked example; see [`crate::graph_samples::sample2`].
pub fn test_sample2() -> (sample: (GraphMap, Vec<ShortestPathNamed>))
    ensures
        sample.0@ == graph_of_edges(sample2_edges()),
        named_paths_view(sample.1@) == sample_paths_view(sample2_paths()),
{
    crate::graph_samples::sample2()
}

/// The third worked example; see [`crate::graph_samples::sample3`].
pub fn test_sample3() -> (sample: (GraphMap, Vec<ShortestPathNamed>))
    ensures
        sample.0@ == graph_of_edges(sample3_edges()),
        named_paths_view(sample.1@) == sample_paths_view(sample3_paths()),
{
    crate::graph_samples::sample3()
}

/// The fourth worked example; see [`crate::graph_samples::sample4`].
pub fn test_sample4() -> (sample: (GraphMap, Vec<ShortestPathNamed>))
    ensures
        sample.0@ == graph_of_edges(sample4_edges()),
        named_paths_view(sample.1@) == sample_paths_view(sample4_paths()),
{
    crate::graph_samples::sample4()
}

} // verus!
