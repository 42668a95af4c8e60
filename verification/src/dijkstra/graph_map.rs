//! The adjacency mapping: its shortest-path tree and the shortest path
//! between two of its nodes.

use crate::dijkstra::graph_matrix;
use crate::dijkstra::graph_vector::shortest_path_tree_named_from_numbered;
use crate::dijkstra::utils::build_shortest_path_from_tree_named;
use crate::graph_type::{
    named_path_option_view, named_tree_option_view, GraphMap, ShortestPathNamed,
    ShortestPathTreeNamed,
};
use crate::named_graph::{has_map_tree, lemma_map_path, lemma_tree_names, map_path, map_tree};
use crate::names::{find_name, lemma_first_index, lemma_table_of, names_view};
use crate::walks::{lemma_tree_of, matrix_weights};
use vstd::prelude::*;

verus! {

/// Computes the shortest-path tree of `source` in the graph of the mapping,
/// by way of the mapping's matrix.
///
/// Returns `None` when `source` is no node of the mapping (so for an empty
/// mapping). Otherwise the tree has one record per node, in the
/// lexicographic order of the names: it is the tree of the matrix, with
/// each index replaced by the name that the canonical table has for it.
pub fn shortest_path_tree(graph_map: &GraphMap, source: &str) -> (tree: Option<
    ShortestPathTreeNamed,
>)
    ensures
        tree is Some <==> graph_map@.contains_key(source@),
        named_tree_option_view(tree) == map_tree(graph_map@, source@),
        tree is Some ==> has_map_tree(graph_map@, source@),
{
    // check if the source node exists in the graph
    if !graph_map.contains_node(source) {
        return None;
    }
    let (node_names, matrix) = graph_matrix::graph_map_to_matrix(graph_map);
    let ghost names = names_view(node_names@);
    let ghost w = matrix_weights(matrix@);
    proof {
        lemma_table_of(names, graph_map@.dom());
        lemma_first_index(names, source@);
        assert(matrix@.len() == w.len() && w.len() == names.len());
    }
    let source_index = find_name(&node_names, source).unwrap();
    let indexed = graph_matrix::shortest_path_tree(&matrix, source_index).unwrap();
    proof {
        lemma_tree_of(w, source_index, indexed@);
        lemma_tree_names(w, source_index, indexed@, names);
    }
    shortest_path_tree_named_from_numbered(&node_names, &indexed)
}

/// Computes the shortest path from `from` to `to` in the graph of the
/// mapping: the tree of `from`, walked back from `to`.
///
/// Returns `None` when one of the two is no node of the mapping, and when
/// the tree of `from` holds no path to `to`.
pub fn shortest_path(graph_map: &GraphMap, from: &str, to: &str) -> (path: Option<
    ShortestPathNamed,
>)
    ensures
        named_path_option_view(path) == map_path(graph_map@, from@, to@),
        !graph_map@.contains_key(from@) || !graph_map@.contains_key(to@) ==> path is None,
{
    if !graph_map.contains_node(from) || !graph_map.contains_node(to) {
        return None;
    }
    let shortest_path_tree = shortest_path_tree(graph_map, from);
    if shortest_path_tree.is_none() {
        return None;
    }
    let tree = shortest_path_tree.unwrap();
    proof {
        lemma_map_path(graph_map@, from@, to@);
    }
    build_shortest_path_from_tree_named(to, &tree)
}

} // verus!
