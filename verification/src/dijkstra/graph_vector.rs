//! The adjacency list: how it is made from a mapping, its matrix, and its
//! shortest-path tree.

use crate::adjacency::{
    edge_at, edges_matrix, joining_weight, lemma_joining_weight, lemma_joining_weight_push,
    lemma_list_edges_take, list_edges, map_symmetric, neighbours_view, row_edges, row_names,
    rows_closed, rows_distinct, rows_to_map, rows_view, Edge,
};
use crate::dijkstra::graph_matrix;
use crate::dijkstra::utils::name_lookup_map;
use crate::graph_type::{
    named_tree_option_view, named_tree_view, GraphMap, GraphMatrix, GraphVector,
    ShortestPathTree, ShortestPathTreeNamed, ShortestPathTreeNodeNamed,
};
use crate::index_table::{index_table, named_node, named_tree};
use crate::named_graph::{has_list_tree, lemma_tree_names, list_tree};
use crate::names::{
    find_name, insert_sorted, is_table_of, lemma_first_index, lemma_first_index_of_sorted,
    lemma_table_len, lemma_table_of, names_view, same_name, strictly_sorted,
};
use crate::walks::{is_square, is_symmetric, lemma_tree_of, matrix_weights};
use vstd::prelude::*;

verus! {

/// Converts the mapping into an adjacency list with exactly its edges: one
/// row per node, no neighbour named twice in a row, every edge listed from
/// both of its ends.
pub fn graph_map_to_vector(graph_map: &GraphMap) -> (graph_vector: Option<GraphVector>)
    ensures
        graph_vector is Some,
        rows_to_map(rows_view(graph_vector->0@)) == graph_map@,
        rows_distinct(rows_view(graph_vector->0@)),
        rows_closed(rows_view(graph_vector->0@)),
        map_symmetric(rows_to_map(rows_view(graph_vector->0@))),
{
    let rows = graph_map.rows();
    let node_count = rows.len();
    let mut vector_graph: GraphVector = Vec::with_capacity(node_count);
    let mut index: usize = 0;
    while index < node_count
        invariant
            node_count == rows.len(),
            index <= node_count,
            vector_graph.len() == index,
            forall|i: int|
                0 <= i < index ==> (#[trigger] vector_graph@[i]).0@ == rows@[i].0@
                    && neighbours_view(vector_graph@[i].1@) == neighbours_view(rows@[i].1@),
        decreases node_count - index,
    {
        let row = &rows[index];
        let mut edges: Vec<(String, u32)> = Vec::with_capacity(row.1.len());
        let mut position: usize = 0;
        while position < row.1.len()
            invariant
                position <= row.1.len(),
                edges.len() == position,
                forall|k: int|
                    0 <= k < position ==> (#[trigger] edges@[k]).0@ == row.1@[k].0@ && edges@[k].1
                        == row.1@[k].1,
            decreases row.1.len() - position,
        {
            edges.push((row.1[position].0.clone(), row.1[position].1));
            position += 1;
        }
        assert(neighbours_view(edges@) =~= neighbours_view(row.1@));
        vector_graph.push((row.0.clone(), edges));
        index += 1;
    }
    assert(rows_view(vector_graph@) =~= rows_view(rows@));
    Some(vector_graph)
}

/// Whether the list has a row for `name`.
fn names_node(graph_vector: &GraphVector, name: &str) -> (found: bool)
    ensures
        found == row_names(rows_view(graph_vector@)).contains(name@),
{
    let ghost names = row_names(rows_view(graph_vector@));
    let mut row: usize = 0;
    while row < graph_vector.len()
        invariant
            names == row_names(rows_view(graph_vector@)),
            row <= graph_vector.len(),
            forall|r: int| 0 <= r < row ==> #[trigger] names[r] != name@,
        decreases graph_vector.len() - row,
    {
        if same_name(graph_vector[row].0.as_str(), name) {
            assert(names[row as int] == name@);
            return true;
        }
        row += 1;
    }
    false
}

/// Whether every neighbour that the list names is a node of the list.
pub fn is_closed_list(graph_vector: &GraphVector) -> (closed: bool)
    ensures
        closed == rows_closed(rows_view(graph_vector@)),
{
    let ghost rows = rows_view(graph_vector@);
    let mut index: usize = 0;
    while index < graph_vector.len()
        invariant
            rows == rows_view(graph_vector@),
            index <= graph_vector.len(),
            forall|i: int, k: int|
                0 <= i < index && 0 <= k < rows[i].1.len() ==> row_names(rows).contains(
                    #[trigger] rows[i].1[k].0,
                ),
        decreases graph_vector.len() - index,
    {
        let neighbours = &graph_vector[index].1;
        let mut position: usize = 0;
        while position < neighbours.len()
            invariant
                rows == rows_view(graph_vector@),
                index < graph_vector.len(),
                neighbours == &graph_vector@[index as int].1,
                position <= neighbours.len(),
                forall|k: int|
                    0 <= k < position ==> row_names(rows).contains(
                        #[trigger] rows[index as int].1[k].0,
                    ),
            decreases neighbours.len() - position,
        {
            if !names_node(graph_vector, neighbours[position].0.as_str()) {
                assert(rows[index as int].1[position as int].0 == neighbours@[position as int].0@);
                assert(!row_names(rows).contains(rows[index as int].1[position as int].0));
                return false;
            }
            assert(rows[index as int].1[position as int].0 == neighbours@[position as int].0@);
            position += 1;
        }
        index += 1;
    }
    true
}

/// A square matrix of the given size without edges.
fn empty_matrix(node_count: usize) -> (matrix: GraphMatrix)
    ensures
        matrix.len() == node_count,
        forall|i: int| 0 <= i < node_count ==> (#[trigger] matrix@[i]).len() == node_count,
        forall|i: int, j: int| 0 <= i < node_count && 0 <= j < node_count ==> matrix@[i]@[j] == 0,
{
    let mut matrix: GraphMatrix = Vec::with_capacity(node_count);
    let mut i: usize = 0;
    while i < node_count
        invariant
            i <= node_count,
            matrix.len() == i,
            forall|r: int| 0 <= r < i ==> (#[trigger] matrix@[r]).len() == node_count,
            forall|r: int, c: int| 0 <= r < i && 0 <= c < node_count ==> matrix@[r]@[c] == 0,
        decreases node_count - i,
    {
        let mut row: Vec<u32> = Vec::with_capacity(node_count);
        let mut j: usize = 0;
        while j < node_count
            invariant
                j <= node_count,
                row.len() == j,
                forall|c: int| 0 <= c < j ==> row@[c] == 0,
            decreases node_count - j,
        {
            row.push(0);
            j += 1;
        }
        matrix.push(row);
        i += 1;
    }
    matrix
}

/// The cells of the matrix hold the joining weights of the edges.
spec fn matrix_holds(matrix: Seq<Vec<u32>>, names: Seq<Seq<char>>, edges: Seq<Edge>) -> bool {
    &&& matrix.len() == names.len()
    &&& forall|i: int| 0 <= i < names.len() ==> (#[trigger] matrix[i]).len() == names.len()
    &&& forall|i: int, j: int|
        0 <= i < names.len() && 0 <= j < names.len() ==> matrix[i]@[j]
            == joining_weight(edges, names[i], names[j])
}

/// Collects the node names of the list into their canonical table: each
/// name once, in lexicographic order.
fn sorted_node_names(graph_vector: &GraphVector) -> (names: Vec<String>)
    ensures
        is_table_of(names_view(names@), row_names(rows_view(graph_vector@)).to_set()),
{
    let ghost rows = rows_view(graph_vector@);
    let mut names: Vec<String> = Vec::new();
    let mut index: usize = 0;
    assert(names_view(names@) =~= Seq::empty());
    while index < graph_vector.len()
        invariant
            rows == rows_view(graph_vector@),
            index <= graph_vector.len(),
            strictly_sorted(names_view(names@)),
            forall|x: Seq<char>|
                names_view(names@).contains(x) <==> exists|r: int|
                    0 <= r < index && (#[trigger] rows[r]).0 == x,
        decreases graph_vector.len() - index,
    {
        let ghost before = names_view(names@);
        insert_sorted(&mut names, graph_vector[index].0.as_str());
        proof {
            let after = names_view(names@);
            assert forall|x: Seq<char>| after.contains(x) <==> exists|r: int|
                0 <= r < index + 1 && (#[trigger] rows[r]).0 == x by {
                if after.contains(x) {
                    if before.contains(x) {
                        let r = choose|r: int| 0 <= r < index && (#[trigger] rows[r]).0 == x;
                        assert(rows[r].0 == x);
                    } else {
                        assert(rows[index as int].0 == x);
                    }
                }
                if exists|r: int| 0 <= r < index + 1 && (#[trigger] rows[r]).0 == x {
                    let r = choose|r: int| 0 <= r < index + 1 && (#[trigger] rows[r]).0 == x;
                    if r < index {
                        assert(before.contains(x));
                    }
                }
            }
        }
        index += 1;
    }
    proof {
        let table = names_view(names@);
        let all = row_names(rows);
        assert forall|x: Seq<char>| table.contains(x) <==> all.to_set().contains(x) by {
            if table.contains(x) {
                let r = choose|r: int| 0 <= r < index && (#[trigger] rows[r]).0 == x;
                assert(all[r] == x);
            }
            if all.contains(x) {
                let r = choose|r: int| 0 <= r < all.len() && all[r] == x;
                assert(rows[r].0 == x);
            }
        }
    }
    names
}

/// Converts the adjacency list into the canonical table of its node names
/// and the adjacency matrix over that table.
///
/// The table holds each node name once, in lexicographic order. A cell of
/// the matrix holds the weight of the edge between its two nodes, whichever
/// end lists it; where the list names an edge more than once, the last
/// mention counts; where it names none, the cell is 0. So the matrix is
/// square and symmetric. Every neighbour that the list names must be a node
/// of the list ([`is_closed_list`] tells).
pub fn graph_vector_to_matrix(graph_vector: &GraphVector) -> (result: (Vec<String>, GraphMatrix))
    requires
        rows_closed(rows_view(graph_vector@)),
    ensures
        is_table_of(names_view(result.0@), row_names(rows_view(graph_vector@)).to_set()),
        matrix_weights(result.1@) == edges_matrix(
            names_view(result.0@),
            list_edges(rows_view(graph_vector@)),
        ),
        is_square(matrix_weights(result.1@)),
        is_symmetric(matrix_weights(result.1@)),
        result.1@.len() == result.0@.len(),
        result.0@.len() == row_names(rows_view(graph_vector@)).to_set().len(),
{
    let ghost rows = rows_view(graph_vector@);
    let names = sorted_node_names(graph_vector);
    let ghost table = names_view(names@);
    let node_count = names.len();
    let name_lookup = name_lookup_map(&names);
    let mut matrix = empty_matrix(node_count);
    let mut row_index: usize = 0;
    let ghost mut done: Seq<Edge> = Seq::empty();
    assert(list_edges(rows.take(0)) =~= done);
    while row_index < graph_vector.len()
        invariant
            rows == rows_view(graph_vector@),
            rows_closed(rows),
            table == names_view(names@),
            is_table_of(table, row_names(rows).to_set()),
            name_lookup@ == index_table(table),
            node_count == names.len(),
            row_index <= graph_vector.len(),
            done == list_edges(rows.take(row_index as int)),
            matrix_holds(matrix@, table, done),
        decreases graph_vector.len() - row_index,
    {
        let row = &graph_vector[row_index];
        let ghost row_before = done;
        proof {
            assert(row_names(rows)[row_index as int] == row.0@);
            assert(table.contains(row.0@));
            lemma_first_index(table, row.0@);
        }
        let index1 = name_lookup.get(row.0.as_str()).unwrap();
        let mut position: usize = 0;
        assert(row_edges(rows[row_index as int]).take(0) =~= Seq::empty());
        assert(row_before + Seq::<Edge>::empty() =~= row_before);
        while position < row.1.len()
            invariant
                rows == rows_view(graph_vector@),
                rows_closed(rows),
                row_index < graph_vector.len(),
                row == &graph_vector@[row_index as int],
                table == names_view(names@),
                is_table_of(table, row_names(rows).to_set()),
                name_lookup@ == index_table(table),
                node_count == names.len(),
                index1 < node_count,
                table[index1 as int] == row.0@,
                position <= row.1.len(),
                done == row_before + row_edges(rows[row_index as int]).take(position as int),
                matrix_holds(matrix@, table, done),
            decreases row.1.len() - position,
        {
            let ghost edge = edge_at(rows, row_index as int, position as int);
            proof {
                assert(rows[row_index as int].1[position as int].0 == row.1@[position as int].0@);
                assert(row_names(rows).contains(rows[row_index as int].1[position as int].0));
                assert(table.contains(edge.1));
                lemma_first_index(table, edge.1);
            }
            let index2 = name_lookup.get(row.1[position].0.as_str()).unwrap();
            let distance = row.1[position].1;
            let ghost old_matrix = matrix@;
            matrix[index1][index2] = distance;
            matrix[index2][index1] = distance;
            proof {
                let next = done.push(edge);
                assert(row_edges(rows[row_index as int]).take(position + 1) =~= row_edges(
                    rows[row_index as int],
                ).take(position as int).push(edge));
                assert(row_before + row_edges(rows[row_index as int]).take(position + 1) =~= next);
                assert forall|i: int, j: int|
                    0 <= i < table.len() && 0 <= j < table.len() implies matrix@[i]@[j]
                    == joining_weight(next, table[i], table[j]) by {
                    lemma_joining_weight_push(done, edge, table[i], table[j]);
                    lemma_first_index_of_sorted(table, i);
                    lemma_first_index_of_sorted(table, j);
                    lemma_first_index_of_sorted(table, index1 as int);
                    lemma_first_index_of_sorted(table, index2 as int);
                    assert(old_matrix[i]@[j] == joining_weight(
                        done,
                        table[i],
                        table[j],
                    ));
                }
                done = next;
            }
            position += 1;
        }
        proof {
            assert(row_edges(rows[row_index as int]).take(row.1.len() as int) =~= row_edges(
                rows[row_index as int],
            ));
            lemma_list_edges_take(rows, row_index as int);
        }
        row_index += 1;
    }
    proof {
        lemma_table_len(table, row_names(rows).to_set());
        assert(rows.take(rows.len() as int) =~= rows);
        let w = matrix_weights(matrix@);
        let expected = edges_matrix(table, list_edges(rows));
        assert forall|i: int| 0 <= i < table.len() implies #[trigger] w[i] == expected[i] by {
            assert(w[i] =~= expected[i]);
        }
        assert(w =~= expected);
        assert forall|i: int, j: int| 0 <= i < w.len() && 0 <= j < w.len() implies #[trigger] w[i][j]
            == w[j][i] by {
            lemma_joining_weight(list_edges(rows), table[i], table[j]);
        }
    }
    (names, matrix)
}

/// Replaces the indices of a tree by the names at those positions of
/// `node_names`.
///
/// Returns `None` when the tree is empty, and when a record holds an index
/// at which the table has no name.
pub fn shortest_path_tree_named_from_numbered(
    node_names: &Vec<String>,
    shortest_path_tree: &ShortestPathTree,
) -> (tree: Option<ShortestPathTreeNamed>)
    ensures
        named_tree_option_view(tree) == named_tree(names_view(node_names@), shortest_path_tree@),
{
    if shortest_path_tree.is_empty() {
        return None;
    }
    let ghost names = names_view(node_names@);
    let node_count = shortest_path_tree.len();
    let mut tree_nodes_string: Vec<ShortestPathTreeNodeNamed> = Vec::with_capacity(node_count);
    let mut index: usize = 0;
    while index < node_count
        invariant
            names == names_view(node_names@),
            node_count == shortest_path_tree.len(),
            index <= node_count,
            tree_nodes_string.len() == index,
            forall|i: int|
                0 <= i < index ==> named_node(names, shortest_path_tree@[i]) == Some(
                    (#[trigger] tree_nodes_string@[i])@,
                ),
        decreases node_count - index,
    {
        let tree_node = &shortest_path_tree[index];
        let table_size = node_names.len();
        if tree_node.from >= table_size || tree_node.to >= table_size || tree_node.previous
            >= table_size {
            assert(named_node(names, shortest_path_tree@[index as int]) is None);
            return None;
        }
        tree_nodes_string.push(
            ShortestPathTreeNodeNamed {
                from: node_names[tree_node.from].clone(),
                to: node_names[tree_node.to].clone(),
                distance: tree_node.distance,
                previous: node_names[tree_node.previous].clone(),
            },
        );
        index += 1;
    }
    proof {
        assert forall|i: int| 0 <= i < shortest_path_tree@.len() implies (#[trigger] named_node(
            names,
            shortest_path_tree@[i],
        )) is Some by {
            assert(named_node(names, shortest_path_tree@[i]) == Some(tree_nodes_string@[i]@));
        }
        assert(named_tree(names, shortest_path_tree@)->0 =~= named_tree_view(tree_nodes_string@));
    }
    Some(tree_nodes_string)
}

/// Computes the shortest-path tree of `source` in the graph of the
/// adjacency list, by way of the list's matrix.
///
/// Returns `None` when `source` is no node of the list. Otherwise the tree
/// has one record per node, in the lexicographic order of the names: it is
/// the tree of the matrix, with each index replaced by the name that the
/// canonical table has for it. Every neighbour that the list names must be a
/// node of the list ([`is_closed_list`] tells).
pub fn shortest_path_tree(graph_vector: &GraphVector, source: &str) -> (tree: Option<
    ShortestPathTreeNamed,
>)
    requires
        rows_closed(rows_view(graph_vector@)),
    ensures
        tree is Some <==> row_names(rows_view(graph_vector@)).contains(source@),
        named_tree_option_view(tree) == list_tree(rows_view(graph_vector@), source@),
        tree is Some ==> has_list_tree(rows_view(graph_vector@), source@),
{
    let ghost rows = rows_view(graph_vector@);
    let (node_names, matrix) = graph_vector_to_matrix(graph_vector);
    let ghost names = names_view(node_names@);
    let ghost w = matrix_weights(matrix@);
    proof {
        lemma_table_of(names, row_names(rows).to_set());
        lemma_first_index(names, source@);
    }
    let position = find_name(&node_names, source);
    if position.is_none() {
        return None;
    }
    let source_index = position.unwrap();
    assert(matrix@.len() == w.len() && w.len() == names.len());
    let shortest_path_tree_nodes = graph_matrix::shortest_path_tree(&matrix, source_index);
    if shortest_path_tree_nodes.is_none() {
        return None;
    }
    let indexed = shortest_path_tree_nodes.unwrap();
    proof {
        lemma_tree_of(w, source_index, indexed@);
        lemma_tree_names(w, source_index, indexed@, names);
    }
    shortest_path_tree_named_from_numbered(&node_names, &indexed)
}

} // verus!
