//! What the shortest-path tree of a named graph is: the tree of its matrix
//! over the canonical table of its names, with each index named again.

use crate::adjacency::{
    edges_matrix, lemma_joining_weight_of_map, lemma_rows_to_map, list_edges, map_matrix,
    map_symmetric, map_weight, row_names, rows_distinct, rows_to_map, Rows, WeightMap,
};
use crate::graph_type::{NamedNodeView, NamedPathView, ShortestPathTreeNode};
use crate::index_table::{all_indexed, named_node, named_path, named_tree};
use crate::names::{
    first_index, is_table_of, lemma_first_index, lemma_sorted_no_duplicates, lemma_table_len,
    lemma_table_of, table_of,
};
use crate::tree_walk::{
    lemma_named_path_from_tree, lemma_no_path_to_unreached, lemma_path_matches_tree,
    lemma_tree_index_aligned, name_all, named_has_record, named_path_from_tree, named_record_of,
    named_walk_back_resolves, path_from_tree,
};
use crate::walks::{
    is_chosen_previous, is_last_step, is_shortest_path_tree, lemma_source_record, lemma_tree_of,
    tree_of, walk_weight,
};
use vstd::prelude::*;

verus! {

/// The shortest-path tree of `source` in the graph of an adjacency list, by
/// node names and in the order of the names; `None` where `source` is no
/// node of the list.
pub open spec fn list_tree(rows: Rows, source: Seq<char>) -> Option<Seq<NamedNodeView>> {
    let names = table_of(row_names(rows).to_set());
    if row_names(rows).contains(source) {
        named_tree(
            names,
            tree_of(edges_matrix(names, list_edges(rows)), first_index(names, source) as usize),
        )
    } else {
        None
    }
}

/// The shortest-path tree of `source` in the graph of an adjacency mapping,
/// by node names and in the order of the names; `None` where `source` is no
/// node of the mapping.
pub open spec fn map_tree(m: WeightMap, source: Seq<char>) -> Option<Seq<NamedNodeView>> {
    let names = table_of(m.dom());
    if m.contains_key(source) {
        named_tree(names, tree_of(map_matrix(names, m), first_index(names, source) as usize))
    } else {
        None
    }
}

/// Over any table, the matrix of a well-formed list is the matrix of the
/// mapping that the list stands for.
pub proof fn lemma_list_matrix_is_map_matrix(rows: Rows, names: Seq<Seq<char>>)
    requires
        rows_distinct(rows),
        map_symmetric(rows_to_map(rows)),
    ensures
        edges_matrix(names, list_edges(rows)) == map_matrix(names, rows_to_map(rows)),
{
    let a = edges_matrix(names, list_edges(rows));
    let b = map_matrix(names, rows_to_map(rows));
    assert forall|i: int| 0 <= i < names.len() implies #[trigger] a[i] == b[i] by {
        assert forall|j: int| 0 <= j < names.len() implies #[trigger] a[i][j] == b[i][j] by {
            lemma_joining_weight_of_map(rows, names[i], names[j]);
        }
        assert(a[i] =~= b[i]);
    }
    assert(a =~= b);
}

/// Representation equivalence, list and mapping: a well-formed list and the
/// mapping that it stands for have the same shortest-path trees.
pub proof fn lemma_list_tree_is_map_tree(rows: Rows, source: Seq<char>)
    requires
        rows_distinct(rows),
        map_symmetric(rows_to_map(rows)),
    ensures
        list_tree(rows, source) == map_tree(rows_to_map(rows), source),
{
    lemma_rows_to_map(rows);
    assert(row_names(rows).to_set() =~= rows_to_map(rows).dom());
    lemma_list_matrix_is_map_matrix(rows, table_of(rows_to_map(rows).dom()));
}

/// Representation equivalence, matrix and mapping: the tree computed on the
/// matrix of a mapping, with each index named by the canonical table, is the
/// tree of the mapping.
pub proof fn lemma_matrix_tree_is_map_tree(
    m: WeightMap,
    source: Seq<char>,
    names: Seq<Seq<char>>,
    t: Seq<ShortestPathTreeNode>,
)
    requires
        is_table_of(names, m.dom()),
        names.contains(source),
        is_shortest_path_tree(map_matrix(names, m), first_index(names, source) as usize, t),
    ensures
        map_tree(m, source) == named_tree(names, t),
{
    lemma_table_of(names, m.dom());
    lemma_tree_of(map_matrix(names, m), first_index(names, source) as usize, t);
}

/// The canonical table and the shortest-path tree that [`map_tree`] speaks
/// of exist: the mapping has a table of its names that holds `source`, and
/// its matrix over that table has a shortest-path tree of `source`.
pub open spec fn has_map_tree(m: WeightMap, source: Seq<char>) -> bool {
    let names = table_of(m.dom());
    let s = first_index(names, source) as usize;
    &&& is_table_of(names, m.dom())
    &&& names.len() <= usize::MAX
    &&& names.contains(source)
    &&& is_shortest_path_tree(map_matrix(names, m), s, tree_of(map_matrix(names, m), s))
    &&& map_tree(m, source) is Some
}

/// The canonical table and the shortest-path tree that [`list_tree`] speaks
/// of exist: the list has a table of its node names that holds `source`,
/// and its matrix over that table has a shortest-path tree of `source`.
pub open spec fn has_list_tree(rows: Rows, source: Seq<char>) -> bool {
    let names = table_of(row_names(rows).to_set());
    let w = edges_matrix(names, list_edges(rows));
    let s = first_index(names, source) as usize;
    &&& is_table_of(names, row_names(rows).to_set())
    &&& names.len() <= usize::MAX
    &&& names.contains(source)
    &&& is_shortest_path_tree(w, s, tree_of(w, s))
    &&& list_tree(rows, source) is Some
}

/// The shortest path from `from` to `to` in the graph of the mapping, as the
/// tree of `from` holds it; `None` where one of the two is no node of the
/// mapping, and where the tree holds no path to `to`.
pub open spec fn map_path(m: WeightMap, from: Seq<char>, to: Seq<char>) -> Option<NamedPathView> {
    if m.contains_key(from) && m.contains_key(to) {
        match map_tree(m, from) {
            Some(t) => named_path_from_tree(t, to),
            None => None,
        }
    } else {
        None
    }
}

/// The path between two nodes of a mapping is the path that the indexed
/// tree of its matrix holds, with each index named by the canonical table.
/// The named tree has the records that the walk back from `to` asks for.
pub proof fn lemma_map_path(m: WeightMap, from: Seq<char>, to: Seq<char>)
    requires
        has_map_tree(m, from),
        m.contains_key(to),
    ensures
        ({
            let names = table_of(m.dom());
            let t = tree_of(map_matrix(names, m), first_index(names, from) as usize);
            let target = first_index(names, to) as usize;
            &&& target < names.len()
            &&& names[target as int] == to
            &&& map_path(m, from, to) == match path_from_tree(t, target) {
                Some(p) => named_path(names, p),
                None => None,
            }
            &&& path_from_tree(t, target) matches Some(p) ==> named_path(names, p) is Some
        }),
        named_has_record(map_tree(m, from)->0, to),
        named_walk_back_resolves(
            map_tree(m, from)->0,
            named_record_of(map_tree(m, from)->0, to).from,
            named_record_of(map_tree(m, from)->0, to).previous,
            map_tree(m, from)->0.len(),
        ),
{
    let names = table_of(m.dom());
    let w = map_matrix(names, m);
    let s = first_index(names, from) as usize;
    let t = tree_of(w, s);
    lemma_first_index(names, to);
    lemma_first_index(names, from);
    lemma_sorted_no_duplicates(names);
    lemma_tree_index_aligned(w, s, t);
    let target = first_index(names, to) as usize;
    lemma_named_path_from_tree(names, t, target);
}

/// Every record of a shortest-path tree can be named by a table that has a
/// name for every node.
pub proof fn lemma_tree_names(
    w: Seq<Seq<u32>>,
    s: usize,
    t: Seq<ShortestPathTreeNode>,
    names: Seq<Seq<char>>,
)
    requires
        is_shortest_path_tree(w, s, t),
        names.len() == w.len(),
    ensures
        named_tree(names, t) is Some,
        named_tree(names, t)->0.len() == t.len(),
{
    assert forall|i: int| 0 <= i < t.len() implies (#[trigger] named_node(names, t[i])) is Some by {
        assert(is_chosen_previous(w, s, t, i));
        if !(i == s || t[i].distance == u32::MAX) {
            assert(is_last_step(w, t, t[i].previous as int, i));
        }
    }
}

/// The tree of a mapping has one record per node, in the order of the
/// canonical table; every record names the source, and the record of the
/// source has distance 0 and the source as predecessor.
pub proof fn lemma_map_tree_records(m: WeightMap, source: Seq<char>)
    requires
        has_map_tree(m, source),
    ensures
        ({
            let names = table_of(m.dom());
            let tree = map_tree(m, source)->0;
            let s = first_index(names, source);
            &&& tree.len() == names.len()
            &&& tree.len() == m.dom().len()
            &&& forall|i: int|
                0 <= i < tree.len() ==> (#[trigger] tree[i]).to == names[i] && tree[i].from
                    == source
            &&& 0 <= s < tree.len()
            &&& tree[s].to == source
            &&& tree[s].distance == 0
            &&& tree[s].previous == source
        }),
{
    let names = table_of(m.dom());
    let w = map_matrix(names, m);
    lemma_first_index(names, source);
    let s = first_index(names, source) as usize;
    let t = tree_of(w, s);
    lemma_tree_names(w, s, t, names);
    lemma_source_record(w, s, t);
    lemma_table_len(names, m.dom());
    let tree = map_tree(m, source)->0;
    assert forall|i: int| 0 <= i < tree.len() implies (#[trigger] tree[i]).to == names[i]
        && tree[i].from == source by {
        assert(named_node(names, t[i]) is Some);
        assert(t[i].to == i);
    }
    assert(named_node(names, t[s as int]) is Some);
}

/// The sum of the weights that the mapping holds for the steps of a route.
pub open spec fn route_weight(m: WeightMap, route: Seq<Seq<char>>) -> int
    decreases route.len(),
{
    if route.len() <= 1 {
        0
    } else {
        route_weight(m, route.drop_last()) + map_weight(
            m,
            route[route.len() - 2],
            route[route.len() - 1],
        )
    }
}

proof fn lemma_route_weight(m: WeightMap, names: Seq<Seq<char>>, nodes: Seq<usize>)
    requires
        all_indexed(names, nodes),
    ensures
        route_weight(m, name_all(names, nodes)) == walk_weight(map_matrix(names, m), nodes),
    decreases nodes.len(),
{
    if nodes.len() > 1 {
        let front = nodes.drop_last();
        assert(all_indexed(names, front)) by {
            assert forall|k: int| 0 <= k < front.len() implies (#[trigger] front[k])
                < names.len() by {
                assert(front[k] == nodes[k]);
            }
        }
        lemma_route_weight(m, names, front);
        assert(name_all(names, nodes).drop_last() =~= name_all(names, front));
        assert(nodes[nodes.len() - 2] < names.len());
        assert(nodes[nodes.len() - 1] < names.len());
    }
}

/// Path and tree agree, by names: the path between two different nodes of a
/// mapping, where there is one, starts with the first and ends with the
/// predecessor of the second and the second itself, has the distance that
/// the tree records for the second, and the weights of its steps add up to
/// that distance. There is one exactly when the tree records a distance.
pub proof fn lemma_map_path_matches_tree(m: WeightMap, from: Seq<char>, to: Seq<char>)
    requires
        has_map_tree(m, from),
        m.contains_key(to),
        from != to,
    ensures
        ({
            let names = table_of(m.dom());
            let record = map_tree(m, from)->0[first_index(names, to)];
            &&& record.to == to
            &&& map_path(m, from, to) is Some <==> record.distance < u32::MAX
            &&& map_path(m, from, to) matches Some(p) ==> {
                &&& p.from == from
                &&& p.to == to
                &&& p.distance == record.distance
                &&& p.path.len() >= 2
                &&& p.path[0] == from
                &&& p.path[p.path.len() - 2] == record.previous
                &&& p.path[p.path.len() - 1] == to
                &&& route_weight(m, p.path) == p.distance
            }
        }),
{
    let names = table_of(m.dom());
    let w = map_matrix(names, m);
    lemma_first_index(names, from);
    lemma_first_index(names, to);
    let s = first_index(names, from) as usize;
    let target = first_index(names, to) as usize;
    let t = tree_of(w, s);
    lemma_map_path(m, from, to);
    lemma_tree_names(w, s, t, names);
    assert(named_node(names, t[target as int]) is Some);
    assert(t[target as int].to == target);
    assert(t[target as int].from == s);
    if t[target as int].distance < u32::MAX {
        lemma_path_matches_tree(w, s, t, target);
        let indexed = path_from_tree(t, target)->0;
        lemma_route_weight(m, names, indexed.path);
        assert(named_path(names, indexed)->0.path =~= name_all(names, indexed.path));
    } else {
        lemma_no_path_to_unreached(w, s, t, target);
    }
}

} // verus!
