//! The record shapes shared by every part of the library: the three graph
//! containers and the shortest-path tree and path records, in their indexed
//! and their named form.

use crate::adjacency::{
    lemma_add_edge_symmetric, lemma_neighbours_push, lemma_neighbours_to_map,
    lemma_neighbours_update, lemma_rows_push, lemma_rows_to_map, lemma_rows_update, map_add_edge,
    map_has_edge, map_set, map_symmetric, neighbour_names, neighbours_to_map,
    neighbours_view, row_names, rows_closed, rows_distinct, rows_to_map, rows_view, WeightMap,
};
use crate::names::{names_view, same_name};
use vstd::prelude::*;

verus! {

/// Adjacency list: each node name with its `(neighbour, weight)` pairs.
pub type GraphVector = Vec<(String, Vec<(String, u32)>)>;

/// Dense adjacency matrix; a weight of 0 means that there is no edge.
pub type GraphMatrix = Vec<Vec<u32>>;

/// One record of a shortest-path tree over node indices.
#[derive(Debug, PartialEq, Eq, Clone, Copy, Structural)]
pub struct ShortestPathTreeNode {
    pub from: usize,
    pub to: usize,
    pub distance: u32,
    pub previous: usize,
}

pub type ShortestPathTree = Vec<ShortestPathTreeNode>;

/// A reconstructed path over node indices.
#[derive(Debug, PartialEq)]
pub struct ShortestPath {
    pub from: usize,
    pub to: usize,
    pub distance: u32,
    pub path: Vec<usize>,
}

/// One record of a shortest-path tree over node names.
#[derive(Debug, PartialEq)]
pub struct ShortestPathTreeNodeNamed {
    pub from: String,
    pub to: String,
    pub distance: u32,
    pub previous: String,
}

pub type ShortestPathTreeNamed = Vec<ShortestPathTreeNodeNamed>;

/// A reconstructed path over node names.
#[derive(Debug, PartialEq)]
pub struct ShortestPathNamed {
    pub from: String,
    pub to: String,
    pub distance: u32,
    pub path: Vec<String>,
}

/// What a [`ShortestPath`] holds, as mathematical values.
pub struct PathView {
    pub from: usize,
    pub to: usize,
    pub distance: u32,
    pub path: Seq<usize>,
}

/// What a [`ShortestPathTreeNodeNamed`] holds, as mathematical values.
pub struct NamedNodeView {
    pub from: Seq<char>,
    pub to: Seq<char>,
    pub distance: u32,
    pub previous: Seq<char>,
}

/// What a [`ShortestPathNamed`] holds, as mathematical values.
pub struct NamedPathView {
    pub from: Seq<char>,
    pub to: Seq<char>,
    pub distance: u32,
    pub path: Seq<Seq<char>>,
}

impl View for ShortestPath {
    type V = PathView;

    open spec fn view(&self) -> PathView {
        PathView { from: self.from, to: self.to, distance: self.distance, path: self.path@ }
    }
}

impl View for ShortestPathTreeNodeNamed {
    type V = NamedNodeView;

    open spec fn view(&self) -> NamedNodeView {
        NamedNodeView {
            from: self.from@,
            to: self.to@,
            distance: self.distance,
            previous: self.previous@,
        }
    }
}

impl View for ShortestPathNamed {
    type V = NamedPathView;

    open spec fn view(&self) -> NamedPathView {
        NamedPathView {
            from: self.from@,
            to: self.to@,
            distance: self.distance,
            path: names_view(self.path@),
        }
    }
}

/// Adjacency mapping of an undirected graph: node name to neighbour name to
/// weight. Edges enter it through [`GraphMap::add_edge`] only, so every
/// entry has its twin in the other direction.
#[derive(Debug)]
pub struct GraphMap {
    rows: GraphVector,
}

impl View for GraphMap {
    type V = WeightMap;

    closed spec fn view(&self) -> WeightMap {
        rows_to_map(rows_view(self.rows@))
    }
}

/// Finds the row of node `name`.
fn find_row(rows: &GraphVector, name: &str) -> (position: Option<usize>)
    ensures
        match position {
            Some(i) => i < rows.len() && rows_view(rows@)[i as int].0 == name@,
            None => !row_names(rows_view(rows@)).contains(name@),
        },
{
    let mut index: usize = 0;
    while index < rows.len()
        invariant
            index <= rows.len(),
            forall|j: int| 0 <= j < index ==> (#[trigger] rows_view(rows@)[j]).0 != name@,
        decreases rows.len() - index,
    {
        if same_name(rows[index].0.as_str(), name) {
            return Some(index);
        }
        index += 1;
    }
    proof {
        let names = row_names(rows_view(rows@));
        if names.contains(name@) {
            let j = choose|j: int| 0 <= j < names.len() && names[j] == name@;
            assert(rows_view(rows@)[j].0 == name@);
        }
    }
    None
}

/// Finds the pair of neighbour `name`.
fn find_neighbour(neighbours: &Vec<(String, u32)>, name: &str) -> (position: Option<usize>)
    ensures
        match position {
            Some(k) => k < neighbours.len() && neighbours_view(neighbours@)[k as int].0 == name@,
            None => !neighbour_names(neighbours_view(neighbours@)).contains(name@),
        },
{
    let mut index: usize = 0;
    while index < neighbours.len()
        invariant
            index <= neighbours.len(),
            forall|j: int|
                0 <= j < index ==> (#[trigger] neighbours_view(neighbours@)[j]).0 != name@,
        decreases neighbours.len() - index,
    {
        if same_name(neighbours[index].0.as_str(), name) {
            return Some(index);
        }
        index += 1;
    }
    proof {
        let names = neighbour_names(neighbours_view(neighbours@));
        if names.contains(name@) {
            let j = choose|j: int| 0 <= j < names.len() && names[j] == name@;
            assert(neighbours_view(neighbours@)[j].0 == name@);
        }
    }
    None
}

/// Sets the entry from `a` to `b`, with a new row or a new pair where the
/// list has none yet.
fn set_neighbour(rows: &mut GraphVector, a: &str, b: &str, weight: u32)
    requires
        rows_distinct(rows_view(old(rows)@)),
    ensures
        rows_distinct(rows_view(final(rows)@)),
        rows_to_map(rows_view(final(rows)@)) == map_set(
            rows_to_map(rows_view(old(rows)@)),
            a@,
            b@,
            weight,
        ),
{
    let ghost before = rows_view(rows@);
    proof {
        lemma_rows_to_map(before);
    }
    match find_row(rows, a) {
        Some(i) => {
            let ghost old_neighbours = before[i as int].1;
            proof {
                lemma_neighbours_to_map(old_neighbours);
                assert(row_names(before)[i as int] == a@);
            }
            match find_neighbour(&rows[i].1, b) {
                Some(k) => {
                    rows[i].1[k].1 = weight;
                    proof {
                        let after = rows_view(rows@);
                        let new_neighbours = old_neighbours.update(k as int, (b@, weight));
                        assert(after[i as int].1 =~= new_neighbours);
                        assert(after =~= before.update(i as int, (a@, new_neighbours)));
                        lemma_neighbours_update(old_neighbours, k as int, weight);
                        lemma_rows_update(before, i as int, new_neighbours);
                    }
                },
                None => {
                    rows[i].1.push((b.to_owned(), weight));
                    proof {
                        let after = rows_view(rows@);
                        let new_neighbours = old_neighbours.push((b@, weight));
                        assert(after[i as int].1 =~= new_neighbours);
                        assert(after =~= before.update(i as int, (a@, new_neighbours)));
                        lemma_neighbours_push(old_neighbours, b@, weight);
                        lemma_rows_update(before, i as int, new_neighbours);
                    }
                },
            }
            proof {
                let after = rows_view(rows@);
                assert forall|j: int| 0 <= j < after.len() implies neighbour_names(
                    #[trigger] after[j].1,
                ).no_duplicates() by {
                    if j != i {
                        assert(after[j] == before[j]);
                    }
                }
            }
        },
        None => {
            let mut neighbours: Vec<(String, u32)> = Vec::new();
            neighbours.push((b.to_owned(), weight));
            rows.push((a.to_owned(), neighbours));
            proof {
                let after = rows_view(rows@);
                let new_neighbours = Seq::<(Seq<char>, u32)>::empty().push((b@, weight));
                assert(after[before.len() as int].1 =~= new_neighbours);
                assert(after =~= before.push((a@, new_neighbours)));
                lemma_neighbours_push(Seq::<(Seq<char>, u32)>::empty(), b@, weight);
                lemma_rows_push(before, a@, new_neighbours);
                assert(neighbours_to_map(Seq::<(Seq<char>, u32)>::empty()) =~= Map::empty());
                assert forall|j: int| 0 <= j < after.len() implies neighbour_names(
                    #[trigger] after[j].1,
                ).no_duplicates() by {
                    if j < before.len() {
                        assert(after[j] == before[j]);
                    }
                }
            }
        },
    }
}

impl GraphMap {
    #[verifier::type_invariant]
    spec fn well_formed(&self) -> bool {
        &&& rows_distinct(rows_view(self.rows@))
        &&& map_symmetric(rows_to_map(rows_view(self.rows@)))
    }

    /// The graph without nodes.
    pub fn new() -> (graph: GraphMap)
        ensures
            graph@ == Map::<Seq<char>, Map<Seq<char>, u32>>::empty(),
    {
        let graph = GraphMap { rows: Vec::new() };
        assert(rows_view(graph.rows@) =~= Seq::empty());
        graph
    }

    /// The number of nodes.
    pub fn len(&self) -> (count: usize)
        ensures
            self@.dom().finite(),
            count == self@.dom().len(),
    {
        proof {
            use_type_invariant(self);
            lemma_rows_to_map(rows_view(self.rows@));
        }
        self.rows.len()
    }

    /// Whether the graph has no node.
    pub fn is_empty(&self) -> (empty: bool)
        ensures
            empty == (self@.dom().len() == 0),
            empty == (self@ == Map::<Seq<char>, Map<Seq<char>, u32>>::empty()),
    {
        proof {
            use_type_invariant(self);
            lemma_rows_to_map(rows_view(self.rows@));
            if self.rows@.len() == 0 {
                assert(self@ =~= Map::empty());
            }
        }
        self.rows.is_empty()
    }

    /// Whether `name` is a node of the graph.
    pub fn contains_node(&self, name: &str) -> (found: bool)
        ensures
            found == self@.contains_key(name@),
    {
        let position = find_row(&self.rows, name);
        proof {
            lemma_rows_to_map(rows_view(self.rows@));
            if let Some(i) = position {
                assert(row_names(rows_view(self.rows@))[i as int] == name@);
            }
        }
        position.is_some()
    }

    /// The weight of the edge between `a` and `b`, if the graph has that
    /// edge. The graph is undirected: asked the other way round, the answer
    /// is the same.
    pub fn weight(&self, a: &str, b: &str) -> (weight: Option<u32>)
        ensures
            weight == (if map_has_edge(self@, a@, b@) {
                Some(self@[a@][b@])
            } else {
                None
            }),
            map_has_edge(self@, a@, b@) == map_has_edge(self@, b@, a@),
            map_has_edge(self@, a@, b@) ==> self@[a@][b@] == self@[b@][a@],
    {
        proof {
            use_type_invariant(self);
            lemma_rows_to_map(rows_view(self.rows@));
            if map_has_edge(self@, b@, a@) {
                assert(map_has_edge(self@, a@, b@));
            }
        }
        match find_row(&self.rows, a) {
            Some(i) => {
                proof {
                    let rows = rows_view(self.rows@);
                    assert(row_names(rows)[i as int] == a@);
                    assert(self@[rows[i as int].0] == neighbours_to_map(rows[i as int].1));
                    lemma_neighbours_to_map(rows[i as int].1);
                }
                match find_neighbour(&self.rows[i].1, b) {
                    Some(k) => {
                        proof {
                            let rows = rows_view(self.rows@);
                            assert(neighbour_names(rows[i as int].1)[k as int] == b@);
                            assert(rows[i as int].1[k as int].0 == b@);
                        }
                        Some(self.rows[i].1[k].1)
                    },
                    None => None,
                }
            },
            None => None,
        }
    }

    /// The rows behind the mapping: one per node, none naming a neighbour
    /// twice, and each edge listed from both of its ends.
    pub fn rows(&self) -> (rows: &GraphVector)
        ensures
            rows_to_map(rows_view(rows@)) == self@,
            rows_distinct(rows_view(rows@)),
            rows_closed(rows_view(rows@)),
            map_symmetric(self@),
    {
        proof {
            use_type_invariant(self);
            let rows = rows_view(self.rows@);
            lemma_rows_to_map(rows);
            assert forall|i: int, k: int|
                0 <= i < rows.len() && 0 <= k < rows[i].1.len() implies row_names(rows).contains(
                #[trigger] rows[i].1[k].0,
            ) by {
                lemma_neighbours_to_map(rows[i].1);
                assert(neighbour_names(rows[i].1)[k] == rows[i].1[k].0);
                assert(row_names(rows)[i] == rows[i].0);
                assert(self@[rows[i].0] == neighbours_to_map(rows[i].1));
                assert(map_has_edge(self@, rows[i].0, rows[i].1[k].0));
            }
        }
        &self.rows
    }

    /// Adds the undirected edge between `a` and `b`, or gives it a new
    /// weight: afterwards the mapping leads from `a` to `b` and from `b` to
    /// `a` with `weight`. Nodes that the graph did not have are added.
    pub fn add_edge(&mut self, a: &str, b: &str, weight: u32)
        ensures
            final(self)@ == map_add_edge(old(self)@, a@, b@, weight),
    {
        proof {
            use_type_invariant(&*self);
            lemma_add_edge_symmetric(self@, a@, b@, weight);
        }
        let mut rows: GraphVector = Vec::new();
        assert(rows_view(rows@) =~= Seq::empty());
        std::mem::swap(&mut rows, &mut self.rows);
        set_neighbour(&mut rows, a, b, weight);
        set_neighbour(&mut rows, b, a, weight);
        self.rows = rows;
    }
}

/// What an optional path holds, as mathematical values.
pub open spec fn path_option_view(path: Option<ShortestPath>) -> Option<PathView> {
    match path {
        Some(p) => Some(p@),
        None => None,
    }
}

/// What an optional named path holds, as mathematical values.
pub open spec fn named_path_option_view(path: Option<ShortestPathNamed>) -> Option<NamedPathView> {
    match path {
        Some(p) => Some(p@),
        None => None,
    }
}

/// What an optional named tree holds, as mathematical values.
pub open spec fn named_tree_option_view(tree: Option<ShortestPathTreeNamed>) -> Option<
    Seq<NamedNodeView>,
> {
    match tree {
        Some(t) => Some(named_tree_view(t@)),
        None => None,
    }
}

/// The records of a named tree, as mathematical values.
pub open spec fn named_tree_view(t: Seq<ShortestPathTreeNodeNamed>) -> Seq<NamedNodeView> {
    Seq::new(t.len(), |i: int| t[i]@)
}

/// A list of indexed paths, as mathematical values.
pub open spec fn paths_view(p: Seq<ShortestPath>) -> Seq<PathView> {
    Seq::new(p.len(), |i: int| p[i]@)
}

/// A list of named paths, as mathematical values.
pub open spec fn named_paths_view(p: Seq<ShortestPathNamed>) -> Seq<NamedPathView> {
    Seq::new(p.len(), |i: int| p[i]@)
}

} // verus!
