//! Index tables, the passage between named and indexed records, and the
//! reconstruction of paths from a shortest-path tree.

use crate::graph_type::{
    named_path_option_view, named_paths_view, named_tree_view, path_option_view, paths_view,
    NamedNodeView, NamedPathView, PathView, ShortestPath, ShortestPathNamed, ShortestPathTree,
    ShortestPathTreeNamed, ShortestPathTreeNode, ShortestPathTreeNodeNamed,
};
use crate::index_table::{
    all_named, index_table, indexed_node, indexed_path, indexed_paths, indexed_tree,
};
use crate::names::{find_name, first_index, lemma_first_index, names_view, same_name};
use crate::tree_walk::{
    has_record, lemma_named_path_from_tree_ends, lemma_path_from_tree_ends, named_has_record,
    named_path_from_tree, named_record_index, named_record_index_from, named_record_of,
    named_walk_back, named_walk_back_resolves, path_from_tree, record_index, record_index_from,
    record_of, walk_back, walk_back_resolves,
};
use vstd::prelude::*;

verus! {

/// Finds the first record that describes `node`.
fn find_record(tree: &Vec<ShortestPathTreeNode>, node: usize) -> (index: usize)
    ensures
        index == record_index(tree@, node),
{
    let mut index: usize = 0;
    while index < tree.len()
        invariant
            index <= tree.len(),
            record_index(tree@, node) == record_index_from(tree@, node, index as int),
        decreases tree.len() - index,
    {
        if tree[index].to == node {
            return index;
        }
        index += 1;
    }
    index
}

/// Copies a sequence of nodes in the opposite order.
fn reversed(nodes: &Vec<usize>) -> (result: Vec<usize>)
    ensures
        result@ == nodes@.reverse(),
{
    let mut result: Vec<usize> = Vec::with_capacity(nodes.len());
    let mut remaining: usize = nodes.len();
    while remaining > 0
        invariant
            remaining <= nodes.len(),
            result.len() == nodes.len() - remaining,
            forall|i: int| 0 <= i < result.len() ==> result@[i] == nodes@[nodes.len() - 1 - i],
        decreases remaining,
    {
        remaining -= 1;
        result.push(nodes[remaining]);
    }
    assert(result@ =~= nodes@.reverse());
    result
}

/// Whether the tree holds the records that the walk back from `to` asks
/// for: one for `to`, and one for every predecessor met on the way.
pub fn tree_resolves(to: usize, shortest_path_tree: &Vec<ShortestPathTreeNode>) -> (resolves: bool)
    ensures
        resolves == (has_record(shortest_path_tree@, to) && walk_back_resolves(
            shortest_path_tree@,
            record_of(shortest_path_tree@, to).from,
            record_of(shortest_path_tree@, to).previous,
            shortest_path_tree@.len(),
        )),
{
    let ghost t = shortest_path_tree@;
    let first = find_record(shortest_path_tree, to);
    if first >= shortest_path_tree.len() {
        return false;
    }
    let node = shortest_path_tree[first];
    let from = node.from;
    let mut previous = node.previous;
    let mut steps: usize = 0;
    while previous != from && steps < shortest_path_tree.len()
        invariant
            t == shortest_path_tree@,
            node == record_of(t, to),
            from == node.from,
            steps <= t.len(),
            walk_back_resolves(t, from, node.previous, t.len()) == walk_back_resolves(
                t,
                from,
                previous,
                (t.len() - steps) as nat,
            ),
        decreases t.len() - steps,
    {
        let index = find_record(shortest_path_tree, previous);
        if index >= shortest_path_tree.len() {
            return false;
        }
        previous = shortest_path_tree[index].previous;
        steps += 1;
    }
    true
}

/// Builds the path from the tree's source to `to` by walking the `previous`
/// fields back from `to` until the source is met.
///
/// The tree must hold a record for `to` and for every predecessor met on the
/// way ([`tree_resolves`] tells). Returns `None` when the predecessors do
/// not lead to the source within as many steps as the tree has records;
/// then they never do
/// ([`lemma_no_path_ever`](crate::tree_walk::lemma_no_path_ever)), as with a
/// node that the source does not reach.
pub fn build_shortest_path_from_tree(to: usize, shortest_path_tree: &Vec<ShortestPathTreeNode>) -> (path:
    Option<ShortestPath>)
    requires
        has_record(shortest_path_tree@, to),
        walk_back_resolves(
            shortest_path_tree@,
            record_of(shortest_path_tree@, to).from,
            record_of(shortest_path_tree@, to).previous,
            shortest_path_tree@.len(),
        ),
    ensures
        path_option_view(path) == path_from_tree(shortest_path_tree@, to),
        path matches Some(p) ==> {
            &&& p.from == record_of(shortest_path_tree@, to).from
            &&& p.to == to
            &&& p.distance == record_of(shortest_path_tree@, to).distance
            &&& p.path@.len() >= 2
            &&& p.path@[0] == p.from
            &&& p.path@[p.path@.len() - 1] == to
        },
{
    let ghost t = shortest_path_tree@;
    proof {
        lemma_path_from_tree_ends(t, to);
    }
    let node = shortest_path_tree[find_record(shortest_path_tree, to)];
    let from = node.from;
    let distance = node.distance;
    let mut previous = node.previous;
    let mut backwards: Vec<usize> = Vec::new();
    backwards.push(to);
    let mut steps: usize = 0;
    while previous != from
        invariant
            t == shortest_path_tree@,
            node == record_of(t, to),
            from == node.from,
            steps <= t.len(),
            backwards@.len() == steps + 1,
            backwards@[0] == to,
            walk_back_resolves(t, from, previous, (t.len() - steps) as nat),
            walk_back(t, from, node.previous, t.len()) == match walk_back(
                t,
                from,
                previous,
                (t.len() - steps) as nat,
            ) {
                Some(p) => Some(p + backwards@.subrange(1, backwards@.len() as int).reverse()),
                None => None,
            },
        decreases t.len() - steps,
    {
        if steps >= shortest_path_tree.len() {
            return None;
        }
        let ghost before = backwards@;
        backwards.push(previous);
        let index = find_record(shortest_path_tree, previous);
        proof {
            let rest = walk_back(
                t,
                from,
                record_of(t, previous).previous,
                (t.len() - steps - 1) as nat,
            );
            if rest is Some {
                let p = rest->0;
                assert(p.push(previous) + before.subrange(1, before.len() as int).reverse() =~= p
                    + backwards@.subrange(1, backwards@.len() as int).reverse());
            }
        }
        previous = shortest_path_tree[index].previous;
        steps += 1;
    }
    let ghost walked = backwards@;
    backwards.push(from);
    let path = reversed(&backwards);
    proof {
        assert(path@ =~= (seq![from] + walked.subrange(1, walked.len() as int).reverse()).push(to));
    }
    Some(ShortestPath { from, to, distance, path })
}

/// Finds the first named record that describes `node`.
fn find_named_record(tree: &Vec<ShortestPathTreeNodeNamed>, node: &str) -> (index: usize)
    ensures
        index == named_record_index(named_tree_view(tree@), node@),
{
    let mut index: usize = 0;
    while index < tree.len()
        invariant
            index <= tree.len(),
            named_record_index(named_tree_view(tree@), node@) == named_record_index_from(
                named_tree_view(tree@),
                node@,
                index as int,
            ),
        decreases tree.len() - index,
    {
        if same_name(tree[index].to.as_str(), node) {
            return index;
        }
        index += 1;
    }
    index
}

/// Moves a sequence of names into the opposite order.
fn reversed_names(names: Vec<String>) -> (result: Vec<String>)
    ensures
        names_view(result@) == names_view(names@).reverse(),
{
    let ghost given = names_view(names@);
    let mut names = names;
    let mut result: Vec<String> = Vec::with_capacity(names.len());
    while names.len() > 0
        invariant
            names.len() + result.len() == given.len(),
            forall|j: int| 0 <= j < names.len() ==> (#[trigger] names@[j])@ == given[j],
            forall|i: int|
                0 <= i < result.len() ==> (#[trigger] result@[i])@ == given[given.len() - 1
                    - i],
        decreases names.len(),
    {
        let name = names.pop().unwrap();
        result.push(name);
    }
    assert(names_view(result@) =~= given.reverse());
    result
}

/// Whether the named tree holds the records that the walk back from `to`
/// asks for: one for `to`, and one for every predecessor met on the way.
pub fn named_tree_resolves(to: &str, shortest_path_tree: &ShortestPathTreeNamed) -> (resolves: bool)
    ensures
        resolves == (named_has_record(named_tree_view(shortest_path_tree@), to@)
            && named_walk_back_resolves(
            named_tree_view(shortest_path_tree@),
            named_record_of(named_tree_view(shortest_path_tree@), to@).from,
            named_record_of(named_tree_view(shortest_path_tree@), to@).previous,
            shortest_path_tree@.len(),
        )),
{
    let ghost t = named_tree_view(shortest_path_tree@);
    let first = find_named_record(shortest_path_tree, to);
    if first >= shortest_path_tree.len() {
        return false;
    }
    let node = &shortest_path_tree[first];
    assert(node@ == named_record_of(t, to@));
    let mut previous: &String = &node.previous;
    let mut steps: usize = 0;
    while !same_name(previous.as_str(), node.from.as_str()) && steps < shortest_path_tree.len()
        invariant
            t == named_tree_view(shortest_path_tree@),
            node@ == named_record_of(t, to@),
            steps <= t.len(),
            named_walk_back_resolves(t, node@.from, node@.previous, t.len())
                == named_walk_back_resolves(
                t,
                node@.from,
                previous@,
                (t.len() - steps) as nat,
            ),
        decreases t.len() - steps,
    {
        let index = find_named_record(shortest_path_tree, previous.as_str());
        if index >= shortest_path_tree.len() {
            return false;
        }
        assert(shortest_path_tree@[index as int]@ == named_record_of(t, previous@));
        previous = &shortest_path_tree[index].previous;
        steps += 1;
    }
    true
}

/// Builds the path from the tree's source to `to` by walking the `previous`
/// fields of the named records back from `to` until the source is met.
///
/// The tree must hold a record for `to` and for every predecessor met on the
/// way ([`named_tree_resolves`] tells). Returns `None` when the predecessors
/// do not lead to the source within as many steps as the tree has records,
/// as with a node that the source does not reach.
pub fn build_shortest_path_from_tree_named(
    to: &str,
    shortest_path_tree: &ShortestPathTreeNamed,
) -> (path: Option<ShortestPathNamed>)
    requires
        named_has_record(named_tree_view(shortest_path_tree@), to@),
        named_walk_back_resolves(
            named_tree_view(shortest_path_tree@),
            named_record_of(named_tree_view(shortest_path_tree@), to@).from,
            named_record_of(named_tree_view(shortest_path_tree@), to@).previous,
            shortest_path_tree@.len(),
        ),
    ensures
        named_path_option_view(path) == named_path_from_tree(
            named_tree_view(shortest_path_tree@),
            to@,
        ),
        path matches Some(p) ==> {
            &&& p.from@ == named_record_of(named_tree_view(shortest_path_tree@), to@).from
            &&& p.to@ == to@
            &&& p.distance == named_record_of(named_tree_view(shortest_path_tree@), to@).distance
            &&& p.path@.len() >= 2
            &&& p.path@[0]@ == p.from@
            &&& p.path@[p.path@.len() - 1]@ == to@
        },
{
    let ghost t = named_tree_view(shortest_path_tree@);
    proof {
        lemma_named_path_from_tree_ends(t, to@);
    }
    let node = &shortest_path_tree[find_named_record(shortest_path_tree, to)];
    assert(node@ == named_record_of(t, to@));
    let from: String = node.from.clone();
    let distance = node.distance;
    let mut previous: String = node.previous.clone();
    let mut backwards: Vec<String> = Vec::new();
    backwards.push(to.to_owned());
    let mut steps: usize = 0;
    while !same_name(previous.as_str(), from.as_str())
        invariant
            t == named_tree_view(shortest_path_tree@),
            node@ == named_record_of(t, to@),
            from@ == node@.from,
            steps <= t.len(),
            backwards@.len() == steps + 1,
            names_view(backwards@)[0] == to@,
            named_walk_back_resolves(t, from@, previous@, (t.len() - steps) as nat),
            named_walk_back(t, from@, node@.previous, t.len()) == match named_walk_back(
                t,
                from@,
                previous@,
                (t.len() - steps) as nat,
            ) {
                Some(p) => Some(
                    p + names_view(backwards@).subrange(1, backwards@.len() as int).reverse(),
                ),
                None => None,
            },
        decreases t.len() - steps,
    {
        if steps >= shortest_path_tree.len() {
            return None;
        }
        let ghost before = names_view(backwards@);
        backwards.push(previous.clone());
        let index = find_named_record(shortest_path_tree, previous.as_str());
        proof {
            let after = names_view(backwards@);
            assert(after =~= before.push(previous@));
            let rest = named_walk_back(
                t,
                from@,
                named_record_of(t, previous@).previous,
                (t.len() - steps - 1) as nat,
            );
            if rest is Some {
                let p = rest->0;
                assert(p.push(previous@) + before.subrange(1, before.len() as int).reverse() =~= p
                    + after.subrange(1, after.len() as int).reverse());
            }
            assert(shortest_path_tree@[index as int]@ == named_record_of(t, previous@));
        }
        previous = shortest_path_tree[index].previous.clone();
        steps += 1;
    }
    let ghost walked = names_view(backwards@);
    backwards.push(from.clone());
    assert(names_view(backwards@) =~= walked.push(from@));
    let path = reversed_names(backwards);
    proof {
        assert(names_view(path@) =~= (seq![from@] + walked.subrange(
            1,
            walked.len() as int,
        ).reverse()).push(to@));
    }
    Some(ShortestPathNamed { from, to: to.to_owned(), distance, path })
}

/// A lookup table from node name to node index.
#[derive(Debug)]
pub struct NameLookup {
    names: Vec<String>,
}

impl View for NameLookup {
    type V = Map<Seq<char>, usize>;

    closed spec fn view(&self) -> Map<Seq<char>, usize> {
        index_table(names_view(self.names@))
    }
}

impl NameLookup {
    /// The index of `name`, if the table holds the name.
    pub fn get(&self, name: &str) -> (index: Option<usize>)
        ensures
            index == (if self@.contains_key(name@) {
                Some(self@[name@])
            } else {
                None
            }),
    {
        proof {
            lemma_first_index(names_view(self.names@), name@);
        }
        find_name(&self.names, name)
    }
}

/// Builds the lookup table of `names`: each name leads to the first position
/// at which it stands, so the order of the names is kept and a name that is
/// repeated keeps one index.
pub fn name_lookup_map(names: &Vec<String>) -> (lookup: NameLookup)
    ensures
        lookup@ == index_table(names_view(names@)),
{
    let mut copy: Vec<String> = Vec::with_capacity(names.len());
    let mut index: usize = 0;
    while index < names.len()
        invariant
            index <= names.len(),
            copy.len() == index,
            forall|i: int| 0 <= i < index ==> (#[trigger] copy@[i])@ == names@[i]@,
        decreases names.len() - index,
    {
        copy.push(names[index].clone());
        index += 1;
    }
    assert(names_view(copy@) =~= names_view(names@));
    NameLookup { names: copy }
}

/// Replaces the names of named paths by their indices in `node_names`.
///
/// Returns `None` when the table or the list is empty, and when a path names
/// a node that the table lacks.
pub fn shortest_paths_from_named(
    node_names: &Vec<String>,
    expected_shortest_paths_named: &Vec<ShortestPathNamed>,
) -> (paths: Option<Vec<ShortestPath>>)
    ensures
        match paths {
            Some(p) => indexed_paths(
                names_view(node_names@),
                named_paths_view(expected_shortest_paths_named@),
            ) == Some(paths_view(p@)),
            None => indexed_paths(
                names_view(node_names@),
                named_paths_view(expected_shortest_paths_named@),
            ) is None,
        },
{
    if node_names.is_empty() || expected_shortest_paths_named.is_empty() {
        return None;
    }
    let ghost names = names_view(node_names@);
    let ghost named = named_paths_view(expected_shortest_paths_named@);
    let name_lookup = name_lookup_map(node_names);
    let count = expected_shortest_paths_named.len();
    let mut expected_shortest_paths: Vec<ShortestPath> = Vec::with_capacity(count);
    let mut index: usize = 0;
    while index < count
        invariant
            count == expected_shortest_paths_named.len(),
            names == names_view(node_names@),
            named == named_paths_view(expected_shortest_paths_named@),
            names.len() > 0,
            name_lookup@ == index_table(names),
            index <= count,
            expected_shortest_paths.len() == index,
            forall|i: int|
                0 <= i < index ==> indexed_path(names, named[i]) == Some(
                    (#[trigger] expected_shortest_paths@[i])@,
                ),
        decreases count - index,
    {
        let named_path = &expected_shortest_paths_named[index];
        assert(named[index as int] == named_path@);
        let from = match name_lookup.get(named_path.from.as_str()) {
            Some(i) => i,
            None => {
                assert(indexed_path(names, named[index as int]) is None);
                return None;
            },
        };
        let to = match name_lookup.get(named_path.to.as_str()) {
            Some(i) => i,
            None => {
                assert(indexed_path(names, named[index as int]) is None);
                return None;
            },
        };
        let mut path: Vec<usize> = Vec::with_capacity(named_path.path.len());
        let mut step: usize = 0;
        while step < named_path.path.len()
            invariant
                names == names_view(node_names@),
                named == named_paths_view(expected_shortest_paths_named@),
                index < count,
                count == expected_shortest_paths_named.len(),
                named_path == &expected_shortest_paths_named@[index as int],
                name_lookup@ == index_table(names),
                step <= named_path.path.len(),
                path.len() == step,
                forall|k: int|
                    0 <= k < step ==> names.contains(#[trigger] names_view(named_path.path@)[k]),
                forall|k: int|
                    0 <= k < step ==> (#[trigger] path@[k]) == first_index(
                        names,
                        names_view(named_path.path@)[k],
                    ),
                named.len() > 0,
                names.len() > 0,
            decreases named_path.path.len() - step,
        {
            proof {
                lemma_first_index(names, named_path.path@[step as int]@);
                assert(names.len() == node_names.len());
                assert(names_view(named_path.path@)[step as int] == named_path.path@[step as int]@);
            }
            match name_lookup.get(named_path.path[step].as_str()) {
                Some(i) => {
                    path.push(i);
                },
                None => {
                    proof {
                        let p = named[index as int];
                        assert(p == named_path@);
                        assert(!names.contains(p.path[step as int]));
                        assert(!all_named(names, p.path));
                        assert(indexed_path(names, p) is None);
                    }
                    return None;
                },
            }
            step += 1;
        }
        let indexed = ShortestPath { from, to, distance: named_path.distance, path };
        proof {
            let p = named[index as int];
            assert(p == named_path@);
            assert(all_named(names, p.path));
            assert(indexed_path(names, p) is Some);
            assert(indexed@.path =~= indexed_path(names, p)->0.path);
        }
        expected_shortest_paths.push(indexed);
        index += 1;
    }
    proof {
        let result = indexed_paths(names, named);
        assert forall|i: int| 0 <= i < named.len() implies (#[trigger] indexed_path(names, named[i])) is Some by {
            assert(indexed_path(names, named[i]) == Some(expected_shortest_paths@[i]@));
        }
        assert(result->0 =~= paths_view(expected_shortest_paths@));
    }
    Some(expected_shortest_paths)
}

/// Replaces the names of a named tree by their indices in `node_names`.
///
/// Returns `None` when the table or the tree is empty, and when a record
/// names a node that the table lacks.
pub fn shortest_path_tree_from_named(
    node_names: &Vec<String>,
    shortest_path_tree_string: &Vec<ShortestPathTreeNodeNamed>,
) -> (tree: Option<ShortestPathTree>)
    ensures
        match tree {
            Some(t) => indexed_tree(
                names_view(node_names@),
                named_tree_view(shortest_path_tree_string@),
            ) == Some(t@),
            None => indexed_tree(
                names_view(node_names@),
                named_tree_view(shortest_path_tree_string@),
            ) is None,
        },
{
    if node_names.is_empty() || shortest_path_tree_string.is_empty() {
        return None;
    }
    let ghost names = names_view(node_names@);
    let ghost named = named_tree_view(shortest_path_tree_string@);
    let name_lookup = name_lookup_map(node_names);
    let node_count = shortest_path_tree_string.len();
    let mut tree_nodes: Vec<ShortestPathTreeNode> = Vec::with_capacity(node_count);
    let mut index: usize = 0;
    while index < node_count
        invariant
            node_count == shortest_path_tree_string.len(),
            names == names_view(node_names@),
            named == named_tree_view(shortest_path_tree_string@),
            names.len() > 0,
            name_lookup@ == index_table(names),
            index <= node_count,
            tree_nodes.len() == index,
            forall|i: int|
                0 <= i < index ==> indexed_node(names, named[i]) == Some(#[trigger] tree_nodes@[i]),
        decreases node_count - index,
    {
        let tree_node_string = &shortest_path_tree_string[index];
        assert(named[index as int] == tree_node_string@);
        let from = match name_lookup.get(tree_node_string.from.as_str()) {
            Some(i) => i,
            None => {
                assert(indexed_node(names, named[index as int]) is None);
                return None;
            },
        };
        let to = match name_lookup.get(tree_node_string.to.as_str()) {
            Some(i) => i,
            None => {
                assert(indexed_node(names, named[index as int]) is None);
                return None;
            },
        };
        let previous = match name_lookup.get(tree_node_string.previous.as_str()) {
            Some(i) => i,
            None => {
                assert(indexed_node(names, named[index as int]) is None);
                return None;
            },
        };
        tree_nodes.push(
            ShortestPathTreeNode { from, to, distance: tree_node_string.distance, previous },
        );
        index += 1;
    }
    proof {
        let result = indexed_tree(names, named);
        assert forall|i: int| 0 <= i < named.len() implies (#[trigger] indexed_node(names, named[i])) is Some by {
            assert(indexed_node(names, named[i]) == Some(tree_nodes@[i]));
        }
        assert(result->0 =~= tree_nodes@);
    }
    Some(tree_nodes)
}

/// The tree record that a path stands for: its ends, its distance, and as
/// predecessor the node before the last.
pub open spec fn record_of_path(p: PathView) -> ShortestPathTreeNode {
    ShortestPathTreeNode {
        from: p.from,
        to: p.to,
        distance: p.distance,
        previous: p.path[p.path.len() - 2],
    }
}

/// The named tree record that a named path stands for.
pub open spec fn record_of_named_path(p: NamedPathView) -> NamedNodeView {
    NamedNodeView {
        from: p.from,
        to: p.to,
        distance: p.distance,
        previous: p.path[p.path.len() - 2],
    }
}

/// Turns paths into tree records, one for one. Each path must have two
/// nodes at least.
pub fn build_path_tree_nodes_from_path(shortest_paths: &Vec<ShortestPath>) -> (nodes: Vec<
    ShortestPathTreeNode,
>)
    requires
        forall|i: int| 0 <= i < shortest_paths.len() ==> (#[trigger] shortest_paths@[i]).path.len() >= 2,
    ensures
        nodes@ == Seq::new(
            shortest_paths@.len(),
            |i: int| record_of_path(paths_view(shortest_paths@)[i]),
        ),
{
    let mut expected_tree_nodes: Vec<ShortestPathTreeNode> = Vec::with_capacity(
        shortest_paths.len(),
    );
    let mut index: usize = 0;
    while index < shortest_paths.len()
        invariant
            index <= shortest_paths.len(),
            expected_tree_nodes.len() == index,
            forall|i: int| 0 <= i < shortest_paths.len() ==> (#[trigger] shortest_paths@[i]).path.len() >= 2,
            forall|i: int|
                0 <= i < index ==> #[trigger] expected_tree_nodes@[i] == record_of_path(
                    paths_view(shortest_paths@)[i],
                ),
        decreases shortest_paths.len() - index,
    {
        let shortest_path = &shortest_paths[index];
        expected_tree_nodes.push(
            ShortestPathTreeNode {
                from: shortest_path.from,
                to: shortest_path.to,
                distance: shortest_path.distance,
                previous: shortest_path.path[shortest_path.path.len() - 2],
            },
        );
        index += 1;
    }
    assert(expected_tree_nodes@ =~= Seq::new(
        shortest_paths@.len(),
        |i: int| record_of_path(paths_view(shortest_paths@)[i]),
    ));
    expected_tree_nodes
}

/// Turns named paths into named tree records, one for one. Each path must
/// have two nodes at least.
pub fn build_path_tree_nodes_from_path_named(shortest_paths: &Vec<ShortestPathNamed>) -> (nodes:
    Vec<ShortestPathTreeNodeNamed>)
    requires
        forall|i: int| 0 <= i < shortest_paths.len() ==> (#[trigger] shortest_paths@[i]).path.len() >= 2,
    ensures
        named_tree_view(nodes@) == Seq::new(
            shortest_paths@.len(),
            |i: int| record_of_named_path(named_paths_view(shortest_paths@)[i]),
        ),
{
    let mut expected_tree_nodes: Vec<ShortestPathTreeNodeNamed> = Vec::with_capacity(
        shortest_paths.len(),
    );
    let mut index: usize = 0;
    while index < shortest_paths.len()
        invariant
            index <= shortest_paths.len(),
            expected_tree_nodes.len() == index,
            forall|i: int| 0 <= i < shortest_paths.len() ==> (#[trigger] shortest_paths@[i]).path.len() >= 2,
            forall|i: int|
                0 <= i < index ==> (#[trigger] expected_tree_nodes@[i])@ == record_of_named_path(
                    named_paths_view(shortest_paths@)[i],
                ),
        decreases shortest_paths.len() - index,
    {
        let shortest_path = &shortest_paths[index];
        expected_tree_nodes.push(
            ShortestPathTreeNodeNamed {
                from: shortest_path.from.clone(),
                to: shortest_path.to.clone(),
                distance: shortest_path.distance,
                previous: shortest_path.path[shortest_path.path.len() - 2].clone(),
            },
        );
        index += 1;
    }
    assert(named_tree_view(expected_tree_nodes@) =~= Seq::new(
        shortest_paths@.len(),
        |i: int| record_of_named_path(named_paths_view(shortest_paths@)[i]),
    ));
    expected_tree_nodes
}

} // verus!
