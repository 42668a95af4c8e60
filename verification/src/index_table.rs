//! Passing between node names and node indices by a table of names: the
//! index of a name is the first position at which the table holds it.

use crate::graph_type::{NamedNodeView, NamedPathView, PathView, ShortestPathTreeNode};
use crate::names::{first_index, lemma_first_index};
use vstd::prelude::*;

verus! {

/// The mapping from each name of the table to its index.
pub open spec fn index_table(names: Seq<Seq<char>>) -> Map<Seq<char>, usize> {
    Map::new(|x: Seq<char>| names.contains(x), |x: Seq<char>| first_index(names, x) as usize)
}

/// The record with each name replaced by its index; `None` where the table
/// lacks one of the names.
pub open spec fn indexed_node(names: Seq<Seq<char>>, r: NamedNodeView) -> Option<
    ShortestPathTreeNode,
> {
    if names.contains(r.from) && names.contains(r.to) && names.contains(r.previous) {
        Some(
            ShortestPathTreeNode {
                from: first_index(names, r.from) as usize,
                to: first_index(names, r.to) as usize,
                distance: r.distance,
                previous: first_index(names, r.previous) as usize,
            },
        )
    } else {
        None
    }
}

/// The tree with each name replaced by its index; `None` where the table or
/// the tree is empty or the table lacks a name of the tree.
pub open spec fn indexed_tree(names: Seq<Seq<char>>, t: Seq<NamedNodeView>) -> Option<
    Seq<ShortestPathTreeNode>,
> {
    if names.len() == 0 || t.len() == 0 {
        None
    } else if forall|i: int| 0 <= i < t.len() ==> (#[trigger] indexed_node(names, t[i])) is Some {
        Some(Seq::new(t.len(), |i: int| indexed_node(names, t[i])->0))
    } else {
        None
    }
}

/// The record with each index replaced by its name; `None` where the table
/// has no name at one of the indices.
pub open spec fn named_node(names: Seq<Seq<char>>, r: ShortestPathTreeNode) -> Option<
    NamedNodeView,
> {
    if r.from < names.len() && r.to < names.len() && r.previous < names.len() {
        Some(
            NamedNodeView {
                from: names[r.from as int],
                to: names[r.to as int],
                distance: r.distance,
                previous: names[r.previous as int],
            },
        )
    } else {
        None
    }
}

/// The tree with each index replaced by its name; `None` where the tree is
/// empty or the table has no name at an index of the tree.
pub open spec fn named_tree(names: Seq<Seq<char>>, t: Seq<ShortestPathTreeNode>) -> Option<
    Seq<NamedNodeView>,
> {
    if t.len() == 0 {
        None
    } else if forall|i: int| 0 <= i < t.len() ==> (#[trigger] named_node(names, t[i])) is Some {
        Some(Seq::new(t.len(), |i: int| named_node(names, t[i])->0))
    } else {
        None
    }
}

/// Every name of the sequence is a name of the table.
pub open spec fn all_named(names: Seq<Seq<char>>, path: Seq<Seq<char>>) -> bool {
    forall|k: int| 0 <= k < path.len() ==> names.contains(#[trigger] path[k])
}

/// The path with each name replaced by its index; `None` where the table
/// lacks one of the names.
pub open spec fn indexed_path(names: Seq<Seq<char>>, p: NamedPathView) -> Option<PathView> {
    if names.contains(p.from) && names.contains(p.to) && all_named(names, p.path) {
        Some(
            PathView {
                from: first_index(names, p.from) as usize,
                to: first_index(names, p.to) as usize,
                distance: p.distance,
                path: Seq::new(p.path.len(), |k: int| first_index(names, p.path[k]) as usize),
            },
        )
    } else {
        None
    }
}

/// The paths with each name replaced by its index; `None` where the table
/// or the list is empty or the table lacks a name of a path.
pub open spec fn indexed_paths(names: Seq<Seq<char>>, p: Seq<NamedPathView>) -> Option<
    Seq<PathView>,
> {
    if names.len() == 0 || p.len() == 0 {
        None
    } else if forall|i: int| 0 <= i < p.len() ==> (#[trigger] indexed_path(names, p[i])) is Some {
        Some(Seq::new(p.len(), |i: int| indexed_path(names, p[i])->0))
    } else {
        None
    }
}

/// Every index of the sequence is an index of the table.
pub open spec fn all_indexed(names: Seq<Seq<char>>, path: Seq<usize>) -> bool {
    forall|k: int| 0 <= k < path.len() ==> (#[trigger] path[k]) < names.len()
}

/// The path with each index replaced by its name; `None` where the table has
/// no name at one of the indices.
pub open spec fn named_path(names: Seq<Seq<char>>, p: PathView) -> Option<NamedPathView> {
    if p.from < names.len() && p.to < names.len() && all_indexed(names, p.path) {
        Some(
            NamedPathView {
                from: names[p.from as int],
                to: names[p.to as int],
                distance: p.distance,
                path: Seq::new(p.path.len(), |k: int| names[p.path[k] as int]),
            },
        )
    } else {
        None
    }
}

/// The table of indices knows exactly the names of the table, leads each to
/// a position that holds it, and leads no two names to one index.
pub proof fn lemma_index_table(names: Seq<Seq<char>>)
    requires
        names.len() <= usize::MAX,
    ensures
        forall|x: Seq<char>| #[trigger] index_table(names).contains_key(x) <==> names.contains(x),
        forall|x: Seq<char>|
            names.contains(x) ==> (#[trigger] index_table(names)[x]) < names.len()
                && names[index_table(names)[x] as int] == x,
        forall|x: Seq<char>, y: Seq<char>|
            names.contains(x) && names.contains(y) && #[trigger] index_table(names)[x]
                == #[trigger] index_table(names)[y] ==> x == y,
{
    assert forall|x: Seq<char>| names.contains(x) implies (#[trigger] index_table(names)[x])
        < names.len() && names[index_table(names)[x] as int] == x by {
        lemma_first_index(names, x);
    }
}

/// Index bijection: a named tree that is turned into its indexed form comes
/// back unchanged when the indexed form is named by the same table.
pub proof fn lemma_named_tree_round_trip(names: Seq<Seq<char>>, t: Seq<NamedNodeView>)
    requires
        names.len() <= usize::MAX,
        indexed_tree(names, t) is Some,
    ensures
        named_tree(names, indexed_tree(names, t)->0) == Some(t),
{
    let indexed = indexed_tree(names, t)->0;
    assert forall|i: int| 0 <= i < indexed.len() implies (#[trigger] named_node(names, indexed[i]))
        == Some(t[i]) by {
        assert(indexed_node(names, t[i]) is Some);
        lemma_first_index(names, t[i].from);
        lemma_first_index(names, t[i].to);
        lemma_first_index(names, t[i].previous);
    }
    assert(named_tree(names, indexed)->0 =~= t);
}

/// In a table without repetition the round trip works the other way too: an
/// indexed tree that is named comes back unchanged when it is indexed again.
pub proof fn lemma_indexed_tree_round_trip(names: Seq<Seq<char>>, t: Seq<ShortestPathTreeNode>)
    requires
        names.len() <= usize::MAX,
        names.no_duplicates(),
        named_tree(names, t) is Some,
    ensures
        indexed_tree(names, named_tree(names, t)->0) == Some(t),
{
    let named = named_tree(names, t)->0;
    assert(named_node(names, t[0]) is Some);
    assert forall|i: int| 0 <= i < named.len() implies (#[trigger] indexed_node(names, named[i]))
        == Some(t[i]) by {
        assert(named_node(names, t[i]) is Some);
        lemma_first_index(names, named[i].from);
        lemma_first_index(names, named[i].to);
        lemma_first_index(names, named[i].previous);
        assert(names.contains(names[t[i].from as int]));
        assert(names.contains(names[t[i].to as int]));
        assert(names.contains(names[t[i].previous as int]));
    }
    assert(indexed_tree(names, named)->0 =~= t);
}

} // verus!
