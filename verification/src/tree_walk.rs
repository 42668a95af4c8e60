//! The walk from a node of a shortest-path tree back to the source: what
//! path it yields, and that path and tree agree.

use crate::graph_type::{NamedNodeView, NamedPathView, PathView, ShortestPathTreeNode};
use crate::index_table::{all_indexed, named_node, named_path, named_tree};
use crate::walks::{
    is_chosen_previous, is_distance, is_last_step, is_shortest_path_tree, is_walk, is_walk_between,
    lemma_walk_extend, walk_weight,
};
use vstd::prelude::*;

verus! {

/// The position of the first record from `i` on that describes `node`, or
/// the length of the tree when there is none.
pub open spec fn record_index_from(t: Seq<ShortestPathTreeNode>, node: usize, i: int) -> int
    decreases t.len() - i,
{
    if i < 0 || i >= t.len() {
        t.len() as int
    } else if t[i].to == node {
        i
    } else {
        record_index_from(t, node, i + 1)
    }
}

/// The position of the first record that describes `node`, or the length of
/// the tree when there is none.
pub open spec fn record_index(t: Seq<ShortestPathTreeNode>, node: usize) -> int {
    record_index_from(t, node, 0)
}

/// Some record describes `node`.
pub open spec fn has_record(t: Seq<ShortestPathTreeNode>, node: usize) -> bool {
    record_index(t, node) < t.len()
}

/// The first record that describes `node`.
pub open spec fn record_of(t: Seq<ShortestPathTreeNode>, node: usize) -> ShortestPathTreeNode {
    t[record_index(t, node)]
}

/// The nodes from `from` to `node`, found by following `previous` from
/// `node` back until `from` is met. `None` when `from` is not met within
/// `fuel` steps.
pub open spec fn walk_back(
    t: Seq<ShortestPathTreeNode>,
    from: usize,
    node: usize,
    fuel: nat,
) -> Option<Seq<usize>>
    decreases fuel,
{
    if node == from {
        Some(seq![from])
    } else if fuel == 0 {
        None
    } else {
        match walk_back(t, from, record_of(t, node).previous, (fuel - 1) as nat) {
            Some(p) => Some(p.push(node)),
            None => None,
        }
    }
}

/// Every node met within `fuel` steps on the way back from `node` to `from`
/// has a record.
pub open spec fn walk_back_resolves(
    t: Seq<ShortestPathTreeNode>,
    from: usize,
    node: usize,
    fuel: nat,
) -> bool
    decreases fuel,
{
    node == from || fuel == 0 || (has_record(t, node) && walk_back_resolves(
        t,
        from,
        record_of(t, node).previous,
        (fuel - 1) as nat,
    ))
}

/// The path that the tree holds for `to`: from the source of the record of
/// `to` along the predecessors to `to` itself, with the distance of that
/// record. The source is named twice when `to` is the source or its
/// predecessor is. `None` when the predecessors of `to` do not lead to the
/// source within as many steps as the tree has records.
pub open spec fn path_from_tree(t: Seq<ShortestPathTreeNode>, to: usize) -> Option<PathView> {
    let record = record_of(t, to);
    match walk_back(t, record.from, record.previous, t.len()) {
        Some(p) => Some(
            PathView { from: record.from, to: to, distance: record.distance, path: p.push(to) },
        ),
        None => None,
    }
}

proof fn lemma_record_index_from(t: Seq<ShortestPathTreeNode>, node: usize, i: int)
    requires
        0 <= i <= t.len(),
    ensures
        i <= record_index_from(t, node, i) <= t.len(),
        record_index_from(t, node, i) < t.len() ==> t[record_index_from(t, node, i)].to == node,
        forall|j: int| i <= j < record_index_from(t, node, i) ==> (#[trigger] t[j]).to != node,
    decreases t.len() - i,
{
    if i < t.len() && t[i].to != node {
        lemma_record_index_from(t, node, i + 1);
    }
}

/// The first record of a node is a record of that node, and none before it
/// is.
pub proof fn lemma_record_index(t: Seq<ShortestPathTreeNode>, node: usize)
    ensures
        0 <= record_index(t, node) <= t.len(),
        has_record(t, node) ==> record_of(t, node).to == node,
        forall|j: int| 0 <= j < record_index(t, node) ==> (#[trigger] t[j]).to != node,
        has_record(t, node) <==> exists|j: int| 0 <= j < t.len() && (#[trigger] t[j]).to == node,
{
    lemma_record_index_from(t, node, 0);
    if exists|j: int| 0 <= j < t.len() && (#[trigger] t[j]).to == node {
        let j = choose|j: int| 0 <= j < t.len() && (#[trigger] t[j]).to == node;
        assert(t[j].to == node);
    }
}

/// The way back from `node` to `from`, where it is found, starts with `from`
/// and ends with `node`, and has no more steps than the fuel allows.
pub proof fn lemma_walk_back_ends(
    t: Seq<ShortestPathTreeNode>,
    from: usize,
    node: usize,
    fuel: nat,
)
    ensures
        walk_back(t, from, node, fuel) matches Some(p) ==> 1 <= p.len() <= fuel + 1 && p[0] == from
            && p.last() == node,
    decreases fuel,
{
    if node != from && fuel > 0 {
        lemma_walk_back_ends(t, from, record_of(t, node).previous, (fuel - 1) as nat);
    }
}

/// The path that a tree holds for `to` leads from the source of the record
/// of `to` to `to` itself, and counts two nodes at least.
pub proof fn lemma_path_from_tree_ends(t: Seq<ShortestPathTreeNode>, to: usize)
    ensures
        path_from_tree(t, to) matches Some(p) ==> {
            &&& p.from == record_of(t, to).from
            &&& p.to == to
            &&& p.distance == record_of(t, to).distance
            &&& 2 <= p.path.len() <= t.len() + 2
            &&& p.path[0] == p.from
            &&& p.path[p.path.len() - 1] == to
        },
{
    let record = record_of(t, to);
    lemma_walk_back_ends(t, record.from, record.previous, t.len());
}

/// How many of the first `k` records have a distance below `d`.
spec fn nearer_count(t: Seq<ShortestPathTreeNode>, d: int, k: int) -> int
    decreases k,
{
    if k <= 0 {
        0
    } else {
        nearer_count(t, d, k - 1) + if t[k - 1].distance < d {
            1int
        } else {
            0int
        }
    }
}

proof fn lemma_nearer_count_grows(t: Seq<ShortestPathTreeNode>, d1: int, d2: int, p: int, k: int)
    requires
        0 <= k <= t.len(),
        d1 <= d2,
    ensures
        0 <= nearer_count(t, d1, k) <= k,
        nearer_count(t, d1, k) <= nearer_count(t, d2, k),
        0 <= p < k && d1 <= t[p].distance < d2 ==> nearer_count(t, d1, k) < nearer_count(t, d2, k),
    decreases k,
{
    if k > 0 {
        lemma_nearer_count_grows(t, d1, d2, p, k - 1);
    }
}

/// In a shortest-path tree the way back from a node with a distance meets
/// the source, and gives a walk of exactly that distance.
proof fn lemma_walk_back_reaches_source(
    w: Seq<Seq<u32>>,
    s: usize,
    t: Seq<ShortestPathTreeNode>,
    v: usize,
    fuel: nat,
)
    requires
        is_shortest_path_tree(w, s, t),
        v < t.len(),
        t[v as int].distance < u32::MAX,
        fuel >= nearer_count(t, t[v as int].distance as int, t.len() as int),
    ensures
        walk_back(t, s, v, fuel) is Some,
        walk_back_resolves(t, s, v, fuel),
        is_walk_between(w, walk_back(t, s, v, fuel)->0, s, v),
        walk_weight(w, walk_back(t, s, v, fuel)->0) == t[v as int].distance,
    decreases fuel,
{
    if v == s {
        assert(is_distance(w, s, s, t[s as int].distance));
        assert(is_walk_between(w, seq![s], s, s));
        assert(walk_weight(w, seq![s]) == 0);
    } else {
        lemma_tree_records(w, s, t, v);
        assert(is_chosen_previous(w, s, t, v as int));
        let p = t[v as int].previous;
        assert(is_last_step(w, t, p as int, v as int));
        lemma_nearer_count_grows(
            t,
            t[p as int].distance as int,
            t[v as int].distance as int,
            p as int,
            t.len() as int,
        );
        lemma_walk_back_reaches_source(w, s, t, p, (fuel - 1) as nat);
        let r = walk_back(t, s, p, (fuel - 1) as nat)->0;
        lemma_walk_extend(w, r, v);
    }
}

/// In a shortest-path tree the record of a node stands at the node's index.
proof fn lemma_tree_records(w: Seq<Seq<u32>>, s: usize, t: Seq<ShortestPathTreeNode>, v: usize)
    requires
        is_shortest_path_tree(w, s, t),
        v < t.len(),
    ensures
        record_index(t, v) == v,
        has_record(t, v),
        record_of(t, v) == t[v as int],
{
    lemma_record_index(t, v);
    assert(t[v as int].to == v);
    if record_index(t, v) < v {
        assert(t[record_index(t, v)].to == record_index(t, v));
    }
}

/// In a shortest-path tree the way back from a node without a distance
/// never meets the source.
proof fn lemma_walk_back_from_unreached(
    w: Seq<Seq<u32>>,
    s: usize,
    t: Seq<ShortestPathTreeNode>,
    v: usize,
    fuel: nat,
)
    requires
        is_shortest_path_tree(w, s, t),
        v < t.len(),
        v != s,
        t[v as int].distance == u32::MAX,
    ensures
        walk_back(t, s, v, fuel) is None,
        walk_back_resolves(t, s, v, fuel),
    decreases fuel,
{
    if fuel > 0 {
        lemma_tree_records(w, s, t, v);
        assert(is_chosen_previous(w, s, t, v as int));
        lemma_walk_back_from_unreached(w, s, t, v, (fuel - 1) as nat);
    }
}

/// Every node of a shortest-path tree can be asked for its path.
pub proof fn lemma_tree_paths_resolve(
    w: Seq<Seq<u32>>,
    s: usize,
    t: Seq<ShortestPathTreeNode>,
    to: usize,
)
    requires
        is_shortest_path_tree(w, s, t),
        to < t.len(),
    ensures
        has_record(t, to),
        walk_back_resolves(t, record_of(t, to).from, record_of(t, to).previous, t.len()),
{
    lemma_tree_records(w, s, t, to);
    assert(is_chosen_previous(w, s, t, to as int));
    let p = t[to as int].previous;
    if to == s || t[to as int].distance == u32::MAX {
        if to != s {
            lemma_walk_back_from_unreached(w, s, t, to, t.len());
        }
    } else {
        assert(is_last_step(w, t, p as int, to as int));
        lemma_nearer_count_grows(t, t[p as int].distance as int, t[p as int].distance as int, 0, t.len() as int);
        lemma_walk_back_reaches_source(w, s, t, p, t.len());
    }
}

/// Path and tree agree: for a node with a distance, the path built from the
/// tree starts at the source, ends with the node's predecessor and the node,
/// and its steps add up to the node's distance. (For the source itself the
/// path is the source twice, so the sum is the weight of the cell that joins
/// the source to itself.)
pub proof fn lemma_path_matches_tree(
    w: Seq<Seq<u32>>,
    s: usize,
    t: Seq<ShortestPathTreeNode>,
    to: usize,
)
    requires
        is_shortest_path_tree(w, s, t),
        to < t.len(),
        t[to as int].distance < u32::MAX,
    ensures
        path_from_tree(t, to) is Some,
        ({
            let path = path_from_tree(t, to)->0;
            &&& path.from == s
            &&& path.to == to
            &&& path.distance == t[to as int].distance
            &&& path.path.len() >= 2
            &&& path.path[0] == s
            &&& path.path[path.path.len() - 2] == t[to as int].previous
            &&& path.path[path.path.len() - 1] == to
            &&& to != s ==> is_walk(w, path.path)
            &&& to != s || w[s as int][s as int] == 0 ==> walk_weight(w, path.path)
                == t[to as int].distance
        }),
{
    lemma_tree_records(w, s, t, to);
    assert(is_chosen_previous(w, s, t, to as int));
    assert(is_distance(w, s, s, t[s as int].distance));
    assert(is_walk_between(w, seq![s], s, s));
    assert(walk_weight(w, seq![s]) == 0);
    let p = t[to as int].previous;
    if to == s {
        let path = seq![s].push(s);
        assert(path.drop_last() =~= seq![s]);
    } else {
        assert(is_last_step(w, t, p as int, to as int));
        lemma_nearer_count_grows(t, t[p as int].distance as int, t[p as int].distance as int, 0, t.len() as int);
        lemma_walk_back_reaches_source(w, s, t, p, t.len());
        let r = walk_back(t, s, p, t.len())->0;
        lemma_walk_extend(w, r, to);
    }
}

/// For a node without a distance the tree holds no path.
pub proof fn lemma_no_path_to_unreached(
    w: Seq<Seq<u32>>,
    s: usize,
    t: Seq<ShortestPathTreeNode>,
    to: usize,
)
    requires
        is_shortest_path_tree(w, s, t),
        to < t.len(),
        t[to as int].distance == u32::MAX,
    ensures
        path_from_tree(t, to) is None,
{
    lemma_tree_records(w, s, t, to);
    assert(is_chosen_previous(w, s, t, to as int));
    assert(is_distance(w, s, s, t[s as int].distance));
    assert(is_walk_between(w, seq![s], s, s));
    assert(walk_weight(w, seq![s]) == 0);
    lemma_walk_back_from_unreached(w, s, t, to, t.len());
}

/// The position of the first named record from `i` on that describes
/// `node`, or the length of the tree when there is none.
pub open spec fn named_record_index_from(t: Seq<NamedNodeView>, node: Seq<char>, i: int) -> int
    decreases t.len() - i,
{
    if i < 0 || i >= t.len() {
        t.len() as int
    } else if t[i].to == node {
        i
    } else {
        named_record_index_from(t, node, i + 1)
    }
}

/// The position of the first named record that describes `node`, or the
/// length of the tree when there is none.
pub open spec fn named_record_index(t: Seq<NamedNodeView>, node: Seq<char>) -> int {
    named_record_index_from(t, node, 0)
}

/// Some named record describes `node`.
pub open spec fn named_has_record(t: Seq<NamedNodeView>, node: Seq<char>) -> bool {
    named_record_index(t, node) < t.len()
}

/// The first named record that describes `node`.
pub open spec fn named_record_of(t: Seq<NamedNodeView>, node: Seq<char>) -> NamedNodeView {
    t[named_record_index(t, node)]
}

/// The names from `from` to `node`, found by following `previous` from
/// `node` back until `from` is met. `None` when `from` is not met within
/// `fuel` steps.
pub open spec fn named_walk_back(
    t: Seq<NamedNodeView>,
    from: Seq<char>,
    node: Seq<char>,
    fuel: nat,
) -> Option<Seq<Seq<char>>>
    decreases fuel,
{
    if node == from {
        Some(seq![from])
    } else if fuel == 0 {
        None
    } else {
        match named_walk_back(t, from, named_record_of(t, node).previous, (fuel - 1) as nat) {
            Some(p) => Some(p.push(node)),
            None => None,
        }
    }
}

/// Every name met within `fuel` steps on the way back from `node` to `from`
/// has a record.
pub open spec fn named_walk_back_resolves(
    t: Seq<NamedNodeView>,
    from: Seq<char>,
    node: Seq<char>,
    fuel: nat,
) -> bool
    decreases fuel,
{
    node == from || fuel == 0 || (named_has_record(t, node) && named_walk_back_resolves(
        t,
        from,
        named_record_of(t, node).previous,
        (fuel - 1) as nat,
    ))
}

/// The path that the named tree holds for `to`; see [`path_from_tree`].
pub open spec fn named_path_from_tree(t: Seq<NamedNodeView>, to: Seq<char>) -> Option<
    NamedPathView,
> {
    let record = named_record_of(t, to);
    match named_walk_back(t, record.from, record.previous, t.len()) {
        Some(p) => Some(
            NamedPathView {
                from: record.from,
                to: to,
                distance: record.distance,
                path: p.push(to),
            },
        ),
        None => None,
    }
}

proof fn lemma_named_record_index_from(t: Seq<NamedNodeView>, node: Seq<char>, i: int)
    requires
        0 <= i <= t.len(),
    ensures
        i <= named_record_index_from(t, node, i) <= t.len(),
        named_record_index_from(t, node, i) < t.len() ==> t[named_record_index_from(t, node, i)].to
            == node,
        forall|j: int| i <= j < named_record_index_from(t, node, i) ==> (#[trigger] t[j]).to != node,
    decreases t.len() - i,
{
    if i < t.len() && t[i].to != node {
        lemma_named_record_index_from(t, node, i + 1);
    }
}

/// The first named record of a node is a record of that node, and none
/// before it is.
pub proof fn lemma_named_record_index(t: Seq<NamedNodeView>, node: Seq<char>)
    ensures
        0 <= named_record_index(t, node) <= t.len(),
        named_has_record(t, node) ==> named_record_of(t, node).to == node,
        forall|j: int| 0 <= j < named_record_index(t, node) ==> (#[trigger] t[j]).to != node,
        named_has_record(t, node) <==> exists|j: int|
            0 <= j < t.len() && (#[trigger] t[j]).to == node,
{
    lemma_named_record_index_from(t, node, 0);
    if exists|j: int| 0 <= j < t.len() && (#[trigger] t[j]).to == node {
        let j = choose|j: int| 0 <= j < t.len() && (#[trigger] t[j]).to == node;
        assert(t[j].to == node);
    }
}

/// The way back from `node` to `from` in a named tree, where it is found,
/// starts with `from` and ends with `node`, and has no more steps than the
/// fuel allows.
pub proof fn lemma_named_walk_back_ends(
    t: Seq<NamedNodeView>,
    from: Seq<char>,
    node: Seq<char>,
    fuel: nat,
)
    ensures
        named_walk_back(t, from, node, fuel) matches Some(p) ==> 1 <= p.len() <= fuel + 1 && p[0]
            == from && p.last() == node,
    decreases fuel,
{
    if node != from && fuel > 0 {
        lemma_named_walk_back_ends(t, from, named_record_of(t, node).previous, (fuel - 1) as nat);
    }
}

/// The path that a named tree holds for `to` leads from the source of the
/// record of `to` to `to` itself, and counts two nodes at least.
pub proof fn lemma_named_path_from_tree_ends(t: Seq<NamedNodeView>, to: Seq<char>)
    ensures
        named_path_from_tree(t, to) matches Some(p) ==> {
            &&& p.from == named_record_of(t, to).from
            &&& p.to == to
            &&& p.distance == named_record_of(t, to).distance
            &&& 2 <= p.path.len() <= t.len() + 2
            &&& p.path[0] == p.from
            &&& p.path[p.path.len() - 1] == to
        },
{
    let record = named_record_of(t, to);
    lemma_named_walk_back_ends(t, record.from, record.previous, t.len());
}

/// The names of a sequence of nodes.
pub open spec fn name_all(names: Seq<Seq<char>>, nodes: Seq<usize>) -> Seq<Seq<char>> {
    Seq::new(nodes.len(), |k: int| names[nodes[k] as int])
}

/// Every record stands at the index of the node that it describes, and
/// names nodes of the tree only.
pub open spec fn index_aligned(t: Seq<ShortestPathTreeNode>) -> bool {
    forall|v: int|
        0 <= v < t.len() ==> (#[trigger] t[v]).to == v && t[v].previous < t.len() && t[v].from
            < t.len()
}

/// A shortest-path tree is index-aligned.
pub proof fn lemma_tree_index_aligned(w: Seq<Seq<u32>>, s: usize, t: Seq<ShortestPathTreeNode>)
    requires
        is_shortest_path_tree(w, s, t),
    ensures
        index_aligned(t),
{
    assert forall|v: int| 0 <= v < t.len() implies (#[trigger] t[v]).to == v && t[v].previous
        < t.len() && t[v].from < t.len() by {
        assert(is_chosen_previous(w, s, t, v));
        if !(v == s || t[v].distance == u32::MAX) {
            assert(is_last_step(w, t, t[v].previous as int, v));
        }
    }
}

proof fn lemma_aligned_records(names: Seq<Seq<char>>, t: Seq<ShortestPathTreeNode>, v: usize)
    requires
        names.no_duplicates(),
        names.len() == t.len(),
        index_aligned(t),
        v < t.len(),
    ensures
        named_tree(names, t) is Some,
        named_tree(names, t)->0.len() == t.len(),
        record_index(t, v) == v,
        named_record_index(named_tree(names, t)->0, names[v as int]) == v,
        named_tree(names, t)->0[v as int] == named_node(names, t[v as int])->0,
        named_node(names, t[v as int]) is Some,
{
    assert forall|i: int| 0 <= i < t.len() implies (#[trigger] named_node(names, t[i])) is Some by {
        assert(t[i].to == i);
    }
    let named = named_tree(names, t)->0;
    lemma_record_index(t, v);
    assert(t[v as int].to == v);
    if record_index(t, v) < v {
        assert(t[record_index(t, v)].to == record_index(t, v));
    }
    lemma_named_record_index(named, names[v as int]);
    assert(named[v as int].to == names[v as int]);
    let f = named_record_index(named, names[v as int]);
    if f < v {
        assert(named[f].to == names[t[f].to as int]);
        assert(t[f].to == f);
    }
}

/// Under a table without repetition, the walk back in the named tree is the
/// walk back in the indexed tree, name for index.
proof fn lemma_named_walk_back(
    names: Seq<Seq<char>>,
    t: Seq<ShortestPathTreeNode>,
    from: usize,
    v: usize,
    fuel: nat,
)
    requires
        names.no_duplicates(),
        names.len() == t.len(),
        index_aligned(t),
        from < t.len(),
        v < t.len(),
    ensures
        named_tree(names, t) is Some,
        walk_back_resolves(t, from, v, fuel),
        named_walk_back_resolves(named_tree(names, t)->0, names[from as int], names[v as int], fuel),
        named_walk_back(named_tree(names, t)->0, names[from as int], names[v as int], fuel)
            == match walk_back(t, from, v, fuel) {
            Some(p) => Some(name_all(names, p)),
            None => None,
        },
        walk_back(t, from, v, fuel) matches Some(p) ==> all_indexed(names, p),
    decreases fuel,
{
    lemma_aligned_records(names, t, v);
    let named = named_tree(names, t)->0;
    if v == from {
        assert(name_all(names, seq![from]) =~= seq![names[from as int]]);
    } else if fuel > 0 {
        let p = t[v as int].previous;
        lemma_named_walk_back(names, t, from, p, (fuel - 1) as nat);
        assert(named_record_of(named, names[v as int]).previous == names[p as int]);
        match walk_back(t, from, p, (fuel - 1) as nat) {
            Some(r) => {
                assert(name_all(names, r.push(v)) =~= name_all(names, r).push(names[v as int]));
            },
            None => {},
        }
    }
}

/// Under a table without repetition, the path that the named tree holds for
/// a node is the path that the indexed tree holds for it, name for index.
pub proof fn lemma_named_path_from_tree(
    names: Seq<Seq<char>>,
    t: Seq<ShortestPathTreeNode>,
    to: usize,
)
    requires
        names.no_duplicates(),
        names.len() == t.len(),
        index_aligned(t),
        to < t.len(),
    ensures
        named_tree(names, t) is Some,
        has_record(t, to),
        walk_back_resolves(t, record_of(t, to).from, record_of(t, to).previous, t.len()),
        named_has_record(named_tree(names, t)->0, names[to as int]),
        named_walk_back_resolves(
            named_tree(names, t)->0,
            named_record_of(named_tree(names, t)->0, names[to as int]).from,
            named_record_of(named_tree(names, t)->0, names[to as int]).previous,
            t.len(),
        ),
        named_path_from_tree(named_tree(names, t)->0, names[to as int]) == match path_from_tree(
            t,
            to,
        ) {
            Some(p) => named_path(names, p),
            None => None,
        },
        path_from_tree(t, to) matches Some(p) ==> named_path(names, p) is Some,
{
    lemma_aligned_records(names, t, to);
    let named = named_tree(names, t)->0;
    let record = t[to as int];
    lemma_named_walk_back(names, t, record.from, record.previous, t.len());
    match walk_back(t, record.from, record.previous, t.len()) {
        Some(r) => {
            let p = path_from_tree(t, to)->0;
            assert(all_indexed(names, p.path));
            assert(name_all(names, r.push(to)) =~= name_all(names, r).push(names[to as int]));
            assert(named_path(names, p)->0.path =~= name_all(names, r.push(to)));
        },
        None => {},
    }
}

/// The node met after `k` steps back from `node`.
pub open spec fn step_back(t: Seq<ShortestPathTreeNode>, node: usize, k: nat) -> usize
    decreases k,
{
    if k == 0 {
        node
    } else {
        step_back(t, record_of(t, node).previous, (k - 1) as nat)
    }
}

proof fn lemma_step_back_add(t: Seq<ShortestPathTreeNode>, node: usize, a: nat, b: nat)
    ensures
        step_back(t, node, a + b) == step_back(t, step_back(t, node, a), b),
    decreases a,
{
    if a > 0 {
        lemma_step_back_add(t, record_of(t, node).previous, (a - 1) as nat, b);
    }
}

/// Where the way back is found, some number of steps within the fuel meets
/// the source for the first time.
proof fn lemma_walk_back_hit(t: Seq<ShortestPathTreeNode>, from: usize, node: usize, fuel: nat) -> (k:
    nat)
    requires
        walk_back(t, from, node, fuel) is Some,
    ensures
        k <= fuel,
        step_back(t, node, k) == from,
        forall|j: nat| j < k ==> #[trigger] step_back(t, node, j) != from,
    decreases fuel,
{
    if node == from {
        0
    } else {
        let previous = record_of(t, node).previous;
        let k1 = lemma_walk_back_hit(t, from, previous, (fuel - 1) as nat);
        assert forall|j: nat| j < k1 + 1 implies #[trigger] step_back(t, node, j) != from by {
            if j > 0 {
                assert(step_back(t, node, j) == step_back(t, previous, (j - 1) as nat));
            }
        }
        k1 + 1
    }
}

proof fn lemma_walk_back_from_hit(
    t: Seq<ShortestPathTreeNode>,
    from: usize,
    node: usize,
    fuel: nat,
    k: nat,
)
    requires
        k <= fuel,
        step_back(t, node, k) == from,
    ensures
        walk_back(t, from, node, fuel) is Some,
    decreases fuel,
{
    if node != from {
        lemma_walk_back_from_hit(
            t,
            from,
            record_of(t, node).previous,
            (fuel - 1) as nat,
            (k - 1) as nat,
        );
    }
}

proof fn lemma_walk_back_same(
    t: Seq<ShortestPathTreeNode>,
    from: usize,
    node: usize,
    fuel1: nat,
    fuel2: nat,
)
    requires
        walk_back(t, from, node, fuel1) is Some,
        walk_back(t, from, node, fuel2) is Some,
    ensures
        walk_back(t, from, node, fuel1) == walk_back(t, from, node, fuel2),
    decreases fuel1,
{
    if node != from {
        lemma_walk_back_same(
            t,
            from,
            record_of(t, node).previous,
            (fuel1 - 1) as nat,
            (fuel2 - 1) as nat,
        );
    }
}

proof fn lemma_resolved_steps(
    t: Seq<ShortestPathTreeNode>,
    from: usize,
    node: usize,
    fuel: nat,
    k: nat,
    j: nat,
)
    requires
        walk_back_resolves(t, from, node, fuel),
        k <= fuel,
        j < k,
        forall|i: nat| i < k ==> #[trigger] step_back(t, node, i) != from,
    ensures
        has_record(t, step_back(t, node, j)),
    decreases j,
{
    assert(step_back(t, node, 0) != from);
    if j > 0 {
        let previous = record_of(t, node).previous;
        assert forall|i: nat| i < k - 1 implies #[trigger] step_back(t, previous, i) != from by {
            assert(step_back(t, node, i + 1) == step_back(t, previous, i));
        }
        lemma_resolved_steps(t, from, previous, (fuel - 1) as nat, (k - 1) as nat, (j - 1) as nat);
    }
}

proof fn lemma_pigeonhole(positions: Seq<int>, n: nat)
    requires
        positions.no_duplicates(),
        forall|i: int| 0 <= i < positions.len() ==> 0 <= #[trigger] positions[i] < n,
    ensures
        positions.len() <= n,
{
    positions.unique_seq_to_set();
    let range = vstd::set_lib::set_int_range(0, n as int);
    vstd::set_lib::lemma_int_range(0, n as int);
    assert(positions.to_set().subset_of(range)) by {
        assert forall|x: int| positions.to_set().contains(x) implies range.contains(x) by {
            let i = choose|i: int| 0 <= i < positions.len() && positions[i] == x;
            assert(0 <= positions[i] < n);
        }
    }
    vstd::set_lib::lemma_len_subset(positions.to_set(), range);
}

/// Where the predecessors of a node lead to the source at all, they do so
/// within as many steps as the tree has records: more fuel than that finds
/// no way back that the length of the tree does not find.
pub proof fn lemma_walk_back_within_len(
    t: Seq<ShortestPathTreeNode>,
    from: usize,
    node: usize,
    fuel: nat,
)
    requires
        walk_back_resolves(t, from, node, fuel),
        walk_back(t, from, node, fuel) is Some,
    ensures
        walk_back(t, from, node, t.len()) == walk_back(t, from, node, fuel),
{
    let k = lemma_walk_back_hit(t, from, node, fuel);
    let positions = Seq::new(k, |i: int| record_index(t, step_back(t, node, i as nat)));
    assert forall|i: int| 0 <= i < positions.len() implies 0 <= #[trigger] positions[i]
        < t.len() by {
        lemma_resolved_steps(t, from, node, fuel, k, i as nat);
        lemma_record_index(t, step_back(t, node, i as nat));
    }
    assert forall|i: int, j: int|
        0 <= i < positions.len() && 0 <= j < positions.len() && i != j implies positions[i]
        != positions[j] by {
        if positions[i] == positions[j] {
            let (a, b) = if i < j {
                (i as nat, j as nat)
            } else {
                (j as nat, i as nat)
            };
            lemma_resolved_steps(t, from, node, fuel, k, a);
            lemma_resolved_steps(t, from, node, fuel, k, b);
            lemma_record_index(t, step_back(t, node, a));
            lemma_record_index(t, step_back(t, node, b));
            assert(step_back(t, node, a) == step_back(t, node, b));
            let rest = (k - b) as nat;
            lemma_step_back_add(t, node, a, rest);
            lemma_step_back_add(t, node, b, rest);
            assert(step_back(t, node, a + rest) == from);
            assert(a + rest < k);
        }
    }
    lemma_pigeonhole(positions, t.len());
    lemma_walk_back_from_hit(t, from, node, t.len(), k);
    lemma_walk_back_same(t, from, node, fuel, t.len());
}

/// Where the tree holds no path for `to`, although it has the records that
/// the walk back asks for, the predecessors of `to` never lead to the
/// source, however long they are followed.
pub proof fn lemma_no_path_ever(t: Seq<ShortestPathTreeNode>, to: usize, fuel: nat)
    requires
        path_from_tree(t, to) is None,
        walk_back_resolves(t, record_of(t, to).from, record_of(t, to).previous, fuel),
    ensures
        walk_back(t, record_of(t, to).from, record_of(t, to).previous, fuel) is None,
{
    let record = record_of(t, to);
    if walk_back(t, record.from, record.previous, fuel) is Some {
        lemma_walk_back_within_len(t, record.from, record.previous, fuel);
    }
}

} // verus!
