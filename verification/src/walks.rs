//! Walks in a weighted graph given by its adjacency matrix, their weights,
//! and what it means for a table of records to be the shortest-path tree of
//! a source node.

use crate::graph_type::ShortestPathTreeNode;
use vstd::prelude::*;

verus! {

/// The weights of an adjacency matrix, row by row.
pub open spec fn matrix_weights(m: Seq<Vec<u32>>) -> Seq<Seq<u32>> {
    Seq::new(m.len(), |i: int| m[i]@)
}

/// Every row is as long as the matrix has rows.
pub open spec fn is_square(w: Seq<Seq<u32>>) -> bool {
    forall|i: int| 0 <= i < w.len() ==> (#[trigger] w[i]).len() == w.len()
}

/// `w[i][j] == w[j][i]` for every pair of nodes.
pub open spec fn is_symmetric(w: Seq<Seq<u32>>) -> bool {
    forall|i: int, j: int|
        0 <= i < w.len() && 0 <= j < w.len() ==> #[trigger] w[i][j] == w[j][i]
}

/// A walk is a non-empty sequence of nodes in which every step follows an
/// edge, that is a cell of the matrix with a positive weight.
pub open spec fn is_walk(w: Seq<Seq<u32>>, p: Seq<usize>) -> bool {
    &&& p.len() > 0
    &&& forall|k: int| 0 <= k < p.len() ==> (#[trigger] p[k]) < w.len()
    &&& forall|k: int| 0 <= k < p.len() - 1 ==> w[p[k] as int][#[trigger] p[k + 1] as int] > 0
}

/// The sum of the cells that the steps of `p` pass through.
pub open spec fn walk_weight(w: Seq<Seq<u32>>, p: Seq<usize>) -> int
    decreases p.len(),
{
    if p.len() <= 1 {
        0
    } else {
        walk_weight(w, p.drop_last()) + w[p[p.len() - 2] as int][p[p.len() - 1] as int]
    }
}

/// `p` is a walk from `s` to `v`.
pub open spec fn is_walk_between(w: Seq<Seq<u32>>, p: Seq<usize>, s: usize, v: usize) -> bool {
    is_walk(w, p) && p[0] == s && p.last() == v
}

/// Some walk from `s` to `v` has total weight `d`.
pub open spec fn reachable_with(w: Seq<Seq<u32>>, s: usize, v: usize, d: int) -> bool {
    exists|p: Seq<usize>| #[trigger] is_walk_between(w, p, s, v) && walk_weight(w, p) == d
}

/// No walk from `s` to `v` has a total weight below `d`.
pub open spec fn no_walk_below(w: Seq<Seq<u32>>, s: usize, v: usize, d: int) -> bool {
    forall|p: Seq<usize>| #[trigger] is_walk_between(w, p, s, v) ==> walk_weight(w, p) >= d
}

/// `d` is the distance of `v` from `s` as a record stores it: the least
/// total weight of a walk from `s` to `v` where that is below `u32::MAX`,
/// and `u32::MAX` where no walk is that short (in particular where there is
/// none at all).
pub open spec fn is_distance(w: Seq<Seq<u32>>, s: usize, v: usize, d: u32) -> bool {
    if d < u32::MAX {
        reachable_with(w, s, v, d as int) && no_walk_below(w, s, v, d as int)
    } else {
        no_walk_below(w, s, v, u32::MAX as int)
    }
}

/// Node `a` comes before node `b` when the records are ordered by distance
/// and, among equal distances, by index.
pub open spec fn settles_before(t: Seq<ShortestPathTreeNode>, a: int, b: int) -> bool {
    t[a].distance < t[b].distance || (t[a].distance == t[b].distance && a < b)
}

/// `u` is a last step towards `v`: an edge leads from `u` to `v` and closes
/// a walk of the weight recorded for `v`.
pub open spec fn is_last_step(w: Seq<Seq<u32>>, t: Seq<ShortestPathTreeNode>, u: int, v: int) -> bool {
    &&& 0 <= u < t.len()
    &&& w[u][v] > 0
    &&& t[u].distance + w[u][v] == t[v].distance
}

/// The `previous` field of record `v`: the node itself for the source and
/// for a node without a recorded distance, and otherwise, among the last
/// steps towards `v`, the one that comes first by distance and index.
pub open spec fn is_chosen_previous(
    w: Seq<Seq<u32>>,
    s: usize,
    t: Seq<ShortestPathTreeNode>,
    v: int,
) -> bool {
    let p = t[v].previous as int;
    if v == s || t[v].distance == u32::MAX {
        p == v
    } else {
        &&& is_last_step(w, t, p, v)
        &&& forall|u: int| #[trigger] is_last_step(w, t, u, v) && u != p ==> settles_before(t, p, u)
    }
}

/// `t` is the shortest-path tree of source `s` in the graph with weights
/// `w`: one record per node, in index order, with the node's distance and
/// its chosen predecessor.
pub open spec fn is_shortest_path_tree(
    w: Seq<Seq<u32>>,
    s: usize,
    t: Seq<ShortestPathTreeNode>,
) -> bool {
    &&& s < w.len()
    &&& t.len() == w.len()
    &&& forall|v: int|
        0 <= v < t.len() ==> {
            &&& (#[trigger] t[v]).from == s
            &&& t[v].to == v
            &&& is_distance(w, s, v as usize, t[v].distance)
            &&& is_chosen_previous(w, s, t, v)
        }
}

/// The shortest-path tree of source `s` in the graph with weights `w`.
pub open spec fn tree_of(w: Seq<Seq<u32>>, s: usize) -> Seq<ShortestPathTreeNode> {
    choose|t: Seq<ShortestPathTreeNode>| is_shortest_path_tree(w, s, t)
}

/// A walk that ends in `u` and an edge from `u` to `v` make a walk to `v`.
pub proof fn lemma_walk_extend(w: Seq<Seq<u32>>, p: Seq<usize>, v: usize)
    requires
        is_walk(w, p),
        v < w.len(),
        w[p.last() as int][v as int] > 0,
    ensures
        is_walk(w, p.push(v)),
        walk_weight(w, p.push(v)) == walk_weight(w, p) + w[p.last() as int][v as int],
        p.push(v)[0] == p[0],
        p.push(v).last() == v,
{
    let q = p.push(v);
    assert(q.drop_last() =~= p);
    assert forall|k: int| 0 <= k < q.len() - 1 implies w[q[k] as int][#[trigger] q[k + 1] as int] > 0 by {
        if k < p.len() - 1 {
            assert(q[k + 1] == p[k + 1]);
        }
    }
}

/// Reaching `u` with weight `d` and an edge from `u` to `v` reach `v` with
/// the weight of the edge added.
pub proof fn lemma_reachable_step(w: Seq<Seq<u32>>, s: usize, u: usize, v: usize, d: int)
    requires
        reachable_with(w, s, u, d),
        v < w.len(),
        u < w.len(),
        w[u as int][v as int] > 0,
    ensures
        reachable_with(w, s, v, d + w[u as int][v as int]),
{
    let p = choose|p: Seq<usize>| #[trigger] is_walk_between(w, p, s, u) && walk_weight(w, p) == d;
    lemma_walk_extend(w, p, v);
    assert(is_walk_between(w, p.push(v), s, v));
}

/// The source reaches itself with weight 0.
pub proof fn lemma_reachable_source(w: Seq<Seq<u32>>, s: usize)
    requires
        s < w.len(),
    ensures
        reachable_with(w, s, s, 0),
{
    let p = seq![s];
    assert(is_walk_between(w, p, s, s));
}

/// A potential that is at most 0 at the source and rises along no edge by
/// more than the edge's weight bounds the weight of every walk from below.
pub proof fn lemma_potential_bounds_walk(
    w: Seq<Seq<u32>>,
    s: usize,
    pot: Seq<int>,
    p: Seq<usize>,
)
    requires
        pot.len() == w.len(),
        is_walk(w, p),
        p[0] == s,
        pot[s as int] <= 0,
        forall|x: int, y: int|
            0 <= x < w.len() && 0 <= y < w.len() && #[trigger] w[x][y] > 0 ==> pot[y] <= pot[x]
                + w[x][y],
    ensures
        walk_weight(w, p) >= pot[p.last() as int],
    decreases p.len(),
{
    if p.len() > 1 {
        let q = p.drop_last();
        assert(is_walk(w, q)) by {
            assert forall|k: int| 0 <= k < q.len() - 1 implies w[q[k] as int][#[trigger] q[k
                + 1] as int] > 0 by {
                assert(q[k + 1] == p[k + 1]);
            }
        }
        lemma_potential_bounds_walk(w, s, pot, q);
        let x = p[p.len() - 2] as int;
        let y = p[p.len() - 1] as int;
        assert(w[x][y] > 0) by {
            assert(p[(p.len() - 2) + 1] == p[p.len() - 1]);
        }
    }
}

/// A node has one distance only.
pub proof fn lemma_distance_unique(w: Seq<Seq<u32>>, s: usize, v: usize, d1: u32, d2: u32)
    requires
        is_distance(w, s, v, d1),
        is_distance(w, s, v, d2),
    ensures
        d1 == d2,
{
    if d1 < u32::MAX {
        let p = choose|p: Seq<usize>| #[trigger]
            is_walk_between(w, p, s, v) && walk_weight(w, p) == d1 as int;
        assert(is_walk_between(w, p, s, v));
    }
    if d2 < u32::MAX {
        let q = choose|q: Seq<usize>| #[trigger]
            is_walk_between(w, q, s, v) && walk_weight(w, q) == d2 as int;
        assert(is_walk_between(w, q, s, v));
    }
}

/// Determinism: a graph and a source have one shortest-path tree, so two
/// runs on the same input give the same distances and the same predecessors.
pub proof fn lemma_tree_unique(
    w: Seq<Seq<u32>>,
    s: usize,
    t1: Seq<ShortestPathTreeNode>,
    t2: Seq<ShortestPathTreeNode>,
)
    requires
        is_shortest_path_tree(w, s, t1),
        is_shortest_path_tree(w, s, t2),
    ensures
        t1 == t2,
{
    assert forall|v: int| 0 <= v < t1.len() implies (#[trigger] t1[v]).distance == t2[v].distance by {
        lemma_distance_unique(w, s, v as usize, t1[v].distance, t2[v].distance);
    }
    assert forall|v: int| 0 <= v < t1.len() implies #[trigger] t1[v] == t2[v] by {
        assert(t1[v].distance == t2[v].distance);
        assert(is_chosen_previous(w, s, t1, v));
        assert(is_chosen_previous(w, s, t2, v));
        if !(v == s || t1[v].distance == u32::MAX) {
            let first = t1[v].previous as int;
            let second = t2[v].previous as int;
            assert(t1[first].distance == t2[first].distance);
            assert(t1[second].distance == t2[second].distance);
            assert(is_last_step(w, t2, first, v));
            assert(is_last_step(w, t1, second, v));
            if first != second {
                assert(settles_before(t1, first, second));
                assert(settles_before(t2, second, first));
            }
        }
    }
    assert(t1 =~= t2);
}

/// A table of records that is a shortest-path tree is the one.
pub proof fn lemma_tree_of(w: Seq<Seq<u32>>, s: usize, t: Seq<ShortestPathTreeNode>)
    requires
        is_shortest_path_tree(w, s, t),
    ensures
        t == tree_of(w, s),
{
    lemma_tree_unique(w, s, t, tree_of(w, s));
}

/// Completeness: the tree has exactly one record per node of the graph, and
/// no two records describe the same node.
pub proof fn lemma_tree_complete(w: Seq<Seq<u32>>, s: usize, t: Seq<ShortestPathTreeNode>)
    requires
        is_shortest_path_tree(w, s, t),
    ensures
        t.len() == w.len(),
        forall|v: int| 0 <= v < w.len() ==> (#[trigger] t[v]).to == v,
        forall|i: int, j: int|
            0 <= i < t.len() && 0 <= j < t.len() && (#[trigger] t[i]).to == (#[trigger] t[j]).to
                ==> i == j,
{
}

/// The record of the source has distance 0 and the source as predecessor.
pub proof fn lemma_source_record(w: Seq<Seq<u32>>, s: usize, t: Seq<ShortestPathTreeNode>)
    requires
        is_shortest_path_tree(w, s, t),
    ensures
        t[s as int].from == s,
        t[s as int].to == s,
        t[s as int].distance == 0,
        t[s as int].previous == s,
{
    assert(is_distance(w, s, s, t[s as int].distance));
    assert(is_chosen_previous(w, s, t, s as int));
    assert(is_walk_between(w, seq![s], s, s));
    assert(walk_weight(w, seq![s]) == 0);
}

/// Optimality along the tree: no record lies farther than its predecessor
/// plus the weight between the two, and a node with a distance other than
/// the source lies exactly that far.
pub proof fn lemma_previous_closes_distance(
    w: Seq<Seq<u32>>,
    s: usize,
    t: Seq<ShortestPathTreeNode>,
    v: int,
)
    requires
        is_shortest_path_tree(w, s, t),
        0 <= v < t.len(),
    ensures
        t[v].previous < t.len(),
        t[v].distance <= t[t[v].previous as int].distance + w[t[v].previous as int][v],
        (v != s && t[v].distance < u32::MAX) || w[v][v] == 0 ==> t[v].distance == t[t[v].previous as int].distance
            + w[t[v].previous as int][v],
{
    assert(is_chosen_previous(w, s, t, v));
}

/// Optimality along every edge: an edge from `u` to `v` cannot shorten the
/// way to `v`.
pub proof fn lemma_triangle_inequality(
    w: Seq<Seq<u32>>,
    s: usize,
    t: Seq<ShortestPathTreeNode>,
    u: int,
    v: int,
)
    requires
        is_shortest_path_tree(w, s, t),
        0 <= u < t.len(),
        0 <= v < t.len(),
        w[u][v] > 0,
    ensures
        t[v].distance <= t[u].distance + w[u][v],
{
    assert(is_distance(w, s, u as usize, t[u].distance));
    assert(is_distance(w, s, v as usize, t[v].distance));
    if t[u].distance < u32::MAX {
        lemma_reachable_step(w, s, u as usize, v as usize, t[u].distance as int);
        let p = choose|p: Seq<usize>| #[trigger]
            is_walk_between(w, p, s, v as usize) && walk_weight(w, p) == t[u].distance
                + w[u][v];
        assert(is_walk_between(w, p, s, v as usize));
    }
}

/// The local conditions of a shortest-path tree: the source has distance 0,
/// every record has its chosen predecessor, and no edge leads to a node by a
/// shorter way than the node's distance.
pub open spec fn is_locally_optimal(
    w: Seq<Seq<u32>>,
    s: usize,
    t: Seq<ShortestPathTreeNode>,
) -> bool {
    &&& s < w.len()
    &&& t.len() == w.len()
    &&& t[s as int].distance == 0
    &&& forall|v: int|
        0 <= v < t.len() ==> {
            &&& (#[trigger] t[v]).from == s
            &&& t[v].to == v
            &&& is_chosen_previous(w, s, t, v)
        }
    &&& forall|u: int, v: int|
        0 <= u < t.len() && 0 <= v < t.len() && #[trigger] w[u][v] > 0 ==> t[v].distance
            <= t[u].distance + w[u][v]
}

proof fn lemma_locally_optimal_reaches(
    w: Seq<Seq<u32>>,
    s: usize,
    t: Seq<ShortestPathTreeNode>,
    v: int,
)
    requires
        is_locally_optimal(w, s, t),
        0 <= v < t.len(),
        t[v].distance < u32::MAX,
    ensures
        reachable_with(w, s, v as usize, t[v].distance as int),
    decreases t[v].distance,
{
    if v == s {
        lemma_reachable_source(w, s);
    } else {
        assert(is_chosen_previous(w, s, t, v));
        let p = t[v].previous as int;
        assert(is_last_step(w, t, p, v));
        lemma_locally_optimal_reaches(w, s, t, p);
        lemma_reachable_step(w, s, p as usize, v as usize, t[p].distance as int);
    }
}

/// A certificate of optimality: a table of records that meets the local
/// conditions is the shortest-path tree, and the shortest-path tree meets
/// them.
pub proof fn lemma_locally_optimal_is_tree(
    w: Seq<Seq<u32>>,
    s: usize,
    t: Seq<ShortestPathTreeNode>,
)
    ensures
        is_locally_optimal(w, s, t) <==> is_shortest_path_tree(w, s, t),
{
    if is_locally_optimal(w, s, t) {
        let pot = Seq::new(t.len(), |v: int| t[v].distance as int);
        assert forall|v: int| 0 <= v < t.len() implies is_distance(
            w,
            s,
            v as usize,
            (#[trigger] t[v]).distance,
        ) by {
            assert forall|p: Seq<usize>| #[trigger]
                is_walk_between(w, p, s, v as usize) implies walk_weight(w, p)
                >= t[v].distance by {
                lemma_potential_bounds_walk(w, s, pot, p);
            }
            if t[v].distance < u32::MAX {
                lemma_locally_optimal_reaches(w, s, t, v);
            }
        }
    }
    if is_shortest_path_tree(w, s, t) {
        lemma_source_record(w, s, t);
        assert forall|u: int, v: int|
            0 <= u < t.len() && 0 <= v < t.len() && #[trigger] w[u][v] > 0 implies t[v].distance
            <= t[u].distance + w[u][v] by {
            lemma_triangle_inequality(w, s, t, u, v);
        }
    }
}

} // verus!
