//! The shortest-path tree of a graph given as an adjacency matrix.

use crate::adjacency::{lemma_rows_to_map, map_matrix, row_names, rows_view};
use crate::dijkstra::graph_vector::graph_vector_to_matrix;
use crate::graph_type::{GraphMap, GraphMatrix, ShortestPathTreeNode};
use crate::named_graph::lemma_list_matrix_is_map_matrix;
use crate::names::{is_table_of, names_view};
use crate::walks::{
    is_chosen_previous, is_distance, is_last_step, is_shortest_path_tree, is_square, is_symmetric,
    is_walk_between,
    lemma_potential_bounds_walk, lemma_reachable_source, lemma_reachable_step, matrix_weights,
    no_walk_below, reachable_with, settles_before, walk_weight,
};
use vstd::prelude::*;

verus! {

/// The table has one record per node, and the record of the source is set.
spec fn table_shape(
    w: Seq<Seq<u32>>,
    s: usize,
    t: Seq<ShortestPathTreeNode>,
    visited: Seq<bool>,
) -> bool {
    &&& is_square(w)
    &&& s < w.len()
    &&& t.len() == w.len()
    &&& visited.len() == w.len()
    &&& forall|v: int| 0 <= v < t.len() ==> (#[trigger] t[v]).from == s && t[v].to == v
    &&& t[s as int].distance == 0
    &&& t[s as int].previous == s
}

/// The distance of a visited node is final: no walk is shorter.
spec fn settled(
    w: Seq<Seq<u32>>,
    s: usize,
    t: Seq<ShortestPathTreeNode>,
    visited: Seq<bool>,
) -> bool {
    forall|v: int|
        0 <= v < t.len() && #[trigger] visited[v] ==> t[v].distance < u32::MAX && no_walk_below(
            w,
            s,
            v as usize,
            t[v].distance as int,
        )
}

/// Every distance that is set is the weight of some walk.
spec fn witnessed(w: Seq<Seq<u32>>, s: usize, t: Seq<ShortestPathTreeNode>) -> bool {
    forall|v: int|
        0 <= v < t.len() && (#[trigger] t[v]).distance < u32::MAX ==> reachable_with(
            w,
            s,
            v as usize,
            t[v].distance as int,
        )
}

/// The edges out of the visited nodes are relaxed; of those out of `cur`
/// only the ones into nodes below `k`.
spec fn relaxed(
    w: Seq<Seq<u32>>,
    t: Seq<ShortestPathTreeNode>,
    visited: Seq<bool>,
    cur: int,
    k: int,
) -> bool {
    forall|x: int, y: int|
        0 <= x < t.len() && 0 <= y < t.len() && visited[x] && #[trigger] w[x][y] > 0 && (x != cur
            || y < k) ==> t[y].distance <= t[x].distance + w[x][y]
}

/// Every visited node comes before every other node by distance and index.
spec fn ordered(t: Seq<ShortestPathTreeNode>, visited: Seq<bool>) -> bool {
    forall|x: int, y: int|
        0 <= x < t.len() && 0 <= y < t.len() && #[trigger] visited[x] && !(#[trigger] visited[y])
            ==> settles_before(t, x, y)
}

/// The predecessor of `v` is the first of the visited last steps towards it.
spec fn previous_ok(
    w: Seq<Seq<u32>>,
    s: usize,
    t: Seq<ShortestPathTreeNode>,
    visited: Seq<bool>,
    v: int,
) -> bool {
    let p = t[v].previous as int;
    if v == s || t[v].distance == u32::MAX {
        p == v
    } else {
        &&& is_last_step(w, t, p, v)
        &&& visited[p]
        &&& forall|u: int|
            #[trigger] is_last_step(w, t, u, v) && visited[u] && u != p ==> settles_before(t, p, u)
    }
}

/// What holds of the table between two steps of the search, while the edges
/// out of `cur` into the nodes from `k` on still wait to be relaxed.
spec fn search_state(
    w: Seq<Seq<u32>>,
    s: usize,
    t: Seq<ShortestPathTreeNode>,
    visited: Seq<bool>,
    cur: int,
    k: int,
) -> bool {
    &&& table_shape(w, s, t, visited)
    &&& settled(w, s, t, visited)
    &&& witnessed(w, s, t)
    &&& relaxed(w, t, visited, cur, k)
    &&& ordered(t, visited)
    &&& forall|v: int| 0 <= v < t.len() ==> #[trigger] previous_ok(w, s, t, visited, v)
}

/// `next` is the node to visit next: the first by distance and index of the
/// nodes not yet visited whose distance is set, or the node count when there
/// is none.
spec fn is_next(t: Seq<ShortestPathTreeNode>, visited: Seq<bool>, next: int) -> bool {
    if next == t.len() {
        forall|v: int| 0 <= v < t.len() && !(#[trigger] visited[v]) ==> t[v].distance == u32::MAX
    } else {
        &&& 0 <= next < t.len()
        &&& !visited[next]
        &&& t[next].distance < u32::MAX
        &&& forall|y: int|
            0 <= y < t.len() && !(#[trigger] visited[y]) && y != next ==> settles_before(
                t,
                next,
                y,
            )
    }
}

/// `cur` was the last node to be visited: no visited node lies farther.
spec fn is_latest(t: Seq<ShortestPathTreeNode>, visited: Seq<bool>, s: usize, cur: int) -> bool {
    &&& 0 <= cur < t.len()
    &&& visited[cur]
    &&& visited[s as int]
    &&& forall|x: int|
        0 <= x < t.len() && #[trigger] visited[x] ==> t[x].distance <= t[cur].distance
}

/// The number of nodes not yet visited.
spec fn unvisited(visited: Seq<bool>) -> nat
    decreases visited.len(),
{
    if visited.len() == 0 {
        0
    } else {
        unvisited(visited.drop_last()) + if visited.last() {
            0nat
        } else {
            1nat
        }
    }
}

proof fn lemma_unvisited_update(visited: Seq<bool>, u: int)
    requires
        0 <= u < visited.len(),
        !visited[u],
    ensures
        unvisited(visited.update(u, true)) + 1 == unvisited(visited),
    decreases visited.len(),
{
    let after = visited.update(u, true);
    if u == visited.len() - 1 {
        assert(after.drop_last() =~= visited.drop_last());
    } else {
        assert(after.drop_last() =~= visited.drop_last().update(u, true));
        lemma_unvisited_update(visited.drop_last(), u);
    }
}

/// Visiting the next node keeps the state of the search: its distance is
/// final, because every walk to it leaves the visited nodes somewhere, and
/// is by then no shorter than the distance of the node itself.
proof fn lemma_visit(
    w: Seq<Seq<u32>>,
    s: usize,
    t: Seq<ShortestPathTreeNode>,
    visited: Seq<bool>,
    u: int,
)
    requires
        search_state(w, s, t, visited, -1, 0),
        is_next(t, visited, u),
        u != t.len(),
        visited[s as int] || u == s,
    ensures
        search_state(w, s, t, visited.update(u, true), u, 0),
        is_latest(t, visited.update(u, true), s, u),
{
    let after = visited.update(u, true);
    let pot = Seq::new(
        t.len(),
        |v: int|
            if visited[v] {
                t[v].distance as int
            } else {
                t[u].distance as int
            },
    );
    assert forall|x: int, y: int|
        0 <= x < w.len() && 0 <= y < w.len() && #[trigger] w[x][y] > 0 implies pot[y] <= pot[x]
        + w[x][y] by {
        if visited[x] {
            assert(t[y].distance <= t[x].distance + w[x][y]);
            if !visited[y] && y != u {
                assert(settles_before(t, u, y));
            }
        } else {
            if visited[y] {
                assert(settles_before(t, y, x));
                if x != u {
                    assert(settles_before(t, u, x));
                }
                assert(settles_before(t, y, u));
            }
        }
    }
    assert(no_walk_below(w, s, u as usize, t[u].distance as int)) by {
        assert forall|p: Seq<usize>| #[trigger] is_walk_between(w, p, s, u as usize) implies walk_weight(
            w,
            p,
        ) >= t[u].distance by {
            lemma_potential_bounds_walk(w, s, pot, p);
        }
    }
    assert(settled(w, s, t, after));
    assert(relaxed(w, t, after, u, 0));
    assert(ordered(t, after)) by {
        assert forall|x: int, y: int|
            0 <= x < t.len() && 0 <= y < t.len() && #[trigger] after[x] && !(#[trigger] after[y])
            implies settles_before(t, x, y) by {
            assert(!visited[y]);
            if x != u {
                assert(visited[x]);
            }
        }
    }
    assert forall|v: int| 0 <= v < t.len() implies #[trigger] previous_ok(w, s, t, after, v) by {
        assert(previous_ok(w, s, t, visited, v));
        if !(v == s || t[v].distance == u32::MAX) {
            let p = t[v].previous as int;
            assert forall|x: int|
                #[trigger] is_last_step(w, t, x, v) && after[x] && x != p implies settles_before(
                t,
                p,
                x,
            ) by {
                if x == u {
                    assert(visited[p] && !visited[u]);
                    assert(settles_before(t, p, u));
                }
            }
        }
    }
    assert(is_latest(t, after, s, u)) by {
        assert forall|x: int| 0 <= x < t.len() && #[trigger] after[x] implies t[x].distance
            <= t[u].distance by {
            if x != u {
                assert(visited[x] && !visited[u]);
                assert(settles_before(t, x, u));
            }
        }
    }
}

/// What relaxing the edge from `u` to `y` makes of the table.
spec fn relax_edge(
    w: Seq<Seq<u32>>,
    t: Seq<ShortestPathTreeNode>,
    visited: Seq<bool>,
    u: int,
    y: int,
) -> Seq<ShortestPathTreeNode> {
    if !visited[y] && w[u][y] > 0 && t[y].distance > t[u].distance + w[u][y] {
        t.update(
            y,
            ShortestPathTreeNode {
                from: t[y].from,
                to: t[y].to,
                distance: (t[u].distance + w[u][y]) as u32,
                previous: u as usize,
            },
        )
    } else {
        t
    }
}

/// Relaxing one more edge out of the visited node keeps the state.
proof fn lemma_relax(
    w: Seq<Seq<u32>>,
    s: usize,
    t: Seq<ShortestPathTreeNode>,
    visited: Seq<bool>,
    u: int,
    y: int,
)
    requires
        search_state(w, s, t, visited, u, y),
        is_latest(t, visited, s, u),
        0 <= y < t.len(),
    ensures
        search_state(w, s, relax_edge(w, t, visited, u, y), visited, u, y + 1),
        is_latest(relax_edge(w, t, visited, u, y), visited, s, u),
{
    let t2 = relax_edge(w, t, visited, u, y);
    if !visited[y] && w[u][y] > 0 && t[y].distance > t[u].distance + w[u][y] {
        let d = (t[u].distance + w[u][y]) as u32;
        assert(t2[y].distance == d);
        assert(t2[y].previous == u);
        assert(forall|v: int| 0 <= v < t.len() && v != y ==> t2[v] == t[v]);
        assert(y != s);
        assert(table_shape(w, s, t2, visited));
        assert(settled(w, s, t2, visited)) by {
            assert forall|v: int| 0 <= v < t2.len() && #[trigger] visited[v] implies t2[v].distance
                < u32::MAX && no_walk_below(w, s, v as usize, t2[v].distance as int) by {
                assert(v != y);
            }
        }
        assert(witnessed(w, s, t2)) by {
            assert forall|v: int|
                0 <= v < t2.len() && (#[trigger] t2[v]).distance < u32::MAX implies reachable_with(
                w,
                s,
                v as usize,
                t2[v].distance as int,
            ) by {
                if v == y {
                    assert(t[u].distance < u32::MAX);
                    lemma_reachable_step(w, s, u as usize, y as usize, t[u].distance as int);
                } else {
                    assert(t2[v] == t[v]);
                }
            }
        }
        assert(relaxed(w, t2, visited, u, y + 1)) by {
            assert forall|x: int, z: int|
                0 <= x < t2.len() && 0 <= z < t2.len() && visited[x] && #[trigger] w[x][z] > 0 && (x
                    != u || z < y + 1) implies t2[z].distance <= t2[x].distance + w[x][z] by {
                assert(x != y);
                if z != y {
                    assert(t2[z] == t[z]);
                } else if x != u {
                    assert(t[y].distance <= t[x].distance + w[x][y]);
                }
            }
        }
        assert(ordered(t2, visited)) by {
            assert forall|x: int, z: int|
                0 <= x < t2.len() && 0 <= z < t2.len() && #[trigger] visited[x] && !(
                #[trigger] visited[z]) implies settles_before(t2, x, z) by {
                assert(x != y);
                assert(settles_before(t, x, z));
                if z == y {
                    assert(t[x].distance <= t[u].distance);
                }
            }
        }
        assert forall|v: int| 0 <= v < t2.len() implies #[trigger] previous_ok(
            w,
            s,
            t2,
            visited,
            v,
        ) by {
            assert(previous_ok(w, s, t, visited, v));
            if v == y {
                assert(is_last_step(w, t2, u, y));
                assert forall|x: int|
                    #[trigger] is_last_step(w, t2, x, y) && visited[x] && x != u implies settles_before(
                    t2,
                    u,
                    x,
                ) by {
                    assert(x != y);
                    assert(t[y].distance <= t[x].distance + w[x][y]);
                }
            } else if !(v == s || t[v].distance == u32::MAX) {
                let p = t[v].previous as int;
                assert(p != y);
                assert(is_last_step(w, t2, p, v));
                assert forall|x: int|
                    #[trigger] is_last_step(w, t2, x, v) && visited[x] && x != p implies settles_before(
                    t2,
                    p,
                    x,
                ) by {
                    assert(x != y);
                    assert(is_last_step(w, t, x, v));
                }
            }
        }
        assert(is_latest(t2, visited, s, u));
    } else {
        assert(relaxed(w, t, visited, u, y + 1)) by {
            assert forall|x: int, z: int|
                0 <= x < t.len() && 0 <= z < t.len() && visited[x] && #[trigger] w[x][z] > 0 && (x
                    != u || z < y + 1) implies t[z].distance <= t[x].distance + w[x][z] by {
                if x == u && z == y {
                    if visited[y] {
                        assert(t[y].distance <= t[u].distance);
                    }
                }
            }
        }
    }
}

/// When no node with a distance is left to visit, the table is the tree.
proof fn lemma_finish(
    w: Seq<Seq<u32>>,
    s: usize,
    t: Seq<ShortestPathTreeNode>,
    visited: Seq<bool>,
)
    requires
        search_state(w, s, t, visited, -1, 0),
        is_next(t, visited, t.len() as int),
    ensures
        is_shortest_path_tree(w, s, t),
{
    let pot = Seq::new(t.len(), |v: int| t[v].distance as int);
    assert forall|x: int, y: int|
        0 <= x < w.len() && 0 <= y < w.len() && #[trigger] w[x][y] > 0 implies pot[y] <= pot[x]
        + w[x][y] by {
        if visited[x] {
            assert(t[y].distance <= t[x].distance + w[x][y]);
        }
    }
    assert forall|v: int| 0 <= v < t.len() implies {
        &&& (#[trigger] t[v]).from == s
        &&& t[v].to == v
        &&& is_distance(w, s, v as usize, t[v].distance)
        &&& is_chosen_previous(w, s, t, v)
    } by {
        if t[v].distance == u32::MAX {
            assert forall|p: Seq<usize>| #[trigger]
                is_walk_between(w, p, s, v as usize) implies walk_weight(w, p) >= u32::MAX by {
                lemma_potential_bounds_walk(w, s, pot, p);
            }
        } else {
            assert(visited[v]);
        }
        assert(previous_ok(w, s, t, visited, v));
        if !(v == s || t[v].distance == u32::MAX) {
            let p = t[v].previous as int;
            assert forall|x: int| #[trigger] is_last_step(w, t, x, v) && x != p implies settles_before(
                t,
                p,
                x,
            ) by {
                assert(t[x].distance < u32::MAX);
                assert(visited[x]);
            }
        }
    }
}

/// Relaxes the edges that leave the node just visited.
fn relax_neighbours(
    graph_matrix: &GraphMatrix,
    tree: &mut Vec<ShortestPathTreeNode>,
    visited: &Vec<bool>,
    node: usize,
    Ghost(s): Ghost<usize>,
)
    requires
        search_state(matrix_weights(graph_matrix@), s, old(tree)@, visited@, node as int, 0),
        is_latest(old(tree)@, visited@, s, node as int),
    ensures
        search_state(matrix_weights(graph_matrix@), s, final(tree)@, visited@, -1, 0),
        visited@[s as int],
{
    let ghost w = matrix_weights(graph_matrix@);
    let node_count = graph_matrix.len();
    let node_distance = tree[node].distance;
    let row = &graph_matrix[node];
    let mut index: usize = 0;
    while index < node_count
        invariant
            w == matrix_weights(graph_matrix@),
            node_count == graph_matrix.len(),
            node < node_count,
            row@ == w[node as int],
            index <= node_count,
            node_distance == tree@[node as int].distance,
            search_state(w, s, tree@, visited@, node as int, index as int),
            is_latest(tree@, visited@, s, node as int),
        decreases node_count - index,
    {
        proof {
            lemma_relax(w, s, tree@, visited@, node as int, index as int);
        }
        if !visited[index] {
            let weight = row[index];
            if weight > 0 {
                let new_distance: u64 = node_distance as u64 + weight as u64;
                let record = tree[index];
                if (record.distance as u64) > new_distance {
                    tree[index] = ShortestPathTreeNode {
                        from: record.from,
                        to: record.to,
                        distance: new_distance as u32,
                        previous: node,
                    };
                }
            }
        }
        index += 1;
    }
    proof {
        assert(relaxed(w, tree@, visited@, -1, 0));
    }
}

/// Finds the node to visit next: among the nodes not yet visited whose
/// distance is set, the one with the least distance, and of several the
/// first. Returns the node count when there is none.
fn closest_unvisited(tree: &Vec<ShortestPathTreeNode>, visited: &Vec<bool>) -> (next: usize)
    requires
        tree.len() == visited.len(),
    ensures
        is_next(tree@, visited@, next as int),
{
    let node_count = tree.len();
    let mut next: usize = node_count;
    let mut min_distance: u32 = u32::MAX;
    let mut index: usize = 0;
    while index < node_count
        invariant
            node_count == tree.len(),
            node_count == visited.len(),
            index <= node_count,
            next == node_count || next < index,
            next == node_count ==> min_distance == u32::MAX && forall|v: int|
                0 <= v < index && !(#[trigger] visited@[v]) ==> tree@[v].distance == u32::MAX,
            next < node_count ==> {
                &&& !visited@[next as int]
                &&& min_distance == tree@[next as int].distance
                &&& min_distance < u32::MAX
                &&& forall|y: int|
                    0 <= y < index && !(#[trigger] visited@[y]) && y != next ==> settles_before(
                        tree@,
                        next as int,
                        y,
                    )
            },
        decreases node_count - index,
    {
        if !visited[index] && tree[index].distance < min_distance {
            min_distance = tree[index].distance;
            next = index;
        }
        index += 1;
    }
    next
}

/// Whether the matrix is square: every row as long as the matrix has rows.
pub fn is_square_matrix(graph_matrix: &GraphMatrix) -> (square: bool)
    ensures
        square == is_square(matrix_weights(graph_matrix@)),
{
    let ghost w = matrix_weights(graph_matrix@);
    let node_count = graph_matrix.len();
    let mut index: usize = 0;
    while index < node_count
        invariant
            w == matrix_weights(graph_matrix@),
            node_count == graph_matrix.len(),
            index <= node_count,
            forall|i: int| 0 <= i < index ==> (#[trigger] w[i]).len() == w.len(),
        decreases node_count - index,
    {
        if graph_matrix[index].len() != node_count {
            assert(w[index as int].len() != w.len());
            return false;
        }
        index += 1;
    }
    true
}

/// Computes the shortest-path tree of `source` by Dijkstra's algorithm.
///
/// Returns `None` when `source` is no node of the graph (so for an empty
/// graph). Otherwise the tree has one record per node, in index order. The
/// record of a node holds its distance, that is the least total weight of a
/// walk from the source to it, and as `previous` the last node before it on
/// such a walk; of several candidates the one that is nearest to the source,
/// and of those the one with the least index. A node that no walk lighter
/// than `u32::MAX` reaches keeps the distance `u32::MAX` and itself as
/// `previous`; the source too is its own `previous`. The matrix must be
/// square ([`is_square_matrix`] tells).
pub fn shortest_path_tree(graph_matrix: &GraphMatrix, source: usize) -> (tree: Option<
    Vec<ShortestPathTreeNode>,
>)
    requires
        is_square(matrix_weights(graph_matrix@)),
    ensures
        tree is Some <==> source < graph_matrix.len(),
        tree matches Some(t) ==> is_shortest_path_tree(matrix_weights(graph_matrix@), source, t@),
{
    let node_count = graph_matrix.len();
    if source >= node_count {
        return None;
    }
    let ghost w = matrix_weights(graph_matrix@);
    let mut visited: Vec<bool> = Vec::with_capacity(node_count);
    let mut tree: Vec<ShortestPathTreeNode> = Vec::with_capacity(node_count);
    let mut node: usize = 0;
    while node < node_count
        invariant
            node <= node_count,
            tree.len() == node,
            visited.len() == node,
            forall|v: int| 0 <= v < node ==> !(#[trigger] visited@[v]),
            forall|v: int|
                0 <= v < node ==> #[trigger] tree@[v] == (ShortestPathTreeNode {
                    from: source,
                    to: v as usize,
                    distance: if v == source {
                        0
                    } else {
                        u32::MAX
                    },
                    previous: v as usize,
                }),
        decreases node_count - node,
    {
        visited.push(false);
        tree.push(
            ShortestPathTreeNode {
                from: source,
                to: node,
                distance: if node == source {
                    0
                } else {
                    u32::MAX
                },
                previous: node,
            },
        );
        node += 1;
    }

    // starting from the source node
    node = source;
    proof {
        lemma_reachable_source(w, source);
        assert forall|v: int| 0 <= v < tree@.len() implies #[trigger] previous_ok(
            w,
            source,
            tree@,
            visited@,
            v,
        ) by {}
        assert(search_state(w, source, tree@, visited@, -1, 0));
        assert(is_next(tree@, visited@, node as int));
    }
    while node < node_count
        invariant
            w == matrix_weights(graph_matrix@),
            node_count == graph_matrix.len(),
            node <= node_count,
            search_state(w, source, tree@, visited@, -1, 0),
            is_next(tree@, visited@, node as int),
            visited@[source as int] || node == source,
        decreases unvisited(visited@),
    {
        proof {
            lemma_visit(w, source, tree@, visited@, node as int);
            lemma_unvisited_update(visited@, node as int);
        }
        visited.set(node, true);
        relax_neighbours(graph_matrix, &mut tree, &visited, node, Ghost(source));
        node = closest_unvisited(&tree, &visited);
    }
    proof {
        lemma_finish(w, source, tree@, visited@);
    }
    Some(tree)
}

/// Converts the mapping into the canonical table of its node names and the
/// adjacency matrix over that table.
///
/// The table holds the node names in lexicographic order. A cell of the
/// matrix holds the weight that the mapping has between its two nodes, and 0
/// where it has none. The matrix is square, and symmetric as the mapping is.
/// For the empty mapping both are empty.
pub fn graph_map_to_matrix(graph_map: &GraphMap) -> (result: (Vec<String>, GraphMatrix))
    ensures
        is_table_of(names_view(result.0@), graph_map@.dom()),
        matrix_weights(result.1@) == map_matrix(names_view(result.0@), graph_map@),
        is_square(matrix_weights(result.1@)),
        is_symmetric(matrix_weights(result.1@)),
        result.1@.len() == result.0@.len(),
        result.0@.len() == graph_map@.dom().len(),
{
    let rows = graph_map.rows();
    let result = graph_vector_to_matrix(rows);
    proof {
        let list = rows_view(rows@);
        lemma_rows_to_map(list);
        assert(row_names(list).to_set() =~= graph_map@.dom());
        lemma_list_matrix_is_map_matrix(list, names_view(result.0@));
    }
    result
}

} // verus!
