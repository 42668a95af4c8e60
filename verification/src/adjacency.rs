//! The adjacency list and the adjacency mapping as mathematical values, and
//! how the two stand to each other.

use vstd::prelude::*;

verus! {

/// The neighbours of one node: names with the weight of the edge to each.
pub type Neighbours = Seq<(Seq<char>, u32)>;

/// An adjacency list: node names, each with its neighbours.
pub type Rows = Seq<(Seq<char>, Neighbours)>;

/// An adjacency mapping: node name to neighbour name to weight.
pub type WeightMap = Map<Seq<char>, Map<Seq<char>, u32>>;

/// What a list of `(neighbour, weight)` pairs holds.
pub open spec fn neighbours_view(n: Seq<(String, u32)>) -> Neighbours {
    Seq::new(n.len(), |k: int| (n[k].0@, n[k].1))
}

/// What an adjacency list holds.
pub open spec fn rows_view(g: Seq<(String, Vec<(String, u32)>)>) -> Rows {
    Seq::new(g.len(), |i: int| (g[i].0@, neighbours_view(g[i].1@)))
}

/// The names of the neighbours, in list order.
pub open spec fn neighbour_names(n: Neighbours) -> Seq<Seq<char>> {
    Seq::new(n.len(), |k: int| n[k].0)
}

/// The names of the nodes of an adjacency list, in list order.
pub open spec fn row_names(rows: Rows) -> Seq<Seq<char>> {
    Seq::new(rows.len(), |i: int| rows[i].0)
}

/// Every neighbour that the list names is a node of the list.
pub open spec fn rows_closed(rows: Rows) -> bool {
    forall|i: int, k: int|
        0 <= i < rows.len() && 0 <= k < rows[i].1.len() ==> row_names(rows).contains(
            #[trigger] rows[i].1[k].0,
        )
}

/// No node has two rows, and no row names a neighbour twice.
pub open spec fn rows_distinct(rows: Rows) -> bool {
    &&& row_names(rows).no_duplicates()
    &&& forall|i: int| 0 <= i < rows.len() ==> neighbour_names(#[trigger] rows[i].1).no_duplicates()
}

/// The mapping from neighbour to weight that a list of pairs stands for; of
/// two pairs with one name the later counts.
pub open spec fn neighbours_to_map(n: Neighbours) -> Map<Seq<char>, u32>
    decreases n.len(),
{
    if n.len() == 0 {
        Map::empty()
    } else {
        neighbours_to_map(n.drop_last()).insert(n.last().0, n.last().1)
    }
}

/// The adjacency mapping that an adjacency list stands for; of two rows
/// with one name the later counts.
pub open spec fn rows_to_map(rows: Rows) -> WeightMap
    decreases rows.len(),
{
    if rows.len() == 0 {
        Map::empty()
    } else {
        rows_to_map(rows.drop_last()).insert(rows.last().0, neighbours_to_map(rows.last().1))
    }
}

/// The mapping holds an entry from `a` to `b`.
pub open spec fn map_has_edge(m: WeightMap, a: Seq<char>, b: Seq<char>) -> bool {
    m.contains_key(a) && m[a].contains_key(b)
}

/// The weight that the mapping holds from `a` to `b`, and 0 where it holds
/// none.
pub open spec fn map_weight(m: WeightMap, a: Seq<char>, b: Seq<char>) -> u32 {
    if map_has_edge(m, a, b) {
        m[a][b]
    } else {
        0
    }
}

/// Every entry from `a` to `b` has its twin from `b` to `a`, with the same
/// weight.
pub open spec fn map_symmetric(m: WeightMap) -> bool {
    forall|a: Seq<char>, b: Seq<char>| #[trigger]
        map_has_edge(m, a, b) ==> map_has_edge(m, b, a) && m[b][a] == m[a][b]
}

/// The neighbours of `a` in the mapping; none where `a` is no node.
pub open spec fn map_row(m: WeightMap, a: Seq<char>) -> Map<Seq<char>, u32> {
    if m.contains_key(a) {
        m[a]
    } else {
        Map::empty()
    }
}

/// The mapping with the entry from `a` to `b` set to `weight`.
pub open spec fn map_set(m: WeightMap, a: Seq<char>, b: Seq<char>, weight: u32) -> WeightMap {
    m.insert(a, map_row(m, a).insert(b, weight))
}

/// The mapping with an undirected edge between `a` and `b`: the entry from
/// `a` to `b` and the entry from `b` to `a` are both set to `weight`.
pub open spec fn map_add_edge(m: WeightMap, a: Seq<char>, b: Seq<char>, weight: u32) -> WeightMap {
    map_set(map_set(m, a, b, weight), b, a, weight)
}

/// The neighbours that stand for a mapping do so key by key.
pub proof fn lemma_neighbours_to_map(n: Neighbours)
    ensures
        forall|b: Seq<char>| #[trigger]
            neighbours_to_map(n).contains_key(b) <==> neighbour_names(n).contains(b),
        neighbour_names(n).no_duplicates() ==> forall|k: int|
            0 <= k < n.len() ==> neighbours_to_map(n)[#[trigger] n[k].0] == n[k].1,
        neighbours_to_map(n).dom().finite(),
    decreases n.len(),
{
    let names = neighbour_names(n);
    if n.len() > 0 {
        let front = n.drop_last();
        lemma_neighbours_to_map(front);
        let front_names = neighbour_names(front);
        assert(front_names =~= names.drop_last());
        assert forall|b: Seq<char>| #[trigger]
            neighbours_to_map(n).contains_key(b) <==> names.contains(b) by {
            if names.contains(b) {
                let k = choose|k: int| 0 <= k < names.len() && names[k] == b;
                if k < n.len() - 1 {
                    assert(front_names[k] == b);
                }
            }
            if front_names.contains(b) {
                let k = choose|k: int| 0 <= k < front_names.len() && front_names[k] == b;
                assert(names[k] == b);
            }
            assert(names[n.len() - 1] == n.last().0);
        }
        if names.no_duplicates() {
            assert(front_names.no_duplicates());
            assert forall|k: int| 0 <= k < n.len() implies neighbours_to_map(n)[#[trigger] n[k].0]
                == n[k].1 by {
                if k < n.len() - 1 {
                    assert(front[k] == n[k]);
                    assert(names[k] == n[k].0);
                    assert(names[n.len() - 1] == n.last().0);
                }
            }
        }
    }
}

/// The rows that stand for a mapping do so node by node.
pub proof fn lemma_rows_to_map(rows: Rows)
    ensures
        forall|a: Seq<char>| #[trigger]
            rows_to_map(rows).contains_key(a) <==> row_names(rows).contains(a),
        row_names(rows).no_duplicates() ==> forall|i: int|
            0 <= i < rows.len() ==> rows_to_map(rows)[#[trigger] rows[i].0] == neighbours_to_map(
                rows[i].1,
            ),
        rows_to_map(rows).dom().finite(),
        row_names(rows).no_duplicates() ==> rows_to_map(rows).dom().len() == rows.len(),
    decreases rows.len(),
{
    let names = row_names(rows);
    if rows.len() > 0 {
        let front = rows.drop_last();
        lemma_rows_to_map(front);
        let front_names = row_names(front);
        assert(front_names =~= names.drop_last());
        assert forall|a: Seq<char>| #[trigger]
            rows_to_map(rows).contains_key(a) <==> names.contains(a) by {
            if names.contains(a) {
                let i = choose|i: int| 0 <= i < names.len() && names[i] == a;
                if i < rows.len() - 1 {
                    assert(front_names[i] == a);
                }
            }
            if front_names.contains(a) {
                let i = choose|i: int| 0 <= i < front_names.len() && front_names[i] == a;
                assert(names[i] == a);
            }
            assert(names[rows.len() - 1] == rows.last().0);
        }
        if names.no_duplicates() {
            assert(front_names.no_duplicates());
            assert forall|i: int| 0 <= i < rows.len() implies rows_to_map(rows)[#[trigger] rows[i].0]
                == neighbours_to_map(rows[i].1) by {
                if i < rows.len() - 1 {
                    assert(front[i] == rows[i]);
                    assert(names[i] == rows[i].0);
                    assert(names[rows.len() - 1] == rows.last().0);
                }
            }
            assert(!rows_to_map(front).contains_key(rows.last().0)) by {
                if front_names.contains(rows.last().0) {
                    let i = choose|i: int|
                        0 <= i < front_names.len() && front_names[i] == rows.last().0;
                    assert(names[i] == names[rows.len() - 1]);
                }
            }
        }
    }
}

/// One more pair at the end of the neighbours sets one entry of the mapping.
pub proof fn lemma_neighbours_push(n: Neighbours, b: Seq<char>, weight: u32)
    ensures
        neighbours_to_map(n.push((b, weight))) == neighbours_to_map(n).insert(b, weight),
        !neighbour_names(n).contains(b) && neighbour_names(n).no_duplicates() ==> neighbour_names(
            n.push((b, weight)),
        ).no_duplicates(),
{
    let after = n.push((b, weight));
    assert(after.drop_last() =~= n);
    if !neighbour_names(n).contains(b) && neighbour_names(n).no_duplicates() {
        let names = neighbour_names(after);
        assert forall|i: int, j: int|
            0 <= i < names.len() && 0 <= j < names.len() && i != j implies names[i] != names[j] by {
            if i < n.len() {
                assert(neighbour_names(n)[i] == names[i]);
            }
            if j < n.len() {
                assert(neighbour_names(n)[j] == names[j]);
            }
        }
    }
}

/// A new weight for a neighbour that stands once in the list sets that
/// entry of the mapping.
pub proof fn lemma_neighbours_update(n: Neighbours, k: int, weight: u32)
    requires
        0 <= k < n.len(),
        neighbour_names(n).no_duplicates(),
    ensures
        neighbours_to_map(n.update(k, (n[k].0, weight))) == neighbours_to_map(n).insert(
            n[k].0,
            weight,
        ),
        neighbour_names(n.update(k, (n[k].0, weight))) == neighbour_names(n),
    decreases n.len(),
{
    let after = n.update(k, (n[k].0, weight));
    assert(neighbour_names(after) =~= neighbour_names(n));
    if k == n.len() - 1 {
        assert(after.drop_last() =~= n.drop_last());
        assert(neighbours_to_map(after) =~= neighbours_to_map(n).insert(n[k].0, weight));
    } else {
        let front = n.drop_last();
        assert(neighbour_names(front) =~= neighbour_names(n).drop_last());
        assert(after.drop_last() =~= front.update(k, (n[k].0, weight)));
        assert(front[k] == n[k]);
        lemma_neighbours_update(front, k, weight);
        assert(neighbour_names(n)[k] == n[k].0);
        assert(neighbour_names(n)[n.len() - 1] == n.last().0);
        assert(neighbours_to_map(after) =~= neighbours_to_map(n).insert(n[k].0, weight));
    }
}

/// One more row at the end of the list sets one node of the mapping.
pub proof fn lemma_rows_push(rows: Rows, a: Seq<char>, n: Neighbours)
    ensures
        rows_to_map(rows.push((a, n))) == rows_to_map(rows).insert(a, neighbours_to_map(n)),
        row_names(rows.push((a, n))) == row_names(rows).push(a),
{
    let after = rows.push((a, n));
    assert(after.drop_last() =~= rows);
    assert(row_names(after) =~= row_names(rows).push(a));
}

/// New neighbours for a node that has one row set that node of the mapping.
pub proof fn lemma_rows_update(rows: Rows, i: int, n: Neighbours)
    requires
        0 <= i < rows.len(),
        row_names(rows).no_duplicates(),
    ensures
        rows_to_map(rows.update(i, (rows[i].0, n))) == rows_to_map(rows).insert(
            rows[i].0,
            neighbours_to_map(n),
        ),
        row_names(rows.update(i, (rows[i].0, n))) == row_names(rows),
    decreases rows.len(),
{
    let after = rows.update(i, (rows[i].0, n));
    assert(row_names(after) =~= row_names(rows));
    if i == rows.len() - 1 {
        assert(after.drop_last() =~= rows.drop_last());
        assert(rows_to_map(after) =~= rows_to_map(rows).insert(rows[i].0, neighbours_to_map(n)));
    } else {
        let front = rows.drop_last();
        assert(row_names(front) =~= row_names(rows).drop_last());
        assert(after.drop_last() =~= front.update(i, (rows[i].0, n)));
        assert(front[i] == rows[i]);
        lemma_rows_update(front, i, n);
        assert(row_names(rows)[i] == rows[i].0);
        assert(row_names(rows)[rows.len() - 1] == rows.last().0);
        assert(rows_to_map(after) =~= rows_to_map(rows).insert(rows[i].0, neighbours_to_map(n)));
    }
}

/// An undirected edge keeps a symmetric mapping symmetric.
pub proof fn lemma_add_edge_symmetric(m: WeightMap, a: Seq<char>, b: Seq<char>, weight: u32)
    requires
        map_symmetric(m),
    ensures
        map_symmetric(map_add_edge(m, a, b, weight)),
{
    let m1 = map_set(m, a, b, weight);
    let m2 = map_set(m1, b, a, weight);
    assert forall|x: Seq<char>, y: Seq<char>| #[trigger] map_has_edge(m2, x, y) implies map_has_edge(
        m2,
        y,
        x,
    ) && m2[y][x] == m2[x][y] by {
        if (x == a && y == b) || (x == b && y == a) {
        } else {
            assert(map_has_edge(m, x, y));
            assert(map_has_edge(m, y, x));
        }
    }
}

/// An edge as a list names it: the node, its neighbour, the weight.
pub type Edge = (Seq<char>, Seq<char>, u32);

/// The edge that row `i` names at position `k`.
pub open spec fn edge_at(rows: Rows, i: int, k: int) -> Edge {
    (rows[i].0, rows[i].1[k].0, rows[i].1[k].1)
}

/// Some row of the list names the edge.
pub open spec fn names_edge(rows: Rows, e: Edge) -> bool {
    exists|i: int, k: int|
        0 <= i < rows.len() && 0 <= k < rows[i].1.len() && e == #[trigger] edge_at(rows, i, k)
}

/// The edges that one row names, in list order.
pub open spec fn row_edges(row: (Seq<char>, Neighbours)) -> Seq<Edge> {
    Seq::new(row.1.len(), |k: int| (row.0, row.1[k].0, row.1[k].1))
}

/// The edges that the list names, row by row and in list order.
pub open spec fn list_edges(rows: Rows) -> Seq<Edge>
    decreases rows.len(),
{
    if rows.len() == 0 {
        Seq::empty()
    } else {
        list_edges(rows.drop_last()) + row_edges(rows.last())
    }
}

/// The edge joins `a` and `b`, in one direction or the other.
pub open spec fn joins(e: Edge, a: Seq<char>, b: Seq<char>) -> bool {
    (e.0 == a && e.1 == b) || (e.0 == b && e.1 == a)
}

/// The weight of the last edge of the sequence that joins `a` and `b`, and 0
/// where none does.
pub open spec fn joining_weight(edges: Seq<Edge>, a: Seq<char>, b: Seq<char>) -> u32
    decreases edges.len(),
{
    if edges.len() == 0 {
        0
    } else if joins(edges.last(), a, b) {
        edges.last().2
    } else {
        joining_weight(edges.drop_last(), a, b)
    }
}

/// The matrix over the table `names` that a sequence of edges stands for:
/// each cell holds the weight of the last edge that joins its two nodes.
pub open spec fn edges_matrix(names: Seq<Seq<char>>, edges: Seq<Edge>) -> Seq<Seq<u32>> {
    Seq::new(
        names.len(),
        |i: int| Seq::new(names.len(), |j: int| joining_weight(edges, names[i], names[j])),
    )
}

/// The matrix over the table `names` that a mapping stands for: each cell
/// holds the weight that the mapping has between its two nodes.
pub open spec fn map_matrix(names: Seq<Seq<char>>, m: WeightMap) -> Seq<Seq<u32>> {
    Seq::new(
        names.len(),
        |i: int| Seq::new(names.len(), |j: int| map_weight(m, names[i], names[j])),
    )
}

/// The edges of the first `r + 1` rows are those of the first `r` rows and
/// then those of row `r`.
pub proof fn lemma_list_edges_take(rows: Rows, r: int)
    requires
        0 <= r < rows.len(),
    ensures
        list_edges(rows.take(r + 1)) == list_edges(rows.take(r)) + row_edges(rows[r]),
{
    assert(rows.take(r + 1).drop_last() =~= rows.take(r));
}

/// One more edge at the end decides the cells of its two nodes and leaves
/// the others.
pub proof fn lemma_joining_weight_push(edges: Seq<Edge>, e: Edge, a: Seq<char>, b: Seq<char>)
    ensures
        joining_weight(edges.push(e), a, b) == if joins(e, a, b) {
            e.2
        } else {
            joining_weight(edges, a, b)
        },
{
    assert(edges.push(e).drop_last() =~= edges);
}

/// The joining weight is the weight of one of the joining edges, and 0 only
/// where there is none or that is its weight.
pub proof fn lemma_joining_weight(edges: Seq<Edge>, a: Seq<char>, b: Seq<char>)
    ensures
        joining_weight(edges, a, b) == joining_weight(edges, b, a),
        (exists|p: int|
            0 <= p < edges.len() && joins(#[trigger] edges[p], a, b) && edges[p].2
                == joining_weight(edges, a, b)) || (joining_weight(edges, a, b) == 0 && forall|
            p: int,
        |
            0 <= p < edges.len() ==> !joins(#[trigger] edges[p], a, b)),
    decreases edges.len(),
{
    if edges.len() > 0 {
        let front = edges.drop_last();
        lemma_joining_weight(front, a, b);
        if joins(edges.last(), a, b) {
            assert(joins(edges[edges.len() - 1], a, b));
        } else {
            if exists|p: int|
                0 <= p < front.len() && joins(#[trigger] front[p], a, b) && front[p].2
                    == joining_weight(front, a, b) {
                let p = choose|p: int|
                    0 <= p < front.len() && joins(#[trigger] front[p], a, b) && front[p].2
                        == joining_weight(front, a, b);
                assert(edges[p] == front[p]);
            } else {
                assert forall|p: int| 0 <= p < edges.len() implies !joins(
                    #[trigger] edges[p],
                    a,
                    b,
                ) by {
                    if p < front.len() {
                        assert(edges[p] == front[p]);
                    }
                }
            }
        }
    }
}

/// Symmetry of the matrix of a list: whatever the list, the two cells of a
/// pair of nodes hold one weight.
pub proof fn lemma_edges_matrix_symmetric(names: Seq<Seq<char>>, edges: Seq<Edge>)
    ensures
        forall|i: int, j: int|
            0 <= i < names.len() && 0 <= j < names.len() ==> #[trigger] edges_matrix(
                names,
                edges,
            )[i][j] == edges_matrix(names, edges)[j][i],
{
    assert forall|i: int, j: int| 0 <= i < names.len() && 0 <= j < names.len() implies #[trigger] edges_matrix(
        names,
        edges,
    )[i][j] == edges_matrix(names, edges)[j][i] by {
        lemma_joining_weight(edges, names[i], names[j]);
    }
}

/// Symmetry of the matrix of a mapping: where every entry of the mapping
/// has its twin, the two cells of a pair of nodes hold one weight.
pub proof fn lemma_map_matrix_symmetric(names: Seq<Seq<char>>, m: WeightMap)
    requires
        map_symmetric(m),
    ensures
        forall|i: int, j: int|
            0 <= i < names.len() && 0 <= j < names.len() ==> #[trigger] map_matrix(names, m)[i][j]
                == map_matrix(names, m)[j][i],
{
    assert forall|i: int, j: int| 0 <= i < names.len() && 0 <= j < names.len() implies #[trigger] map_matrix(
        names,
        m,
    )[i][j] == map_matrix(names, m)[j][i] by {
        if map_has_edge(m, names[i], names[j]) {
            assert(map_has_edge(m, names[j], names[i]));
        }
        if map_has_edge(m, names[j], names[i]) {
            assert(map_has_edge(m, names[i], names[j]));
        }
    }
}

/// The edges of the list are the pairs of its rows, each and no other.
pub proof fn lemma_list_edges(rows: Rows)
    ensures
        forall|p: int|
            0 <= p < list_edges(rows).len() ==> names_edge(rows, #[trigger] list_edges(rows)[p]),
        forall|i: int, k: int|
            0 <= i < rows.len() && 0 <= k < rows[i].1.len() ==> list_edges(rows).contains(
                #[trigger] edge_at(rows, i, k),
            ),
    decreases rows.len(),
{
    let edges = list_edges(rows);
    if rows.len() > 0 {
        let front = rows.drop_last();
        let last = rows.len() - 1;
        lemma_list_edges(front);
        let front_edges = list_edges(front);
        let last_edges = row_edges(rows.last());
        assert forall|p: int| 0 <= p < edges.len() implies names_edge(rows, #[trigger] edges[p]) by {
            if p < front_edges.len() {
                assert(edges[p] == front_edges[p]);
                assert(names_edge(front, front_edges[p]));
                let (i, k) = choose|i: int, k: int|
                    0 <= i < front.len() && 0 <= k < front[i].1.len() && front_edges[p]
                        == #[trigger] edge_at(front, i, k);
                assert(edge_at(front, i, k) == edge_at(rows, i, k));
            } else {
                let k = p - front_edges.len();
                assert(edges[p] == last_edges[k]);
                assert(edges[p] == edge_at(rows, last, k));
            }
        }
        assert forall|i: int, k: int|
            0 <= i < rows.len() && 0 <= k < rows[i].1.len() implies edges.contains(
            #[trigger] edge_at(rows, i, k),
        ) by {
            if i < last {
                assert(edge_at(front, i, k) == edge_at(rows, i, k));
                assert(front_edges.contains(edge_at(front, i, k)));
                let p = choose|p: int|
                    0 <= p < front_edges.len() && front_edges[p] == edge_at(front, i, k);
                assert(edges[p] == front_edges[p]);
            } else {
                assert(edges[front_edges.len() + k] == last_edges[k]);
            }
        }
    }
}

/// Where no node has two rows, no row names a neighbour twice and each edge
/// is listed from both ends with one weight, the last edge that joins two
/// nodes has the weight that the mapping holds between them.
pub proof fn lemma_joining_weight_of_map(rows: Rows, a: Seq<char>, b: Seq<char>)
    requires
        rows_distinct(rows),
        map_symmetric(rows_to_map(rows)),
    ensures
        joining_weight(list_edges(rows), a, b) == map_weight(rows_to_map(rows), a, b),
{
    let m = rows_to_map(rows);
    let edges = list_edges(rows);
    lemma_rows_to_map(rows);
    lemma_list_edges(rows);
    lemma_joining_weight(edges, a, b);
    assert forall|i: int, k: int|
        0 <= i < rows.len() && 0 <= k < rows[i].1.len() implies map_has_edge(
        m,
        rows[i].0,
        rows[i].1[k].0,
    ) && m[rows[i].0][rows[i].1[k].0] == (#[trigger] edge_at(rows, i, k)).2 by {
        lemma_neighbours_to_map(rows[i].1);
        assert(row_names(rows)[i] == rows[i].0);
        assert(neighbour_names(rows[i].1)[k] == rows[i].1[k].0);
        assert(m[rows[i].0] == neighbours_to_map(rows[i].1));
    }
    if exists|p: int|
        0 <= p < edges.len() && joins(#[trigger] edges[p], a, b) && edges[p].2 == joining_weight(
            edges,
            a,
            b,
        ) {
        let p = choose|p: int|
            0 <= p < edges.len() && joins(#[trigger] edges[p], a, b) && edges[p].2
                == joining_weight(edges, a, b);
        assert(names_edge(rows, edges[p]));
        let (i, k) = choose|i: int, k: int|
            0 <= i < rows.len() && 0 <= k < rows[i].1.len() && edges[p] == #[trigger] edge_at(
                rows,
                i,
                k,
            );
        assert(map_has_edge(m, rows[i].0, rows[i].1[k].0));
        if edges[p].0 == a && edges[p].1 == b {
            assert(map_has_edge(m, a, b));
        } else {
            assert(map_has_edge(m, b, a));
        }
    } else if map_has_edge(m, a, b) {
        assert(row_names(rows).contains(a));
        let i = choose|i: int| 0 <= i < rows.len() && row_names(rows)[i] == a;
        lemma_neighbours_to_map(rows[i].1);
        assert(m[rows[i].0] == neighbours_to_map(rows[i].1));
        assert(neighbour_names(rows[i].1).contains(b));
        let k = choose|k: int| 0 <= k < rows[i].1.len() && neighbour_names(rows[i].1)[k] == b;
        assert(edges.contains(edge_at(rows, i, k)));
        let p = choose|p: int| 0 <= p < edges.len() && edges[p] == edge_at(rows, i, k);
        assert(joins(edges[p], a, b));
    }
}

} // verus!
