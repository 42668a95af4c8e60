use shortest_path::dijkstra::graph_matrix::shortest_path_tree;
use shortest_path::dijkstra::utils::build_shortest_path_from_tree;
use shortest_path::graph_type::{GraphMatrix, ShortestPathTreeNode};

/// A small generator of pseudo-random numbers, so that the runs repeat.
struct Numbers {
    state: u64,
}

impl Numbers {
    fn next(&mut self) -> u64 {
        self.state = self
            .state
            .wrapping_mul(6364136223846793005)
            .wrapping_add(1442695040888963407);
        self.state >> 33
    }

    fn below(&mut self, bound: u64) -> u64 {
        self.next() % bound
    }
}

fn random_matrix(numbers: &mut Numbers, size: usize, symmetric: bool) -> GraphMatrix {
    let mut matrix: GraphMatrix = vec![vec![0; size]; size];
    for i in 0..size {
        for j in 0..size {
            if symmetric && j < i {
                matrix[i][j] = matrix[j][i];
            } else if numbers.below(3) == 0 {
                matrix[i][j] = 1 + numbers.below(6) as u32;
            }
        }
    }
    matrix
}

/// The textbook table: distances by repeated relaxation of every edge.
fn distances_by_relaxation(matrix: &GraphMatrix, source: usize) -> Vec<u64> {
    let size = matrix.len();
    let mut distance = vec![u64::MAX; size];
    distance[source] = 0;
    for _ in 0..size {
        for u in 0..size {
            if distance[u] == u64::MAX {
                continue;
            }
            for v in 0..size {
                if matrix[u][v] > 0 && distance[u] + (matrix[u][v] as u64) < distance[v] {
                    distance[v] = distance[u] + matrix[u][v] as u64;
                }
            }
        }
    }
    distance
}

/// The predecessor that the rule of the library picks, from the distances
/// alone: among the nodes whose edge closes the distance, the nearest to the
/// source, and of several the first.
fn predecessor_by_rule(matrix: &GraphMatrix, distance: &Vec<u64>, source: usize, v: usize) -> usize {
    if v == source || distance[v] == u64::MAX {
        return v;
    }
    let mut best: Option<usize> = None;
    for u in 0..matrix.len() {
        if matrix[u][v] > 0
            && distance[u] != u64::MAX
            && distance[u] + matrix[u][v] as u64 == distance[v]
        {
            let better = match best {
                None => true,
                Some(b) => distance[u] < distance[b],
            };
            if better {
                best = Some(u);
            }
        }
    }
    best.unwrap()
}

#[test]
fn tree_agrees_with_relaxation_on_many_matrices() {
    let mut numbers = Numbers { state: 2024 };
    for round in 0..400 {
        let size = 1 + (round % 9);
        let matrix = random_matrix(&mut numbers, size, round % 2 == 0);
        for source in 0..size {
            let tree = shortest_path_tree(&matrix, source).unwrap();
            let distance = distances_by_relaxation(&matrix, source);
            let expected: Vec<ShortestPathTreeNode> = (0..size)
                .map(|v| ShortestPathTreeNode {
                    from: source,
                    to: v,
                    distance: if distance[v] == u64::MAX { u32::MAX } else { distance[v] as u32 },
                    previous: predecessor_by_rule(&matrix, &distance, source, v),
                })
                .collect();
            assert_eq!(tree, expected);
            for to in 0..size {
                let path = build_shortest_path_from_tree(to, &tree);
                assert_eq!(path.is_some(), distance[to] != u64::MAX);
                if let Some(path) = path {
                    assert_eq!(path.path[0], source);
                    assert_eq!(path.path[path.path.len() - 1], to);
                    if to != source {
                        let sum: u64 = (0..path.path.len() - 1)
                            .map(|k| matrix[path.path[k]][path.path[k + 1]] as u64)
                            .sum();
                        assert_eq!(sum, distance[to]);
                    }
                }
            }
        }
    }
}

/// The scan written out step by step, with a visited flag per node.
fn tree_by_scan(matrix: &GraphMatrix, source: usize) -> Vec<ShortestPathTreeNode> {
    let size = matrix.len();
    let mut visited = vec![false; size];
    let mut tree: Vec<ShortestPathTreeNode> = (0..size)
        .map(|v| ShortestPathTreeNode { from: source, to: v, distance: u32::MAX, previous: v })
        .collect();
    let mut node = source;
    tree[node].distance = 0;
    while node != usize::MAX {
        let node_distance = tree[node].distance;
        visited[node] = true;
        for index in 0..size {
            if !visited[index] {
                let distance = matrix[node][index];
                if distance > 0 {
                    let new_distance = node_distance + distance;
                    if tree[index].distance > new_distance {
                        tree[index].distance = new_distance;
                        tree[index].previous = node;
                    }
                }
            }
        }
        node = usize::MAX;
        let mut min_distance = u32::MAX;
        for index in 0..size {
            if !visited[index] && tree[index].distance < min_distance {
                min_distance = tree[index].distance;
                node = index;
            }
        }
    }
    tree
}

#[test]
fn tree_agrees_with_the_plain_scan_on_many_matrices() {
    let mut numbers = Numbers { state: 7 };
    for round in 0..400 {
        let size = 1 + (round % 11);
        let matrix = random_matrix(&mut numbers, size, round % 3 != 0);
        for source in 0..size {
            assert_eq!(shortest_path_tree(&matrix, source).unwrap(), tree_by_scan(&matrix, source));
        }
    }
}
