use shortest_path::dijkstra::graph_map;
use shortest_path::dijkstra::graph_matrix;
use shortest_path::dijkstra::graph_vector;
use shortest_path::dijkstra::utils::{
    build_path_tree_nodes_from_path, build_path_tree_nodes_from_path_named,
    build_shortest_path_from_tree, build_shortest_path_from_tree_named, name_lookup_map,
    named_tree_resolves, shortest_path_tree_from_named, shortest_paths_from_named,
    tree_resolves,
};
use shortest_path::dijkstra::add_edge_from_named_node;
use shortest_path::graph_samples::{
    graph_from_edges, paths_from_tuples, sample1, sample2, sample3, sample4,
};
use shortest_path::graph_type::{
    GraphMap, GraphMatrix, GraphVector, ShortestPath, ShortestPathNamed, ShortestPathTreeNode,
    ShortestPathTreeNodeNamed,
};

fn all_samples() -> Vec<(GraphMap, Vec<ShortestPathNamed>)> {
    vec![sample1(), sample2(), sample3(), sample4()]
}

fn strings(names: &[&str]) -> Vec<String> {
    names.iter().map(|n| n.to_string()).collect()
}

fn node(from: usize, to: usize, distance: u32, previous: usize) -> ShortestPathTreeNode {
    ShortestPathTreeNode { from, to, distance, previous }
}

fn named_node(from: &str, to: &str, distance: u32, previous: &str) -> ShortestPathTreeNodeNamed {
    ShortestPathTreeNodeNamed {
        from: from.to_string(),
        to: to.to_string(),
        distance,
        previous: previous.to_string(),
    }
}

#[test]
fn graph_weights_are_symmetric() {
    for (graph, _) in all_samples() {
        let (names, _) = graph_matrix::graph_map_to_matrix(&graph);
        for a in &names {
            for b in &names {
                assert_eq!(graph.weight(a, b), graph.weight(b, a));
            }
        }
    }
    let (graph, _) = sample1();
    assert_eq!(graph.weight("C", "F"), Some(3));
    assert_eq!(graph.weight("F", "C"), Some(3));
    assert_eq!(graph.weight("A", "I"), None);
    assert_eq!(graph.weight("A", "Z"), None);
}

#[test]
fn matrix_of_a_mapping_is_symmetric() {
    for (graph, _) in all_samples() {
        let (names, matrix) = graph_matrix::graph_map_to_matrix(&graph);
        assert_eq!(matrix.len(), names.len());
        for i in 0..names.len() {
            assert_eq!(matrix[i].len(), names.len());
            for j in 0..names.len() {
                assert_eq!(matrix[i][j], matrix[j][i]);
                assert_eq!(matrix[i][j], graph.weight(&names[i], &names[j]).unwrap_or(0));
            }
        }
    }
}

#[test]
fn matrix_of_the_five_node_graph() {
    let (graph, _) = sample2();
    let (names, matrix) = graph_matrix::graph_map_to_matrix(&graph);
    assert_eq!(names, strings(&["A", "B", "C", "D", "E"]));
    let expected: GraphMatrix = vec![
        vec![0, 6, 0, 1, 0],
        vec![6, 0, 5, 2, 2],
        vec![0, 5, 0, 0, 5],
        vec![1, 2, 0, 0, 1],
        vec![0, 2, 5, 1, 0],
    ];
    assert_eq!(matrix, expected);
}

#[test]
fn list_of_a_mapping_has_every_edge_from_both_ends() {
    for (graph, _) in all_samples() {
        let list = graph_vector::graph_map_to_vector(&graph).unwrap();
        assert_eq!(list.len(), graph.len());
        for (a, neighbours) in &list {
            for (b, weight) in neighbours {
                assert_eq!(graph.weight(a, b), Some(*weight));
                let twin = list.iter().find(|row| &row.0 == b).unwrap();
                let back: Vec<&(String, u32)> =
                    twin.1.iter().filter(|pair| &pair.0 == a).collect();
                assert_eq!(back.len(), 1);
                assert_eq!(back[0].1, *weight);
            }
        }
        let (names, _) = graph_matrix::graph_map_to_matrix(&graph);
        for a in &names {
            assert_eq!(list.iter().filter(|row| &row.0 == a).count(), 1);
            for b in &names {
                let listed = list
                    .iter()
                    .find(|row| &row.0 == a)
                    .unwrap()
                    .1
                    .iter()
                    .filter(|pair| &pair.0 == b)
                    .count();
                let expected = if graph.weight(a, b).is_some() { 1 } else { 0 };
                assert_eq!(listed, expected);
            }
        }
    }
}

#[test]
fn matrix_of_a_list_is_symmetric_and_the_last_mention_counts() {
    let list: GraphVector = vec![
        ("b".to_string(), vec![("a".to_string(), 3), ("c".to_string(), 4)]),
        ("a".to_string(), vec![("b".to_string(), 7)]),
        ("c".to_string(), vec![]),
        ("a".to_string(), vec![("c".to_string(), 9), ("a".to_string(), 2)]),
    ];
    let (names, matrix) = graph_vector::graph_vector_to_matrix(&list);
    assert_eq!(names, strings(&["a", "b", "c"]));
    let expected: GraphMatrix = vec![vec![2, 7, 9], vec![7, 0, 4], vec![9, 4, 0]];
    assert_eq!(matrix, expected);
}

#[test]
fn matrix_of_a_list_from_a_mapping_is_the_matrix_of_the_mapping() {
    for (graph, _) in all_samples() {
        let list = graph_vector::graph_map_to_vector(&graph).unwrap();
        assert_eq!(
            graph_vector::graph_vector_to_matrix(&list),
            graph_matrix::graph_map_to_matrix(&graph)
        );
    }
}

#[test]
fn named_tree_round_trip() {
    for (graph, _) in all_samples() {
        let (names, _) = graph_matrix::graph_map_to_matrix(&graph);
        let named = graph_map::shortest_path_tree(&graph, "A").unwrap();
        let indexed = shortest_path_tree_from_named(&names, &named).unwrap();
        let back = graph_vector::shortest_path_tree_named_from_numbered(&names, &indexed);
        assert_eq!(back, Some(named));
    }
    let names = strings(&["x", "y", "x", "z"]);
    let named = vec![named_node("x", "z", 5, "y"), named_node("x", "x", 0, "x")];
    let indexed = shortest_path_tree_from_named(&names, &named).unwrap();
    assert_eq!(indexed, vec![node(0, 3, 5, 1), node(0, 0, 0, 0)]);
    assert_eq!(
        graph_vector::shortest_path_tree_named_from_numbered(&names, &indexed),
        Some(named)
    );
}

#[test]
fn tree_has_one_record_per_node() {
    for (graph, _) in all_samples() {
        let (names, matrix) = graph_matrix::graph_map_to_matrix(&graph);
        for source in 0..names.len() {
            let tree = graph_matrix::shortest_path_tree(&matrix, source).unwrap();
            assert_eq!(tree.len(), names.len());
            for (index, record) in tree.iter().enumerate() {
                assert_eq!(record.to, index);
                assert_eq!(record.from, source);
            }
        }
        let named = graph_map::shortest_path_tree(&graph, "A").unwrap();
        let targets: Vec<String> = named.iter().map(|r| r.to.clone()).collect();
        assert_eq!(targets, names);
    }
}

#[test]
fn source_record_has_distance_zero() {
    for (graph, _) in all_samples() {
        let (names, matrix) = graph_matrix::graph_map_to_matrix(&graph);
        for source in 0..names.len() {
            let tree = graph_matrix::shortest_path_tree(&matrix, source).unwrap();
            assert_eq!(tree[source], node(source, source, 0, source));
            let named = graph_map::shortest_path_tree(&graph, &names[source]).unwrap();
            assert_eq!(
                named[source],
                named_node(&names[source], &names[source], 0, &names[source])
            );
        }
    }
}

#[test]
fn previous_closes_the_distance() {
    for (graph, _) in all_samples() {
        let (names, matrix) = graph_matrix::graph_map_to_matrix(&graph);
        for source in 0..names.len() {
            let tree = graph_matrix::shortest_path_tree(&matrix, source).unwrap();
            for record in &tree {
                let before = tree[record.previous].distance as u64;
                let step = matrix[record.previous][record.to] as u64;
                assert_eq!(record.distance as u64, before + step);
            }
            for u in 0..names.len() {
                for v in 0..names.len() {
                    if matrix[u][v] > 0 {
                        assert!(
                            tree[v].distance as u64
                                <= tree[u].distance as u64 + matrix[u][v] as u64
                        );
                    }
                }
            }
        }
    }
}

#[test]
fn path_agrees_with_tree() {
    for (graph, _) in all_samples() {
        let (names, matrix) = graph_matrix::graph_map_to_matrix(&graph);
        for source in 0..names.len() {
            let tree = graph_matrix::shortest_path_tree(&matrix, source).unwrap();
            for to in 0..names.len() {
                let path = build_shortest_path_from_tree(to, &tree).unwrap();
                assert_eq!(path.from, source);
                assert_eq!(path.to, to);
                assert_eq!(path.distance, tree[to].distance);
                let length = path.path.len();
                assert!(length >= 2);
                assert_eq!(path.path[0], source);
                assert_eq!(path.path[length - 2], tree[to].previous);
                assert_eq!(path.path[length - 1], to);
                let mut sum: u64 = 0;
                for k in 0..length - 1 {
                    sum += matrix[path.path[k]][path.path[k + 1]] as u64;
                }
                assert_eq!(sum, tree[to].distance as u64);
            }
        }
    }
}

#[test]
fn two_runs_give_the_same_tree() {
    for (graph, _) in all_samples() {
        let (names, matrix) = graph_matrix::graph_map_to_matrix(&graph);
        for source in 0..names.len() {
            assert_eq!(
                graph_matrix::shortest_path_tree(&matrix, source),
                graph_matrix::shortest_path_tree(&matrix, source)
            );
            assert_eq!(
                graph_map::shortest_path_tree(&graph, &names[source]),
                graph_map::shortest_path_tree(&graph, &names[source])
            );
        }
    }
}

#[test]
fn matrix_list_and_mapping_give_the_same_tree() {
    for (graph, _) in all_samples() {
        let (names, matrix) = graph_matrix::graph_map_to_matrix(&graph);
        let list = graph_vector::graph_map_to_vector(&graph).unwrap();
        for source in 0..names.len() {
            let indexed = graph_matrix::shortest_path_tree(&matrix, source).unwrap();
            let by_matrix =
                graph_vector::shortest_path_tree_named_from_numbered(&names, &indexed);
            let by_mapping = graph_map::shortest_path_tree(&graph, &names[source]);
            let by_list = graph_vector::shortest_path_tree(&list, &names[source]);
            assert!(by_mapping.is_some());
            assert_eq!(by_mapping, by_matrix);
            assert_eq!(by_list, by_matrix);
        }
    }
}

#[test]
fn nine_node_scenario() {
    let (graph, _) = sample1();
    assert_eq!(graph.len(), 9);
    let tree = graph_map::shortest_path_tree(&graph, "A").unwrap();
    let distances: Vec<(String, u32)> = tree.iter().map(|r| (r.to.clone(), r.distance)).collect();
    let expected: Vec<(String, u32)> = vec![
        ("A".to_string(), 0),
        ("B".to_string(), 4),
        ("C".to_string(), 12),
        ("D".to_string(), 19),
        ("E".to_string(), 21),
        ("F".to_string(), 11),
        ("G".to_string(), 9),
        ("H".to_string(), 8),
        ("I".to_string(), 14),
    ];
    assert_eq!(distances, expected);
    assert_eq!(
        graph_map::shortest_path(&graph, "A", "I").unwrap().path,
        strings(&["A", "B", "C", "I"])
    );
    assert_eq!(
        graph_map::shortest_path(&graph, "A", "E").unwrap().path,
        strings(&["A", "H", "G", "F", "E"])
    );
}

#[test]
fn five_node_scenario() {
    let mut graph = GraphMap::new();
    add_edge_from_named_node(&mut graph, "A", "B", 6);
    add_edge_from_named_node(&mut graph, "A", "D", 1);
    add_edge_from_named_node(&mut graph, "B", "D", 2);
    add_edge_from_named_node(&mut graph, "B", "E", 2);
    add_edge_from_named_node(&mut graph, "B", "C", 5);
    add_edge_from_named_node(&mut graph, "C", "E", 5);
    add_edge_from_named_node(&mut graph, "D", "E", 1);
    assert_eq!(graph.len(), 5);
    let path = |to: &str| graph_map::shortest_path(&graph, "A", to).unwrap();
    assert_eq!(path("B").distance, 3);
    assert_eq!(path("B").path, strings(&["A", "D", "B"]));
    assert_eq!(path("C").distance, 7);
    assert_eq!(path("C").path, strings(&["A", "D", "E", "C"]));
    assert_eq!(path("D").distance, 1);
    assert_eq!(path("D").path, strings(&["A", "D"]));
    assert_eq!(path("E").distance, 2);
    assert_eq!(path("E").path, strings(&["A", "D", "E"]));
    assert_eq!(path("A").distance, 0);
    assert_eq!(path("A").path, strings(&["A", "A"]));
}

#[test]
fn absent_names_give_no_path() {
    let (graph, _) = sample1();
    assert_eq!(graph_map::shortest_path(&graph, "A", "Z"), None);
    assert_eq!(graph_map::shortest_path(&graph, "Z", "A"), None);
    assert_eq!(graph_map::shortest_path(&graph, "Z", "Y"), None);
    assert_eq!(graph_map::shortest_path(&graph, "", "A"), None);
    assert_eq!(graph_map::shortest_path_tree(&graph, "Z"), None);
    let list = graph_vector::graph_map_to_vector(&graph).unwrap();
    assert_eq!(graph_vector::shortest_path_tree(&list, "Z"), None);
}

#[test]
fn empty_graphs_give_nothing() {
    let graph = GraphMap::new();
    assert!(graph.is_empty());
    assert_eq!(graph.len(), 0);
    assert!(!graph.contains_node("A"));
    let empty_matrix: GraphMatrix = Vec::new();
    let empty_list: GraphVector = Vec::new();
    assert_eq!(
        graph_matrix::graph_map_to_matrix(&graph),
        (Vec::<String>::new(), empty_matrix.clone())
    );
    assert_eq!(graph_vector::graph_map_to_vector(&graph), Some(empty_list.clone()));
    assert_eq!(
        graph_vector::graph_vector_to_matrix(&empty_list),
        (Vec::<String>::new(), empty_matrix.clone())
    );
    assert_eq!(graph_matrix::shortest_path_tree(&empty_matrix, 0), None);
    assert_eq!(graph_map::shortest_path_tree(&graph, "A"), None);
    assert_eq!(graph_vector::shortest_path_tree(&empty_list, "A"), None);
    assert_eq!(graph_map::shortest_path(&graph, "A", "A"), None);
}

#[test]
fn source_outside_the_matrix_gives_no_tree() {
    let matrix: GraphMatrix = vec![vec![0, 1], vec![1, 0]];
    assert_eq!(graph_matrix::shortest_path_tree(&matrix, 2), None);
    assert_eq!(graph_matrix::shortest_path_tree(&matrix, usize::MAX), None);
    assert!(graph_matrix::shortest_path_tree(&matrix, 1).is_some());
}

#[test]
fn single_node_graph() {
    let matrix: GraphMatrix = vec![vec![0]];
    let tree = graph_matrix::shortest_path_tree(&matrix, 0).unwrap();
    assert_eq!(tree, vec![node(0, 0, 0, 0)]);
    let path = build_shortest_path_from_tree(0, &tree).unwrap();
    assert_eq!(path, ShortestPath { from: 0, to: 0, distance: 0, path: vec![0, 0] });
}

#[test]
fn unreachable_nodes_keep_the_sentinel() {
    let matrix: GraphMatrix = vec![
        vec![0, 5, 0, 0],
        vec![5, 0, 0, 0],
        vec![0, 0, 0, 7],
        vec![0, 0, 7, 0],
    ];
    let tree = graph_matrix::shortest_path_tree(&matrix, 0).unwrap();
    assert_eq!(
        tree,
        vec![
            node(0, 0, 0, 0),
            node(0, 1, 5, 0),
            node(0, 2, u32::MAX, 2),
            node(0, 3, u32::MAX, 3),
        ]
    );
    assert_eq!(build_shortest_path_from_tree(2, &tree), None);
    assert_eq!(build_shortest_path_from_tree(3, &tree), None);
    assert_eq!(
        build_shortest_path_from_tree(1, &tree),
        Some(ShortestPath { from: 0, to: 1, distance: 5, path: vec![0, 1] })
    );

    let mut graph = GraphMap::new();
    graph.add_edge("a", "b", 5);
    graph.add_edge("c", "d", 7);
    let named = graph_map::shortest_path_tree(&graph, "a").unwrap();
    assert_eq!(
        named,
        vec![
            named_node("a", "a", 0, "a"),
            named_node("a", "b", 5, "a"),
            named_node("a", "c", u32::MAX, "c"),
            named_node("a", "d", u32::MAX, "d"),
        ]
    );
    assert_eq!(graph_map::shortest_path(&graph, "a", "c"), None);
    assert_eq!(build_shortest_path_from_tree_named("d", &named), None);
}

#[test]
fn distances_that_do_not_fit_count_as_unreachable() {
    let big = u32::MAX - 1;
    let matrix: GraphMatrix = vec![
        vec![0, big, 0, 3],
        vec![big, 0, 1, 0],
        vec![0, 1, 0, 0],
        vec![3, 0, 0, 0],
    ];
    let tree = graph_matrix::shortest_path_tree(&matrix, 0).unwrap();
    assert_eq!(
        tree,
        vec![
            node(0, 0, 0, 0),
            node(0, 1, big, 0),
            node(0, 2, u32::MAX, 2),
            node(0, 3, 3, 0),
        ]
    );
    let matrix: GraphMatrix = vec![vec![0, u32::MAX], vec![u32::MAX, 0]];
    let tree = graph_matrix::shortest_path_tree(&matrix, 0).unwrap();
    assert_eq!(tree, vec![node(0, 0, 0, 0), node(0, 1, u32::MAX, 1)]);
}

#[test]
fn ties_go_to_the_nearest_and_then_the_first_predecessor() {
    let matrix: GraphMatrix = vec![
        vec![0, 1, 1, 0],
        vec![1, 0, 0, 1],
        vec![1, 0, 0, 1],
        vec![0, 1, 1, 0],
    ];
    let tree = graph_matrix::shortest_path_tree(&matrix, 0).unwrap();
    assert_eq!(tree[3], node(0, 3, 2, 1));

    let matrix: GraphMatrix = vec![
        vec![0, 2, 1, 0],
        vec![2, 0, 0, 1],
        vec![1, 0, 0, 2],
        vec![0, 1, 2, 0],
    ];
    let tree = graph_matrix::shortest_path_tree(&matrix, 0).unwrap();
    assert_eq!(tree[3], node(0, 3, 3, 2));

    let matrix: GraphMatrix = vec![
        vec![0, 4, 4, 8],
        vec![4, 0, 0, 4],
        vec![4, 0, 0, 4],
        vec![8, 4, 4, 0],
    ];
    let tree = graph_matrix::shortest_path_tree(&matrix, 0).unwrap();
    assert_eq!(tree[3], node(0, 3, 8, 0));
}

#[test]
fn zero_weight_is_no_edge_and_loops_do_not_count() {
    let matrix: GraphMatrix = vec![vec![9, 0, 2], vec![0, 4, 3], vec![2, 3, 1]];
    let tree = graph_matrix::shortest_path_tree(&matrix, 0).unwrap();
    assert_eq!(tree, vec![node(0, 0, 0, 0), node(0, 1, 5, 2), node(0, 2, 2, 0)]);
}

#[test]
fn directed_weights_are_followed_row_to_column() {
    let matrix: GraphMatrix = vec![vec![0, 1, 0], vec![0, 0, 1], vec![1, 0, 0]];
    let tree = graph_matrix::shortest_path_tree(&matrix, 0).unwrap();
    assert_eq!(tree, vec![node(0, 0, 0, 0), node(0, 1, 1, 0), node(0, 2, 2, 1)]);
    let tree = graph_matrix::shortest_path_tree(&matrix, 1).unwrap();
    assert_eq!(tree, vec![node(1, 0, 2, 2), node(1, 1, 0, 1), node(1, 2, 1, 1)]);
}

#[test]
fn lookup_table_keeps_the_first_position() {
    let names = strings(&["b", "a", "b", "c", "a"]);
    let lookup = name_lookup_map(&names);
    assert_eq!(lookup.get("b"), Some(0));
    assert_eq!(lookup.get("a"), Some(1));
    assert_eq!(lookup.get("c"), Some(3));
    assert_eq!(lookup.get("d"), None);
    assert_eq!(lookup.get(""), None);
    let empty = name_lookup_map(&Vec::new());
    assert_eq!(empty.get("a"), None);
}

#[test]
fn named_tree_with_an_unknown_name_has_no_indexed_form() {
    let names = strings(&["a", "b"]);
    assert_eq!(
        shortest_path_tree_from_named(&names, &vec![named_node("a", "b", 1, "a")]),
        Some(vec![node(0, 1, 1, 0)])
    );
    assert_eq!(shortest_path_tree_from_named(&names, &vec![named_node("x", "b", 1, "a")]), None);
    assert_eq!(shortest_path_tree_from_named(&names, &vec![named_node("a", "x", 1, "a")]), None);
    assert_eq!(shortest_path_tree_from_named(&names, &vec![named_node("a", "b", 1, "x")]), None);
    assert_eq!(shortest_path_tree_from_named(&names, &Vec::new()), None);
    assert_eq!(
        shortest_path_tree_from_named(&Vec::new(), &vec![named_node("a", "b", 1, "a")]),
        None
    );
}

#[test]
fn indexed_tree_with_an_unknown_index_has_no_named_form() {
    let names = strings(&["a", "b"]);
    let convert = graph_vector::shortest_path_tree_named_from_numbered;
    assert_eq!(
        convert(&names, &vec![node(0, 1, 1, 0)]),
        Some(vec![named_node("a", "b", 1, "a")])
    );
    assert_eq!(convert(&names, &vec![node(2, 1, 1, 0)]), None);
    assert_eq!(convert(&names, &vec![node(0, 2, 1, 0)]), None);
    assert_eq!(convert(&names, &vec![node(0, 1, 1, 2)]), None);
    assert_eq!(convert(&names, &Vec::new()), None);
    assert_eq!(convert(&Vec::new(), &vec![node(0, 0, 0, 0)]), None);
}

#[test]
fn named_paths_to_indexed_paths() {
    let names = strings(&["a", "b", "c"]);
    let path = |from: &str, to: &str, distance: u32, nodes: &[&str]| ShortestPathNamed {
        from: from.to_string(),
        to: to.to_string(),
        distance,
        path: strings(nodes),
    };
    assert_eq!(
        shortest_paths_from_named(&names, &vec![path("a", "c", 7, &["a", "b", "c"])]),
        Some(vec![ShortestPath { from: 0, to: 2, distance: 7, path: vec![0, 1, 2] }])
    );
    assert_eq!(
        shortest_paths_from_named(&names, &vec![path("a", "c", 7, &[])]),
        Some(vec![ShortestPath { from: 0, to: 2, distance: 7, path: vec![] }])
    );
    assert_eq!(shortest_paths_from_named(&names, &vec![path("a", "c", 7, &["a", "x"])]), None);
    assert_eq!(shortest_paths_from_named(&names, &vec![path("x", "c", 7, &["a"])]), None);
    assert_eq!(shortest_paths_from_named(&names, &vec![path("a", "x", 7, &["a"])]), None);
    assert_eq!(shortest_paths_from_named(&names, &Vec::new()), None);
    assert_eq!(shortest_paths_from_named(&Vec::new(), &vec![path("a", "c", 7, &["a"])]), None);
}

#[test]
fn tree_records_from_paths() {
    let paths = vec![
        ShortestPath { from: 0, to: 0, distance: 0, path: vec![0, 0] },
        ShortestPath { from: 0, to: 3, distance: 9, path: vec![0, 2, 1, 3] },
    ];
    assert_eq!(
        build_path_tree_nodes_from_path(&paths),
        vec![node(0, 0, 0, 0), node(0, 3, 9, 1)]
    );
    let (_, expected) = sample2();
    assert_eq!(
        build_path_tree_nodes_from_path_named(&expected),
        vec![
            named_node("A", "A", 0, "A"),
            named_node("A", "B", 3, "D"),
            named_node("A", "C", 7, "E"),
            named_node("A", "D", 1, "A"),
            named_node("A", "E", 2, "D"),
        ]
    );
}

#[test]
fn walk_that_never_meets_the_source_gives_no_path() {
    let tree = vec![node(0, 0, 0, 0), node(0, 1, 4, 2), node(0, 2, 4, 1), node(0, 3, 1, 0)];
    assert_eq!(build_shortest_path_from_tree(1, &tree), None);
    assert_eq!(build_shortest_path_from_tree(2, &tree), None);
    assert_eq!(
        build_shortest_path_from_tree(3, &tree),
        Some(ShortestPath { from: 0, to: 3, distance: 1, path: vec![0, 3] })
    );
    let named = vec![
        named_node("s", "s", 0, "s"),
        named_node("s", "p", 4, "q"),
        named_node("s", "q", 4, "p"),
    ];
    assert_eq!(build_shortest_path_from_tree_named("p", &named), None);
}

#[test]
fn walk_uses_the_first_record_of_a_node() {
    let tree = vec![
        node(7, 3, 6, 1),
        node(7, 1, 2, 7),
        node(7, 1, 9, 3),
        node(7, 7, 0, 7),
    ];
    assert_eq!(
        build_shortest_path_from_tree(3, &tree),
        Some(ShortestPath { from: 7, to: 3, distance: 6, path: vec![7, 1, 3] })
    );
    let chain = vec![node(0, 0, 0, 0), node(0, 1, 1, 0), node(0, 2, 2, 1), node(0, 3, 3, 2)];
    assert_eq!(
        build_shortest_path_from_tree(3, &chain),
        Some(ShortestPath { from: 0, to: 3, distance: 3, path: vec![0, 1, 2, 3] })
    );
}

#[test]
fn adding_an_edge_twice_keeps_the_last_weight() {
    let mut graph = GraphMap::new();
    graph.add_edge("a", "b", 4);
    assert_eq!(graph.len(), 2);
    assert_eq!(graph.weight("a", "b"), Some(4));
    assert_eq!(graph.weight("b", "a"), Some(4));
    graph.add_edge("b", "a", 9);
    assert_eq!(graph.len(), 2);
    assert_eq!(graph.weight("a", "b"), Some(9));
    assert_eq!(graph.weight("b", "a"), Some(9));
    graph.add_edge("c", "c", 1);
    assert_eq!(graph.len(), 3);
    assert_eq!(graph.weight("c", "c"), Some(1));
    assert!(graph.contains_node("c"));
    assert!(!graph.contains_node("d"));
    let expected: GraphVector = vec![
        ("a".to_string(), vec![("b".to_string(), 9)]),
        ("b".to_string(), vec![("a".to_string(), 9)]),
        ("c".to_string(), vec![("c".to_string(), 1)]),
    ];
    assert_eq!(graph.rows(), &expected);
}

#[test]
fn samples_are_built_from_their_edges() {
    let edges = vec![("A", "B", 6), ("A", "D", 1), ("B", "D", 2)];
    let graph = graph_from_edges(&edges);
    assert_eq!(graph.len(), 3);
    assert_eq!(graph.weight("D", "B"), Some(2));
    let paths = paths_from_tuples(&vec![("A", "B", 3, vec!["A", "D", "B"])]);
    assert_eq!(
        paths,
        vec![ShortestPathNamed {
            from: "A".to_string(),
            to: "B".to_string(),
            distance: 3,
            path: strings(&["A", "D", "B"]),
        }]
    );
    assert_eq!(sample1().0.len(), 9);
    assert_eq!(sample2().0.len(), 5);
    assert_eq!(sample3().0.len(), 6);
    assert_eq!(sample4().0.len(), 6);
    assert_eq!(sample4().1[4].path, strings(&["A", "C", "F", "E"]));
    assert_eq!(sample3().1[3].distance, 13);
}

#[test]
fn square_matrices_are_told_from_ragged_ones() {
    let empty: GraphMatrix = Vec::new();
    assert!(graph_matrix::is_square_matrix(&empty));
    assert!(graph_matrix::is_square_matrix(&vec![vec![0]]));
    assert!(graph_matrix::is_square_matrix(&vec![vec![0, 1], vec![1, 0]]));
    assert!(!graph_matrix::is_square_matrix(&vec![vec![0, 1]]));
    assert!(!graph_matrix::is_square_matrix(&vec![vec![0, 1], vec![1]]));
    assert!(!graph_matrix::is_square_matrix(&vec![vec![0, 1], vec![1, 0, 2]]));
    assert!(!graph_matrix::is_square_matrix(&vec![vec![]]));
    for (graph, _) in all_samples() {
        let (_, matrix) = graph_matrix::graph_map_to_matrix(&graph);
        assert!(graph_matrix::is_square_matrix(&matrix));
    }
}

#[test]
fn closed_lists_are_told_from_open_ones() {
    let empty: GraphVector = Vec::new();
    assert!(graph_vector::is_closed_list(&empty));
    let closed: GraphVector = vec![
        ("a".to_string(), vec![("b".to_string(), 1), ("a".to_string(), 2)]),
        ("b".to_string(), vec![]),
    ];
    assert!(graph_vector::is_closed_list(&closed));
    let open: GraphVector = vec![
        ("a".to_string(), vec![("b".to_string(), 1), ("c".to_string(), 2)]),
        ("b".to_string(), vec![("a".to_string(), 1)]),
    ];
    assert!(!graph_vector::is_closed_list(&open));
    for (graph, _) in all_samples() {
        let list = graph_vector::graph_map_to_vector(&graph).unwrap();
        assert!(graph_vector::is_closed_list(&list));
    }
}

#[test]
fn trees_with_missing_records_are_told_apart() {
    let tree = vec![node(0, 0, 0, 0), node(0, 1, 4, 0), node(0, 2, 6, 1), node(0, 3, 9, 5)];
    assert!(tree_resolves(0, &tree));
    assert!(tree_resolves(1, &tree));
    assert!(tree_resolves(2, &tree));
    assert!(!tree_resolves(3, &tree));
    assert!(!tree_resolves(4, &tree));
    let cyclic = vec![node(0, 1, 4, 2), node(0, 2, 4, 1)];
    assert!(tree_resolves(1, &cyclic));
    assert_eq!(build_shortest_path_from_tree(1, &cyclic), None);
    assert!(!tree_resolves(0, &Vec::new()));

    let named = vec![
        named_node("s", "s", 0, "s"),
        named_node("s", "a", 4, "s"),
        named_node("s", "b", 6, "a"),
        named_node("s", "c", 9, "x"),
    ];
    assert!(named_tree_resolves("s", &named));
    assert!(named_tree_resolves("b", &named));
    assert!(!named_tree_resolves("c", &named));
    assert!(!named_tree_resolves("x", &named));
    assert!(!named_tree_resolves("s", &Vec::new()));
    for (graph, _) in all_samples() {
        let (names, _) = graph_matrix::graph_map_to_matrix(&graph);
        let tree = graph_map::shortest_path_tree(&graph, "A").unwrap();
        for name in &names {
            assert!(named_tree_resolves(name, &tree));
        }
    }
}
