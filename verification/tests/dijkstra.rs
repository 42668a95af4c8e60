use shortest_path::dijkstra::utils::{
    build_path_tree_nodes_from_path, build_path_tree_nodes_from_path_named,
};
use shortest_path::dijkstra::{
    build_shortest_path_from_tree, build_shortest_path_from_tree_named, graph_map_to_matrix,
    graph_map_to_vector, shortest_path_from_map_graph, shortest_path_tree,
    shortest_path_tree_from_map_graph, shortest_path_tree_from_vector_graph,
    shortest_paths_from_named, test_sample1, test_sample2, test_sample3, test_sample4, GraphMap,
    ShortestPathNamed,
};

#[test]
fn dijkstra_graph_matrix_sample1_test() {
    dijkstra_graph_matrix_test(test_sample1);
}

#[test]
fn dijkstra_graph_matrix_sample2_test() {
    dijkstra_graph_matrix_test(test_sample2);
}

#[test]
fn dijkstra_graph_matrix_sample3_test() {
    dijkstra_graph_matrix_test(test_sample3);
}

#[test]
fn dijkstra_graph_matrix_sample4_test() {
    dijkstra_graph_matrix_test(test_sample4);
}

fn dijkstra_graph_matrix_test(fn_test_input: fn() -> (GraphMap, Vec<ShortestPathNamed>)) {
    let (graph_map, expected_shortest_paths_named) = fn_test_input();
    assert!(!graph_map.is_empty());
    assert!(!expected_shortest_paths_named.is_empty());

    // convert named vectors into numbered versions
    let (names, graph_matrix) = graph_map_to_matrix(&graph_map);
    assert!(!names.is_empty());
    assert_eq!(names.len(), graph_map.len());

    assert!(!graph_matrix.is_empty());
    assert_eq!(graph_matrix.len(), names.len());

    let option_expected_shortest_paths =
        shortest_paths_from_named(&names, &expected_shortest_paths_named);
    assert!(option_expected_shortest_paths.is_some());
    let expected_shortest_paths = option_expected_shortest_paths.unwrap();
    let expected_shortest_path_tree = build_path_tree_nodes_from_path(&expected_shortest_paths);

    // call the core function
    let option_shortest_path_tree =
        shortest_path_tree(&graph_matrix, expected_shortest_path_tree[0].from);
    assert!(option_shortest_path_tree.is_some());
    let shortest_path_tree = option_shortest_path_tree.unwrap();
    assert_eq!(shortest_path_tree, expected_shortest_path_tree);

    // check builded and expected paths
    for expected_shortest_path in expected_shortest_paths {
        let option_shortest_path =
            build_shortest_path_from_tree(expected_shortest_path.to, &shortest_path_tree);
        assert!(option_shortest_path.is_some());
        let shortest_path = option_shortest_path.unwrap();
        assert_eq!(shortest_path, expected_shortest_path);
    }
}

#[test]
fn dijkstra_graph_vector_sample1_test() {
    dijkstra_graph_vector_test(test_sample1);
}

#[test]
fn dijkstra_graph_vector_sample2_test() {
    dijkstra_graph_vector_test(test_sample2);
}

#[test]
fn dijkstra_graph_vector_sample3_test() {
    dijkstra_graph_vector_test(test_sample3);
}

#[test]
fn dijkstra_graph_vector_sample4_test() {
    dijkstra_graph_vector_test(test_sample4);
}

fn dijkstra_graph_vector_test(fn_test_input: fn() -> (GraphMap, Vec<ShortestPathNamed>)) {
    let (graph_map, expected_shortest_paths) = fn_test_input();
    assert!(!graph_map.is_empty());
    assert!(!expected_shortest_paths.is_empty());
    assert_eq!(expected_shortest_paths.len(), graph_map.len());

    let graph_vector = graph_map_to_vector(&graph_map).unwrap();
    assert!(!graph_vector.is_empty());

    let option_shortest_path_tree =
        shortest_path_tree_from_vector_graph(&graph_vector, &expected_shortest_paths[0].from);
    assert!(option_shortest_path_tree.is_some());

    let shortest_path_tree = option_shortest_path_tree.unwrap();
    let expected_shortest_path_tree =
        build_path_tree_nodes_from_path_named(&expected_shortest_paths);
    assert_eq!(shortest_path_tree, expected_shortest_path_tree);

    for expected_shortest_path in expected_shortest_paths {
        let shortest_path =
            build_shortest_path_from_tree_named(&expected_shortest_path.to, &shortest_path_tree);
        assert!(shortest_path.is_some());
        assert_eq!(shortest_path.unwrap(), expected_shortest_path);
    }
}

#[test]
fn dijkstra_graph_map_sample1_test() {
    dijkstra_graph_map_test(test_sample1)
}

#[test]
fn dijkstra_graph_map_sample2_test() {
    dijkstra_graph_map_test(test_sample2)
}

#[test]
fn dijkstra_graph_map_sample3_test() {
    dijkstra_graph_map_test(test_sample3)
}

#[test]
fn dijkstra_graph_map_sample4_test() {
    dijkstra_graph_map_test(test_sample4)
}

fn dijkstra_graph_map_test(fn_test_input: fn() -> (GraphMap, Vec<ShortestPathNamed>)) {
    let (graph_map, expected_shortest_paths) = fn_test_input();
    assert!(!graph_map.is_empty());
    assert!(!expected_shortest_paths.is_empty());
    assert_eq!(expected_shortest_paths.len(), graph_map.len());

    let option_shortest_path_tree =
        shortest_path_tree_from_map_graph(&graph_map, &expected_shortest_paths[0].from);
    assert!(option_shortest_path_tree.is_some());

    let shortest_path_tree = option_shortest_path_tree.unwrap();
    let expected_shortest_path_tree =
        build_path_tree_nodes_from_path_named(&expected_shortest_paths);
    assert_eq!(shortest_path_tree, expected_shortest_path_tree);

    for expected_shortest_path in expected_shortest_paths {
        let shortest_path =
            build_shortest_path_from_tree_named(&expected_shortest_path.to, &shortest_path_tree);
        assert!(shortest_path.is_some());
        assert_eq!(shortest_path.unwrap(), expected_shortest_path);
    }
}

#[test]
fn dijkstra_shortest_path_test() {
    let (graph, _) = test_sample1();
    assert!(!graph.is_empty());

    let from = "A";

    let mut to = "D";
    let shortest_path = shortest_path_from_map_graph(&graph, &from, &to);
    assert_eq!(
        shortest_path.unwrap(),
        ShortestPathNamed {
            from: from.to_string(),
            to: to.to_string(),
            distance: 19,
            path: ["A", "B", "C", "D"].iter().map(|n| n.to_string()).collect()
        }
    );

    to = "E";
    let shortest_path = shortest_path_from_map_graph(&graph, &from, &to);
    assert_eq!(
        shortest_path.unwrap(),
        ShortestPathNamed {
            from: from.to_string(),
            to: to.to_string(),
            distance: 21,
            path: ["A", "H", "G", "F", "E"]
                .iter()
                .map(|n| n.to_string())
                .collect()
        }
    );

    to = "I";
    let shortest_path = shortest_path_from_map_graph(&graph, &from, &to);
    assert_eq!(
        shortest_path.unwrap(),
        ShortestPathNamed {
            from: from.to_string(),
            to: to.to_string(),
            distance: 14,
            path: ["A", "B", "C", "I"].iter().map(|n| n.to_string()).collect()
        }
    );
}
