use shortest_path::dijkstra::graph_matrix::{graph_map_to_matrix, shortest_path_tree};
use shortest_path::dijkstra::utils::{
    build_path_tree_nodes_from_path, build_shortest_path_from_tree, shortest_paths_from_named,
};
use shortest_path::graph_samples;
use shortest_path::graph_type::{GraphMap, ShortestPathNamed};

#[test]
fn graph_matrix_graph_matrix_sample1_test() {
    graph_matrix_graph_matrix_test(graph_samples::sample1);
}

#[test]
fn graph_matrix_graph_matrix_sample2_test() {
    graph_matrix_graph_matrix_test(graph_samples::sample2);
}

#[test]
fn graph_matrix_graph_matrix_sample3_test() {
    graph_matrix_graph_matrix_test(graph_samples::sample3);
}

#[test]
fn graph_matrix_graph_matrix_sample4_test() {
    graph_matrix_graph_matrix_test(graph_samples::sample4);
}

fn graph_matrix_graph_matrix_test(fn_test_input: fn() -> (GraphMap, Vec<ShortestPathNamed>)) {
    let (graph_map, expected_shortest_paths_named) = fn_test_input();
    assert!(!graph_map.is_empty());
    assert!(!expected_shortest_paths_named.is_empty());

    // convert named vectors into numbered versions
    let (names, graph_matrix) = graph_map_to_matrix(&graph_map);
    assert!(!names.is_empty());
    assert_eq!(names.len(), graph_map.len());

    assert!(!graph_matrix.is_empty());
    assert_eq!(graph_matrix.len(), names.len());

    let option_expected_shortest_paths =
        shortest_paths_from_named(&names, &expected_shortest_paths_named);
    assert!(option_expected_shortest_paths.is_some());
    let expected_shortest_paths = option_expected_shortest_paths.unwrap();
    let expected_shortest_path_tree = build_path_tree_nodes_from_path(&expected_shortest_paths);

    // call the core function
    let option_shortest_path_tree =
        shortest_path_tree(&graph_matrix, expected_shortest_path_tree[0].from);
    assert!(option_shortest_path_tree.is_some());
    let shortest_path_tree = option_shortest_path_tree.unwrap();
    assert_eq!(shortest_path_tree, expected_shortest_path_tree);

    // check builded and expected paths
    for expected_shortest_path in expected_shortest_paths {
        let option_shortest_path =
            build_shortest_path_from_tree(expected_shortest_path.to, &shortest_path_tree);
        assert!(option_shortest_path.is_some());
        let shortest_path = option_shortest_path.unwrap();
        assert_eq!(shortest_path, expected_shortest_path);
    }
}
