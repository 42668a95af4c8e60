use shortest_path::dijkstra::graph_vector::{graph_map_to_vector, shortest_path_tree};
use shortest_path::dijkstra::utils::{
    build_path_tree_nodes_from_path_named, build_shortest_path_from_tree_named,
};
use shortest_path::graph_samples;
use shortest_path::graph_type::{GraphMap, ShortestPathNamed};

#[test]
fn graph_vector_graph_vector_sample1_test() {
    graph_vector_graph_vector_test(graph_samples::sample1);
}

#[test]
fn graph_vector_graph_vector_sample2_test() {
    graph_vector_graph_vector_test(graph_samples::sample2);
}

#[test]
fn graph_vector_graph_vector_sample3_test() {
    graph_vector_graph_vector_test(graph_samples::sample3);
}

#[test]
fn graph_vector_graph_vector_sample4_test() {
    graph_vector_graph_vector_test(graph_samples::sample4);
}

fn graph_vector_graph_vector_test(fn_test_input: fn() -> (GraphMap, Vec<ShortestPathNamed>)) {
    let (graph_map, expected_shortest_paths) = fn_test_input();
    assert!(!graph_map.is_empty());
    assert!(!expected_shortest_paths.is_empty());
    assert_eq!(expected_shortest_paths.len(), graph_map.len());

    let graph_vector = graph_map_to_vector(&graph_map).unwrap();
    assert!(!graph_vector.is_empty());

    let option_shortest_path_tree =
        shortest_path_tree(&graph_vector, &expected_shortest_paths[0].from);
    assert!(option_shortest_path_tree.is_some());

    let shortest_path_tree = option_shortest_path_tree.unwrap();
    let expected_shortest_path_tree =
        build_path_tree_nodes_from_path_named(&expected_shortest_paths);
    assert_eq!(shortest_path_tree, expected_shortest_path_tree);

    for expected_shortest_path in expected_shortest_paths {
        let shortest_path = build_shortest_path_from_tree_named(
            &expected_shortest_path.to,
            &shortest_path_tree,
        );
        assert!(shortest_path.is_some());
        assert_eq!(shortest_path.unwrap(), expected_shortest_path);
    }
}
