use shortest_path::dijkstra::graph_map::{shortest_path, shortest_path_tree};
use shortest_path::dijkstra::utils::{
    build_path_tree_nodes_from_path_named, build_shortest_path_from_tree_named,
};
use shortest_path::graph_samples;
use shortest_path::graph_type::{GraphMap, ShortestPathNamed};

#[test]
fn graph_map_graph_map_sample1_test() {
    graph_map_graph_map_test(graph_samples::sample1)
}

#[test]
fn graph_map_graph_map_sample2_test() {
    graph_map_graph_map_test(graph_samples::sample2)
}

#[test]
fn graph_map_graph_map_sample3_test() {
    graph_map_graph_map_test(graph_samples::sample3)
}

#[test]
fn graph_map_graph_map_sample4_test() {
    graph_map_graph_map_test(graph_samples::sample4)
}

fn graph_map_graph_map_test(fn_test_input: fn() -> (GraphMap, Vec<ShortestPathNamed>)) {
    let (graph_map, expected_shortest_paths) = fn_test_input();
    assert!(!graph_map.is_empty());
    assert!(!expected_shortest_paths.is_empty());
    assert_eq!(expected_shortest_paths.len(), graph_map.len());

    let option_shortest_path_tree =
        shortest_path_tree(&graph_map, &expected_shortest_paths[0].from);
    assert!(option_shortest_path_tree.is_some());

    let shortest_path_tree = option_shortest_path_tree.unwrap();
    let expected_shortest_path_tree =
        build_path_tree_nodes_from_path_named(&expected_shortest_paths);
    assert_eq!(shortest_path_tree, expected_shortest_path_tree);

    for expected_shortest_path in expected_shortest_paths {
        let shortest_path =
            build_shortest_path_from_tree_named(&expected_shortest_path.to, &shortest_path_tree);
        assert!(shortest_path.is_some());
        assert_eq!(shortest_path.unwrap(), expected_shortest_path);
    }
}

#[test]
fn graph_map_shortest_path_test() {
    let (graph, _) = graph_samples::sample1();
    assert!(!graph.is_empty());

    let from = "A";

    let mut to = "D";
    let shortest_path_result = shortest_path(&graph, &from, &to);
    assert_eq!(
        shortest_path_result.unwrap(),
        ShortestPathNamed {
            from: from.to_string(),
            to: to.to_string(),
            distance: 19,
            path: ["A", "B", "C", "D"].iter().map(|n| n.to_string()).collect()
        }
    );

    to = "E";
    let shortest_path_result = shortest_path(&graph, &from, &to);
    assert_eq!(
        shortest_path_result.unwrap(),
        ShortestPathNamed {
            from: from.to_string(),
            to: to.to_string(),
            distance: 21,
            path: ["A", "H", "G", "F", "E"]
                .iter()
                .map(|n| n.to_string())
                .collect()
        }
    );

    to = "I";
    let shortest_path_result = shortest_path(&graph, &from, &to);
    assert_eq!(
        shortest_path_result.unwrap(),
        ShortestPathNamed {
            from: from.to_string(),
            to: to.to_string(),
            distance: 14,
            path: ["A", "B", "C", "I"].iter().map(|n| n.to_string()).collect()
        }
    );
}
