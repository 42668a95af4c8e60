use serde_json::Value;
use shortest_path::graph_samples::{sample2, sample3, sample4};
use shortest_path::graph_type::ShortestPathNamed;

fn paths_from_json(text: &str) -> Vec<ShortestPathNamed> {
    let value: Value = serde_json::from_str(text).unwrap();
    value
        .as_array()
        .unwrap()
        .iter()
        .map(|item| ShortestPathNamed {
            from: item["from"].as_str().unwrap().to_string(),
            to: item["to"].as_str().unwrap().to_string(),
            distance: item["distance"].as_u64().unwrap() as u32,
            path: item["path"]
                .as_array()
                .unwrap()
                .iter()
                .map(|name| name.as_str().unwrap().to_string())
                .collect(),
        })
        .collect()
}

#[test]
fn second_sample_agrees_with_its_json_form() {
    let input_shortest_paths = r#"
        [
            {"from": "A", "to": "A", "distance": 0, "path": ["A", "A"]},
            {"from": "A", "to": "B", "distance": 3, "path": ["A", "D", "B"]},
            {"from": "A", "to": "C", "distance": 7, "path": ["A", "D", "E", "C"]},
            {"from": "A", "to": "D", "distance": 1, "path": ["A", "D"]},
            {"from": "A", "to": "E", "distance": 2, "path": ["A", "D", "E"]}
        ]
    "#;
    assert_eq!(sample2().1, paths_from_json(input_shortest_paths));
}

#[test]
fn third_sample_agrees_with_its_json_form() {
    let input_shortest_paths = r#"
        [
            {"from": "A", "to": "A", "distance": 0, "path": ["A", "A"]},
            {"from": "A", "to": "B", "distance": 4, "path": ["A", "B"]},
            {"from": "A", "to": "C", "distance": 5, "path": ["A", "C"]},
            {"from": "A", "to": "D", "distance": 13,"path": ["A", "B", "D"]},
            {"from": "A", "to": "E", "distance": 8, "path": ["A", "C", "E"]},
            {"from": "A", "to": "F", "distance": 14,"path": ["A", "C", "E", "F"]}
        ]
    "#;
    assert_eq!(sample3().1, paths_from_json(input_shortest_paths));
}

#[test]
fn fourth_sample_agrees_with_its_json_form() {
    let input_shortest_paths = r#"
        [
            {"from": "A", "to": "A", "distance": 0,  "path": ["A", "A"]},
            {"from": "A", "to": "B", "distance": 7,  "path": ["A", "B"]},
            {"from": "A", "to": "C", "distance": 9,  "path": ["A", "C"]},
            {"from": "A", "to": "D", "distance": 20, "path": ["A", "C", "D"]},
            {"from": "A", "to": "E", "distance": 20, "path": ["A", "C", "F", "E"]},
            {"from": "A", "to": "F", "distance": 11, "path": ["A", "C", "F"]}
        ]
    "#;
    assert_eq!(sample4().1, paths_from_json(input_shortest_paths));
}
