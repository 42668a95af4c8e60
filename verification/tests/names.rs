use shortest_path::names::{compare_names, find_name, insert_sorted, same_name, NameOrder};

#[test]
fn names_compare_by_character() {
    assert_eq!(compare_names("A", "B"), NameOrder::Before);
    assert_eq!(compare_names("B", "A"), NameOrder::After);
    assert_eq!(compare_names("A", "A"), NameOrder::Same);
    assert_eq!(compare_names("", ""), NameOrder::Same);
    assert_eq!(compare_names("", "A"), NameOrder::Before);
    assert_eq!(compare_names("A", ""), NameOrder::After);
    assert_eq!(compare_names("A", "AB"), NameOrder::Before);
    assert_eq!(compare_names("AB", "A"), NameOrder::After);
    assert_eq!(compare_names("Z", "a"), NameOrder::Before);
    assert_eq!(compare_names("node10", "node9"), NameOrder::Before);
    assert_eq!(compare_names("z", "é"), NameOrder::Before);
    assert_eq!(compare_names("é", "€"), NameOrder::Before);
    assert_eq!(compare_names("€", "😀"), NameOrder::Before);
}

#[test]
fn names_compare_as_strings_do() {
    let names = ["", "a", "ab", "b", "B", "é", "e", "€uro", "😀", "node", "node1", "Node"];
    for a in names {
        for b in names {
            let expected = if a < b {
                NameOrder::Before
            } else if a == b {
                NameOrder::Same
            } else {
                NameOrder::After
            };
            assert_eq!(compare_names(a, b), expected);
            assert_eq!(same_name(a, b), a == b);
        }
    }
}

#[test]
fn sorted_insertion_keeps_order_and_skips_known_names() {
    let mut table: Vec<String> = Vec::new();
    for name in ["m", "c", "x", "c", "a", "m", "z", "ab", ""] {
        insert_sorted(&mut table, name);
    }
    let expected: Vec<String> =
        ["", "a", "ab", "c", "m", "x", "z"].iter().map(|n| n.to_string()).collect();
    assert_eq!(table, expected);
}

#[test]
fn find_name_gives_the_first_position() {
    let names: Vec<String> = ["b", "a", "b"].iter().map(|n| n.to_string()).collect();
    assert_eq!(find_name(&names, "b"), Some(0));
    assert_eq!(find_name(&names, "a"), Some(1));
    assert_eq!(find_name(&names, "c"), None);
    assert_eq!(find_name(&Vec::new(), "a"), None);
}
