use filetools::cf::{count_files, count_files_only, count_files_recurse, Node};

fn dir(entries: Vec<Node>) -> Node {
    Node::Dir(Some(entries))
}

fn resources_a() -> Option<Vec<Node>> {
    Some(vec![Node::File, Node::File, dir(vec![])])
}

fn resources_b() -> Option<Vec<Node>> {
    Some(vec![
        Node::File,
        dir(vec![Node::File, Node::File, Node::File]),
        Node::File,
        dir(vec![Node::File]),
    ])
}

#[test]
fn main_test_count_files_recurse() {
    assert_eq!(Some(0), count_files(&Some(vec![]), true, false));
    assert_eq!(Some(2), count_files(&resources_a(), true, true));
    assert_eq!(Some(3), count_files(&resources_a(), true, false));
    assert_eq!(Some(6), count_files(&resources_b(), true, true));
    assert_eq!(Some(8), count_files(&resources_b(), true, false));
}

#[test]
fn main_test_count_files() {
    assert_eq!(Some(0), count_files(&Some(vec![]), false, false));
    assert_eq!(Some(2), count_files(&resources_a(), false, true));
    assert_eq!(Some(3), count_files(&resources_a(), false, false));
    assert_eq!(Some(2), count_files(&resources_b(), false, true));
    assert_eq!(Some(4), count_files(&resources_b(), false, false));
    assert_eq!(None, count_files(&None, false, false));
}

#[test]
fn counts_of_odd_trees() {
    let tree = Some(vec![Node::Other, Node::Dir(None), dir(vec![Node::Other, dir(vec![Node::File])])]);
    assert_eq!(Some(6), count_files(&tree, true, false));
    assert_eq!(Some(3), count_files(&tree, true, true));
    assert_eq!(Some(3), count_files(&tree, false, false));
    assert_eq!(Some(0), count_files(&tree, false, true));
    assert_eq!(None, count_files(&None, true, true));
    assert_eq!(Some(16), count_files_recurse(&tree, false, 10));
    assert_eq!(None, count_files_recurse(&None, false, 10));
    assert_eq!(1, count_files_only(&vec![Node::File, Node::Other, Node::Dir(None)]));
}
