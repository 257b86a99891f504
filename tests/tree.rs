use file_tree::{FNode, FTree, SnapshotError};

fn sample() -> FNode {
    let mut root = FNode::new("./ex".to_string(), false, 100);
    root.add(FNode::new("./ex/f".to_string(), true, 200));
    let mut sub = FNode::new("./ex/d".to_string(), false, 50);
    sub.add(FNode::new("./ex/d/g".to_string(), true, 0));
    root.add(sub);
    root
}

fn is_malformed(s: &str) -> bool {
    matches!(FTree::from_string(s.to_string()), Err(SnapshotError::Malformed(_)))
}

#[test]
fn single_file_is_one_leaf() {
    let t = FTree::new(FNode::new("a.txt".to_string(), true, 5));
    assert_eq!(t.as_string(), "a.txt:5;");
}

#[test]
fn empty_directory_has_empty_child_list() {
    let d = FTree::new(FNode::new("d".to_string(), false, 7));
    let f = FTree::new(FNode::new("d".to_string(), true, 7));
    assert_eq!(d.as_string(), "d:7,;");
    assert_ne!(d.as_string(), f.as_string());
}

#[test]
fn nested_tree_text() {
    let t = FTree::new(sample());
    assert_eq!(t.as_string(), "./ex:100,./ex/f:200;./ex/d:50,./ex/d/g:0;;;");
}

#[test]
fn latest_modified_is_the_maximum() {
    let t = FTree::new(sample());
    assert_eq!(t.modified, 200);
    assert_eq!(FTree::new(FNode::new("x".to_string(), true, 9)).modified, 9);
}

#[test]
fn delimiters_in_paths_are_escaped() {
    let t = FTree::new(FNode::new("a:b,c;d\\e".to_string(), true, 1));
    let s = t.as_string();
    assert_eq!(s, "a\\:b\\,c\\;d\\\\e:1;");
    let back = FTree::from_string(s).unwrap();
    assert_eq!(back.root.path, "a:b,c;d\\e");
}

#[test]
fn round_trip_keeps_every_field() {
    let t = FTree::new(sample());
    let s = t.as_string();
    let back = FTree::from_string(s.clone()).unwrap();
    assert_eq!(back.as_string(), s);
    assert_eq!(back.modified, 200);
    assert_eq!(back.root.path, "./ex");
    assert!(!back.root.is_f);
    assert_eq!(back.root.children.len(), 2);
    assert_eq!(back.root.children[0].path, "./ex/f");
    assert!(back.root.children[0].is_f);
    assert_eq!(back.root.children[0].modified, 200);
    assert_eq!(back.root.children[1].children[0].path, "./ex/d/g");
    assert_eq!(back.root.children[1].children[0].modified, 0);
}

#[test]
fn round_trip_of_empty_directory_and_empty_path() {
    let back = FTree::from_string("d:7,;".to_string()).unwrap();
    assert!(!back.root.is_f);
    assert!(back.root.children.is_empty());
    let back = FTree::from_string(":0;".to_string()).unwrap();
    assert_eq!(back.root.path, "");
    assert!(back.root.is_f);
}

#[test]
fn serialize_twice_is_identical() {
    let t = FTree::new(sample());
    assert_eq!(t.as_string(), t.as_string());
}

#[test]
fn touched_file_changes_text() {
    let before = FTree::new(sample());
    let mut root = FNode::new("./ex".to_string(), false, 100);
    root.add(FNode::new("./ex/f".to_string(), true, 201));
    let mut sub = FNode::new("./ex/d".to_string(), false, 50);
    sub.add(FNode::new("./ex/d/g".to_string(), true, 0));
    root.add(sub);
    let after = FTree::new(root);
    assert_ne!(before.as_string(), after.as_string());
    assert_eq!(before.as_string(), FTree::new(sample()).as_string());
}

#[test]
fn largest_timestamp_round_trips() {
    let s = "p:18446744073709551615;";
    let t = FTree::from_string(s.to_string()).unwrap();
    assert_eq!(t.root.modified, u64::MAX);
    assert_eq!(t.as_string(), s);
}

#[test]
fn malformed_inputs_are_rejected() {
    assert!(is_malformed(""));
    assert!(is_malformed("a"));
    assert!(is_malformed("a:"));
    assert!(is_malformed("a:;"));
    assert!(is_malformed("a:x;"));
    assert!(is_malformed("a:01;"));
    assert!(is_malformed("a:1"));
    assert!(is_malformed("a:1,"));
    assert!(is_malformed("a:1,b:2;"));
    assert!(is_malformed("a:1;extra"));
    assert!(is_malformed("a,b:1;"));
    assert!(is_malformed("a\\q:1;"));
    assert!(is_malformed("a:18446744073709551616;"));
}

#[test]
fn missing_timestamp_falls_back_to_now() {
    assert_eq!(FNode::node_time(Some(1703885422), 1800000000), 1703885422);
    assert_eq!(FNode::node_time(None, 1800000000), 1800000000);
}
