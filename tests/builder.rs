use file_tree::builder::Builder;
use file_tree::SnapshotError;

#[test]
fn walk_events_build_the_tree() {
    let mut b = Builder::new();
    b.entry("./ex".to_string(), false, 100);
    b.entry("./ex/f".to_string(), true, 200);
    b.entry("./ex/d".to_string(), false, 50);
    b.entry("./ex/d/g".to_string(), true, 0);
    b.close_dir();
    b.close_dir();
    let t = b.finish().unwrap();
    assert_eq!(t.as_string(), "./ex:100,./ex/f:200;./ex/d:50,./ex/d/g:0;;;");
    assert_eq!(t.modified, 200);
}

#[test]
fn single_file_walk() {
    let mut b = Builder::new();
    b.entry("a.txt".to_string(), true, 5);
    assert_eq!(b.finish().unwrap().as_string(), "a.txt:5;");
}

#[test]
fn failure_partway_yields_no_tree() {
    let mut b = Builder::new();
    b.entry("./ex".to_string(), false, 100);
    b.entry("./ex/f".to_string(), true, 200);
    b.fail(SnapshotError::NotReadable("./ex/locked".to_string()));
    assert!(b.open.is_empty());
    assert!(b.root.is_none());
    b.entry("./ex/g".to_string(), true, 1);
    b.close_dir();
    b.fail(SnapshotError::IOErr("later".to_string()));
    match b.finish() {
        Err(e) => assert_eq!(e, SnapshotError::NotReadable("./ex/locked".to_string())),
        Ok(_) => panic!("a failed walk returned a tree"),
    }
}

#[test]
fn missing_root_fails_with_not_exists() {
    let mut b = Builder::new();
    b.fail(SnapshotError::NotExists("/no/such/path".to_string()));
    assert!(matches!(b.finish(), Err(SnapshotError::NotExists(_))));
}

#[test]
fn unclosed_directory_is_an_error() {
    let mut b = Builder::new();
    b.entry("d".to_string(), false, 1);
    assert!(matches!(b.finish(), Err(SnapshotError::IOErr(_))));
    assert!(Builder::new().finish().is_err());
}

#[test]
fn test_ftree_from_path() {
    let mut b = Builder::new();
    b.entry("./examples_dir".to_string(), false, 1703885422);
    b.entry("./examples_dir/test_dir".to_string(), false, 1703885422);
    b.entry("./examples_dir/test_dir/second_file".to_string(), true, 1703885422);
    b.entry("./examples_dir/test_dir/a_dir".to_string(), false, 1703885422);
    b.entry("./examples_dir/test_dir/a_dir/with_file".to_string(), true, 1703885422);
    b.close_dir();
    b.entry("./examples_dir/test_dir/hello_file".to_string(), true, 1704060920);
    b.close_dir();
    b.close_dir();
    let t = b.finish().unwrap();
    assert_eq!(
        "./examples_dir:1703885422,./examples_dir/test_dir:1703885422,./examples_dir/test_dir/second_file:1703885422;./examples_dir/test_dir/a_dir:1703885422,./examples_dir/test_dir/a_dir/with_file:1703885422;;./examples_dir/test_dir/hello_file:1704060920;;;",
        t.as_string()
    );
    assert_eq!(t.modified, 1704060920);
}
