use space::file_tree::Tree;
use space::walk::FileSize;

fn segs(parts: &[&str]) -> Vec<String> {
    parts.iter().map(|s| s.to_string()).collect()
}

#[test]
fn file_tree_totals_sum_all_files() {
    let mut t = Tree::new();
    t.insert_file(FileSize(segs(&["hello.rs"]), 123));
    t.insert_file(FileSize(segs(&["web_server", "file.rs"]), 123));
    assert_eq!(t.get_total_size(), 246);
    assert_eq!(t.entries().len(), 2);
}

#[test]
fn file_tree_lookup_by_components_and_text() {
    let mut t = Tree::new();
    t.insert_file(FileSize(segs(&["a", "b", "f"]), 9));
    match t.at(segs(&["a", "b", "f"])) {
        Some(Tree::File(size)) => assert_eq!(*size, 9),
        other => panic!("expected the file, got {:?}", other),
    }
    assert!(matches!(t.at(segs(&["a", "b"])), Some(Tree::Directory(_))));
    assert!(t.at(segs(&["a", "c"])).is_none());
    match t.at_path("a/b/f") {
        Some(Tree::File(size)) => assert_eq!(*size, 9),
        other => panic!("expected the file, got {:?}", other),
    }
}

#[test]
fn file_tree_insert_replaces_existing_file() {
    let mut t = Tree::new();
    t.insert_file(FileSize(segs(&["a"]), 5));
    t.insert_file(FileSize(segs(&["a"]), 7));
    assert_eq!(t.get_total_size(), 7);
}

#[test]
fn file_tree_entries_mut_allows_rebuilding() {
    let mut t = Tree::new();
    t.insert_file(FileSize(segs(&["a"]), 5));
    t.entries_mut().clear();
    assert_eq!(t.get_total_size(), 0);
    assert!(t.at(segs(&["a"])).is_none());
}

#[test]
fn file_tree_empty_total_is_zero() {
    let t = Tree::new();
    assert_eq!(t.get_total_size(), 0);
}
