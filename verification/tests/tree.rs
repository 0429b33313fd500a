use space::api::{Entry, UpdatingStatus};
use space::tree::Directory;
use space::walk::{DirStatus, FileSize, FileType};

fn segs(parts: &[&str]) -> Vec<String> {
    parts.iter().map(|s| s.to_string()).collect()
}

fn dir_entry(e: Entry) -> (Vec<String>, u64, UpdatingStatus) {
    match e {
        Entry::Directory { path, size, updating } => (path, size, updating),
        Entry::File { .. } => panic!("expected a directory entry"),
    }
}

#[test]
fn tree_aggregates_full_walk() {
    // Root contains a/file1 (100 bytes) and a/b/file2 (50 bytes).
    let mut tree = Directory::new();
    let events = vec![
        FileType::Dir(segs(&[]), DirStatus::Started),
        FileType::Dir(segs(&["a"]), DirStatus::Started),
        FileType::File(FileSize(segs(&["a", "file1"]), 100)),
        FileType::Dir(segs(&["a", "b"]), DirStatus::Started),
        FileType::File(FileSize(segs(&["a", "b", "file2"]), 50)),
        FileType::Dir(segs(&["a", "b"]), DirStatus::Finished),
        FileType::Dir(segs(&["a"]), DirStatus::Finished),
        FileType::Dir(segs(&[]), DirStatus::Finished),
    ];
    for ev in &events {
        tree.update(ev);
    }

    let (_, size_a, _) = dir_entry(tree.get_entry_directory(segs(&["a"])));
    assert_eq!(size_a, 150);
    let (_, size_ab, _) = dir_entry(tree.get_entry_directory(segs(&["a", "b"])));
    assert_eq!(size_ab, 50);
    let (_, size_root, _) = dir_entry(tree.get_entry_directory(segs(&[])));
    assert_eq!(size_root, 150);
    assert_eq!(tree.total_size, 150);
}

#[test]
fn tree_lookup_never_scanned_is_default() {
    let tree = Directory::new();
    let (path, size, updating) = dir_entry(tree.get_entry_directory(segs(&["no", "where"])));
    assert_eq!(path, segs(&["no", "where"]));
    assert_eq!(size, 0);
    assert_eq!(updating, UpdatingStatus::Idle);
    assert!(tree.at(&segs(&["no", "where"])).is_none());
}

#[test]
fn tree_insert_file_adds_to_every_ancestor() {
    let mut tree = Directory::new();
    tree.insert_file(&segs(&["a", "b", "f"]), 7);
    tree.insert_file(&segs(&["a", "g"]), 3);
    assert_eq!(tree.total_size, 10);
    let (_, size_a, _) = dir_entry(tree.get_entry_directory(segs(&["a"])));
    assert_eq!(size_a, 10);
    let (_, size_ab, _) = dir_entry(tree.get_entry_directory(segs(&["a", "b"])));
    assert_eq!(size_ab, 7);
    // The file itself is not a directory node.
    let (_, size_f, st_f) = dir_entry(tree.get_entry_directory(segs(&["a", "b", "f"])));
    assert_eq!(size_f, 0);
    assert_eq!(st_f, UpdatingStatus::Idle);
}

#[test]
fn tree_status_overwrites_keep_sizes() {
    let mut tree = Directory::new();
    tree.update(&FileType::Dir(segs(&["a"]), DirStatus::Started));
    tree.update(&FileType::File(FileSize(segs(&["a", "f"]), 42)));
    let (_, size, st) = dir_entry(tree.get_entry_directory(segs(&["a"])));
    assert_eq!((size, st), (42, UpdatingStatus::Updating));
    tree.update(&FileType::Dir(segs(&["a"]), DirStatus::Finished));
    let (_, size, st) = dir_entry(tree.get_entry_directory(segs(&["a"])));
    assert_eq!((size, st), (42, UpdatingStatus::Finished));
}

#[test]
fn tree_at_finds_created_nodes() {
    let mut tree = Directory::new();
    tree.insert_file(&segs(&["x", "y", "f"]), 5);
    let node = tree.at(&segs(&["x", "y"])).expect("node should exist");
    assert_eq!(node.total_size, 5);
    assert!(tree.at(&segs(&["x", "z"])).is_none());
    // The root is always reachable.
    assert_eq!(tree.at(&segs(&[])).expect("root").total_size, 5);
}

#[test]
fn tree_default_is_fresh() {
    let tree = Directory::default();
    assert_eq!(tree.total_size, 0);
    assert_eq!(tree.updating, UpdatingStatus::Idle);
    assert_eq!(tree.entries.len(), 0);
}

#[test]
fn tree_repeated_observation_counts_twice() {
    // Aggregation is additive: the same path observed twice adds both
    // sizes, exactly as two walk observations would.
    let mut tree = Directory::new();
    tree.insert_file(&segs(&["a", "f"]), 30);
    tree.insert_file(&segs(&["a", "f"]), 12);
    assert_eq!(tree.total_size, 42);
}

#[test]
fn tree_takes_largest_single_size() {
    let mut tree = Directory::new();
    tree.insert_file(&segs(&["big"]), u64::MAX);
    assert_eq!(tree.total_size, u64::MAX);
    let (_, size, _) = dir_entry(tree.get_entry_directory(segs(&[])));
    assert_eq!(size, u64::MAX);
}
