use space::paths::{clone_path, get_components, join_path, paths_equal};

fn segs(parts: &[&str]) -> Vec<String> {
    parts.iter().map(|s| s.to_string()).collect()
}

#[test]
fn components_of_plain_path() {
    assert_eq!(get_components("a/b/c"), segs(&["a", "b", "c"]));
}

#[test]
fn components_drop_empty_segments() {
    assert_eq!(get_components("a//b/"), segs(&["a", "b"]));
    assert_eq!(get_components("/a"), segs(&["a"]));
    assert_eq!(get_components("///"), segs(&[]));
}

#[test]
fn components_of_empty_path() {
    assert_eq!(get_components(""), segs(&[]));
}

#[test]
fn components_of_single_segment() {
    assert_eq!(get_components("src"), segs(&["src"]));
}

#[test]
fn join_concatenates_segments() {
    let joined = join_path(&segs(&["root", "dir"]), &segs(&["a", "b"]));
    assert_eq!(joined, segs(&["root", "dir", "a", "b"]));
    assert_eq!(join_path(&segs(&[]), &segs(&["x"])), segs(&["x"]));
}

#[test]
fn path_equality_is_by_text() {
    assert!(paths_equal(&segs(&["a", "b"]), &segs(&["a", "b"])));
    assert!(!paths_equal(&segs(&["a", "b"]), &segs(&["a"])));
    assert!(!paths_equal(&segs(&["a", "b"]), &segs(&["a", "c"])));
    assert!(paths_equal(&segs(&[]), &segs(&[])));
    let copy = clone_path(&segs(&["p", "q"]));
    assert!(paths_equal(&copy, &segs(&["p", "q"])));
}
