use space::walk::{DirStatus, EntryKind, FileSize, FileType, Walker};

fn segs(parts: &[&str]) -> Vec<String> {
    parts.iter().map(|s| s.to_string()).collect()
}

#[test]
fn walk_depth_first_events() {
    let mut w = Walker::new();
    assert_eq!(
        w.step(segs(&[]), EntryKind::Dir),
        vec![FileType::Dir(segs(&[]), DirStatus::Started)]
    );
    assert_eq!(
        w.step(segs(&["a"]), EntryKind::Dir),
        vec![FileType::Dir(segs(&["a"]), DirStatus::Started)]
    );
    assert_eq!(
        w.step(segs(&["a", "file1"]), EntryKind::File(100)),
        vec![FileType::File(FileSize(segs(&["a", "file1"]), 100))]
    );
    assert_eq!(
        w.step(segs(&["a", "b"]), EntryKind::Dir),
        vec![FileType::Dir(segs(&["a", "b"]), DirStatus::Started)]
    );
    assert_eq!(
        w.step(segs(&["a", "b", "file2"]), EntryKind::File(50)),
        vec![FileType::File(FileSize(segs(&["a", "b", "file2"]), 50))]
    );
    assert_eq!(
        w.finish(),
        vec![
            FileType::Dir(segs(&["a", "b"]), DirStatus::Finished),
            FileType::Dir(segs(&["a"]), DirStatus::Finished),
            FileType::Dir(segs(&[]), DirStatus::Finished),
        ]
    );
}

#[test]
fn walk_closes_left_directories_first() {
    let mut w = Walker::new();
    w.step(segs(&["a"]), EntryKind::Dir);
    w.step(segs(&["a", "b"]), EntryKind::Dir);
    // The next entry is a sibling of `a`: both open directories are closed
    // before it starts, innermost first.
    let out = w.step(segs(&["c"]), EntryKind::Dir);
    assert_eq!(
        out,
        vec![
            FileType::Dir(segs(&["a", "b"]), DirStatus::Finished),
            FileType::Dir(segs(&["a"]), DirStatus::Finished),
            FileType::Dir(segs(&["c"]), DirStatus::Started),
        ]
    );
}

#[test]
fn walk_skipped_entry_still_closes() {
    let mut w = Walker::new();
    w.step(segs(&["a"]), EntryKind::Dir);
    // An entry the walk skips (a symlink, an unreadable entry) emits no
    // event of its own but still closes the directories the walk left.
    let out = w.step(segs(&["b"]), EntryKind::Other);
    assert_eq!(out, vec![FileType::Dir(segs(&["a"]), DirStatus::Finished)]);
    assert_eq!(w.finish(), vec![]);
}

#[test]
fn walk_file_under_open_parent_pops_nothing() {
    let mut w = Walker::new();
    w.step(segs(&["a"]), EntryKind::Dir);
    let out = w.step(segs(&["a", "f"]), EntryKind::File(9));
    assert_eq!(out, vec![FileType::File(FileSize(segs(&["a", "f"]), 9))]);
    assert_eq!(
        w.finish(),
        vec![FileType::Dir(segs(&["a"]), DirStatus::Finished)]
    );
}

#[test]
fn walk_nesting_holds_on_odd_input_order() {
    // Even an out-of-order entry stream yields well-nested output: every
    // Started phase is closed before an event outside it.
    let mut w = Walker::new();
    let mut all: Vec<FileType> = Vec::new();
    all.extend(w.step(segs(&["a"]), EntryKind::Dir));
    all.extend(w.step(segs(&["c", "f"]), EntryKind::File(5)));
    all.extend(w.step(segs(&["a"]), EntryKind::Dir));
    all.extend(w.finish());

    // Check the nesting invariant on the concrete output.
    let mut open: Vec<Vec<String>> = Vec::new();
    for ev in &all {
        match ev {
            FileType::Dir(p, DirStatus::Started) => open.push(p.clone()),
            FileType::Dir(p, DirStatus::Finished) => {
                assert_eq!(open.pop().as_ref(), Some(p));
            }
            FileType::File(FileSize(p, _)) => {
                for d in &open {
                    assert!(p.starts_with(d.as_slice()));
                }
            }
        }
    }
    assert!(open.is_empty());
}
