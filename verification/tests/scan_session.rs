use space::api::{ControlMessage, DeletingStatus, Entry, EventMessage, UpdatingStatus};
use space::coalesce::Coalescer;
use space::scan::{ListingEntry, ScanCoordinator, ThreadControlMessage};
use space::session::{DeletePhase, HandlerAction, WebsocketHandler};
use space::walk::{DirStatus, EntryKind, FileSize, FileType};

fn segs(parts: &[&str]) -> Vec<String> {
    parts.iter().map(|s| s.to_string()).collect()
}

fn listing(rows: &[(&str, EntryKind)]) -> Vec<ListingEntry> {
    rows.iter()
        .map(|(name, kind)| ListingEntry { name: name.to_string(), kind: *kind })
        .collect()
}

#[test]
fn navigation_lists_and_subscribes() {
    // The client navigates to `a`, which holds the directory `b` and the
    // file `file1` of 100 bytes.
    let mut sc = ScanCoordinator::new();
    let ev = sc.on_navigation(
        segs(&["a"]),
        &listing(&[("b", EntryKind::Dir), ("file1", EntryKind::File(100))]),
        4096,
    );
    match ev {
        EventMessage::DirectoryChange {
            current_directory,
            entries,
            breadcrumb_entries,
            available_space,
        } => {
            assert_eq!(
                current_directory,
                Entry::Directory { path: segs(&["a"]), size: 0, updating: UpdatingStatus::Idle }
            );
            assert_eq!(
                entries,
                vec![
                    Entry::Directory {
                        path: segs(&["a", "b"]),
                        size: 0,
                        updating: UpdatingStatus::Idle,
                    },
                    Entry::File { path: segs(&["a", "file1"]), size: 100 },
                ]
            );
            // Breadcrumbs: the root, then the current directory.
            assert_eq!(breadcrumb_entries.len(), 2);
            assert_eq!(
                breadcrumb_entries[0],
                Entry::Directory { path: segs(&[]), size: 0, updating: UpdatingStatus::Idle }
            );
            assert_eq!(available_space, 4096);
        }
        other => panic!("expected a DirectoryChange, got {:?}", other),
    }
}

#[test]
fn walk_events_update_only_subscribed_paths() {
    let mut sc = ScanCoordinator::new();
    sc.on_navigation(segs(&["a"]), &listing(&[("b", EntryKind::Dir)]), 0);

    // A directory event for a subscribed path is reported.
    let r = sc.on_walk_event(FileType::Dir(segs(&["a", "b"]), DirStatus::Started));
    assert_eq!(
        r,
        Some(EventMessage::SizeUpdate {
            entry: Entry::Directory {
                path: segs(&["a", "b"]),
                size: 0,
                updating: UpdatingStatus::Updating,
            },
        })
    );
    // A file in a subscribed directory updates that directory.
    let r = sc.on_walk_event(FileType::File(FileSize(segs(&["a", "b", "f"]), 50)));
    assert_eq!(
        r,
        Some(EventMessage::SizeUpdate {
            entry: Entry::Directory {
                path: segs(&["a", "b"]),
                size: 50,
                updating: UpdatingStatus::Updating,
            },
        })
    );
    // A file somewhere not visible causes no event, though it is counted.
    let r = sc.on_walk_event(FileType::File(FileSize(segs(&["c", "deep", "f"]), 7)));
    assert!(r.is_none());
    assert_eq!(sc.tree.total_size, 57);
}

#[test]
fn size_update_debounced_to_one_event() {
    // The client navigates to `a`; the walk then finds a/b/file2 (50
    // bytes). The size update for `b` is held back until the debounce
    // timer fires, then exactly one update with 50 bytes arrives.
    let mut sc = ScanCoordinator::new();
    let mut co = Coalescer::new();
    let nav = sc.on_navigation(
        segs(&["a"]),
        &listing(&[("b", EntryKind::Dir), ("file1", EntryKind::File(100))]),
        0,
    );
    let (fwd, _) = co.on_event(nav);
    assert!(matches!(fwd, Some(EventMessage::DirectoryChange { .. })));

    sc.on_walk_event(FileType::Dir(segs(&["a"]), DirStatus::Started));
    let up = sc
        .on_walk_event(FileType::Dir(segs(&["a", "b"]), DirStatus::Started))
        .expect("subscribed directory");
    // The first mid-scan update for `b` would be zero-sized; feed the one
    // after the file is seen.
    let (fwd, t) = co.on_event(up);
    assert!(fwd.is_some() || t.is_some());
    let up = sc
        .on_walk_event(FileType::File(FileSize(segs(&["a", "b", "file2"]), 50)))
        .expect("subscribed directory");
    let (fwd, timer) = co.on_event(up);
    assert!(fwd.is_none());
    let timer = timer.expect("debounce timer armed");
    let out = co.on_timer(&timer.path, timer.timer).expect("one update");
    assert_eq!(
        out,
        EventMessage::SizeUpdate {
            entry: Entry::Directory {
                path: segs(&["a", "b"]),
                size: 50,
                updating: UpdatingStatus::Updating,
            },
        }
    );
    assert_eq!(co.on_timer(&timer.path, timer.timer), None);
}

#[test]
fn fast_delete_sends_only_finished() {
    // Removal completes before the timeout: the client sees no
    // Deleting{Deleting}, only Deleting{Finished}, then a refresh.
    let mut h = WebsocketHandler::new(segs(&["root"]));
    h.change_dir(segs(&["a"]));
    let action = h.handle_message(ControlMessage::Delete { path: segs(&["a", "b"]) });
    let mut op = match action {
        HandlerAction::Delete(op) => op,
        _ => panic!("expected a delete action"),
    };
    assert_eq!(op.full_path, segs(&["root", "a", "b"]));
    assert_eq!(op.phase, DeletePhase::Running);

    // Removal completes first.
    let fin = op.on_complete();
    assert_eq!(
        fin,
        EventMessage::Deleting { path: segs(&["a", "b"]), status: DeletingStatus::Finished }
    );
    // The timeout fires later and is ignored.
    assert_eq!(op.on_timeout(), None);
    // The session refreshes the current directory.
    let m = h.refresh();
    let ThreadControlMessage::ChangeDirectory(p) = m;
    assert_eq!(p, segs(&["a"]));
}

#[test]
fn slow_delete_sends_deleting_then_finished() {
    // Removal outlives the timeout: the client sees Deleting{Deleting},
    // then Deleting{Finished}.
    let mut h = WebsocketHandler::new(segs(&["root"]));
    let action = h.handle_message(ControlMessage::Delete { path: segs(&["a", "b"]) });
    let mut op = match action {
        HandlerAction::Delete(op) => op,
        _ => panic!("expected a delete action"),
    };
    let progress = op.on_timeout().expect("timeout fired first");
    assert_eq!(
        progress,
        EventMessage::Deleting { path: segs(&["a", "b"]), status: DeletingStatus::Deleting }
    );
    // A second timeout changes nothing.
    assert_eq!(op.on_timeout(), None);
    let fin = op.on_complete();
    assert_eq!(
        fin,
        EventMessage::Deleting { path: segs(&["a", "b"]), status: DeletingStatus::Finished }
    );
}

#[test]
fn control_messages_dispatch() {
    let mut h = WebsocketHandler::new(segs(&["root"]));
    match h.handle_message(ControlMessage::ChangeDirectory { path: segs(&["x"]) }) {
        HandlerAction::Navigate(ThreadControlMessage::ChangeDirectory(p)) => {
            assert_eq!(p, segs(&["x"]));
        }
        _ => panic!("expected a navigation"),
    }
    assert_eq!(h.current_dir, segs(&["x"]));
    match h.handle_message(ControlMessage::Reveal { path: segs(&["x", "y"]) }) {
        HandlerAction::Reveal { full_path } => {
            assert_eq!(full_path, segs(&["root", "x", "y"]));
        }
        _ => panic!("expected a reveal"),
    }
}
