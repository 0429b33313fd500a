use space::api::{DeletingStatus, Entry, EventMessage, UpdatingStatus};
use space::coalesce::Coalescer;

fn segs(parts: &[&str]) -> Vec<String> {
    parts.iter().map(|s| s.to_string()).collect()
}

fn size_update(path: &[&str], size: u64, updating: UpdatingStatus) -> EventMessage {
    EventMessage::SizeUpdate {
        entry: Entry::Directory { path: segs(path), size, updating },
    }
}

fn directory_change() -> EventMessage {
    EventMessage::DirectoryChange {
        current_directory: Entry::Directory {
            path: segs(&[]),
            size: 0,
            updating: UpdatingStatus::Idle,
        },
        entries: vec![],
        breadcrumb_entries: vec![],
        available_space: 0,
    }
}

#[test]
fn debounce_burst_emits_once_with_last_value() {
    let mut c = Coalescer::new();
    // First mid-scan update arms a timer and is held back.
    let (fwd, timer) = c.on_event(size_update(&["a"], 10, UpdatingStatus::Updating));
    assert!(fwd.is_none());
    let timer = timer.expect("first update should arm a timer");
    // Further updates for the same key within the window are held back too.
    let (fwd, t2) = c.on_event(size_update(&["a"], 20, UpdatingStatus::Updating));
    assert!(fwd.is_none() && t2.is_none());
    let (fwd, t3) = c.on_event(size_update(&["a"], 30, UpdatingStatus::Updating));
    assert!(fwd.is_none() && t3.is_none());
    // The timer fire forwards exactly one update, carrying the last value.
    let out = c.on_timer(&timer.path, timer.timer);
    assert_eq!(
        out,
        Some(size_update(&["a"], 30, UpdatingStatus::Updating))
    );
    // The window is closed: the same timer cannot emit twice.
    assert_eq!(c.on_timer(&timer.path, timer.timer), None);
}

#[test]
fn debounce_reset_on_navigation() {
    let mut c = Coalescer::new();
    let (_, timer) = c.on_event(size_update(&["a"], 10, UpdatingStatus::Updating));
    let timer = timer.expect("timer armed");
    // A navigation change passes through and clears all pending state.
    let (fwd, t) = c.on_event(directory_change());
    assert_eq!(fwd, Some(directory_change()));
    assert!(t.is_none());
    // The previously armed timer fires into nothing.
    assert_eq!(c.on_timer(&timer.path, timer.timer), None);
}

#[test]
fn boundary_updates_pass_through_and_cancel() {
    let mut c = Coalescer::new();
    let (_, timer) = c.on_event(size_update(&["a"], 10, UpdatingStatus::Updating));
    let timer = timer.expect("timer armed");
    // A final value passes through right away and drops the pending entry.
    let fin = size_update(&["a"], 10, UpdatingStatus::Finished);
    let (fwd, t) = c.on_event(fin.clone());
    assert_eq!(fwd, Some(fin));
    assert!(t.is_none());
    // The stale timer must not overwrite the final value.
    assert_eq!(c.on_timer(&timer.path, timer.timer), None);
}

#[test]
fn zero_size_updates_are_not_held() {
    let mut c = Coalescer::new();
    let ev = size_update(&["a"], 0, UpdatingStatus::Updating);
    let (fwd, t) = c.on_event(ev.clone());
    assert_eq!(fwd, Some(ev));
    assert!(t.is_none());
}

#[test]
fn deleting_events_pass_through() {
    let mut c = Coalescer::new();
    let ev = EventMessage::Deleting { path: segs(&["x"]), status: DeletingStatus::Finished };
    let (fwd, t) = c.on_event(ev.clone());
    assert_eq!(fwd, Some(ev));
    assert!(t.is_none());
}

#[test]
fn separate_keys_get_separate_timers() {
    let mut c = Coalescer::new();
    let (_, ta) = c.on_event(size_update(&["a"], 1, UpdatingStatus::Updating));
    let (_, tb) = c.on_event(size_update(&["b"], 2, UpdatingStatus::Updating));
    let ta = ta.expect("timer for a");
    let tb = tb.expect("timer for b");
    assert_ne!(ta.timer, tb.timer);
    assert_eq!(
        c.on_timer(&ta.path, ta.timer),
        Some(size_update(&["a"], 1, UpdatingStatus::Updating))
    );
    assert_eq!(
        c.on_timer(&tb.path, tb.timer),
        Some(size_update(&["b"], 2, UpdatingStatus::Updating))
    );
}
