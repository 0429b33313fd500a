//! Debouncing of per-directory size updates.
//!
//! While a scan runs, the coordinator can emit a burst of `SizeUpdate`
//! events for the same directory. The `Coalescer` keeps only the latest
//! value per directory and asks for a one-shot timer the first time a
//! directory starts changing; when that timer fires, one update carrying
//! the latest value is forwarded. A `DirectoryChange` clears all pending
//! state, and every pending timer is told apart by its id, so a timer
//! armed before the reset can never emit a stale update afterwards.
//!
//! The whole behaviour is the pair of spec functions `coalesce_step` and
//! `timer_step`; the executable methods return exactly what those
//! functions say. The debounce laws `lemma_debounce_bounded` and
//! `lemma_debounce_reset` are stated over the same functions.

use vstd::prelude::*;
use crate::api::{Entry, EntryView, EventMessage, EventMessageView, UpdatingStatus};
use crate::paths::paths_equal;

verus! {

/// One directory whose latest size is being held back until its timer
/// fires.
struct PendingUpdate {
    path: Vec<String>,
    size: u64,
    timer: u64,
}

/// The per-connection debounce state.
pub struct Coalescer {
    pending: Vec<PendingUpdate>,
    next_timer: u64,
}

/// The mathematical value of a `Coalescer`: the map from a held-back
/// directory to its latest size and the id of the timer armed for it, and
/// the next timer id to hand out.
#[verifier::ext_equal]
pub struct CoalescerView {
    pub pending: Map<Seq<Seq<char>>, (u64, u64)>,
    pub next_timer: u64,
}

/// The association of held-back directories, read as a map.
spec fn pending_map(s: Seq<PendingUpdate>) -> Map<Seq<Seq<char>>, (u64, u64)>
    decreases s.len(),
{
    if s.len() == 0 {
        Map::empty()
    } else {
        pending_map(s.drop_last()).insert(
            s.last().path.deep_view(),
            (s.last().size, s.last().timer),
        )
    }
}

/// No two held-back entries name the same directory.
spec fn keys_distinct(s: Seq<PendingUpdate>) -> bool {
    forall|i: int, j: int|
        0 <= i < j < s.len() ==> (#[trigger] s[i]).path.deep_view() != (
        #[trigger] s[j]).path.deep_view()
}

impl View for Coalescer {
    type V = CoalescerView;

    closed spec fn view(&self) -> CoalescerView {
        CoalescerView { pending: pending_map(self.pending@), next_timer: self.next_timer }
    }
}

impl Coalescer {
    /// The representation invariant: one entry per directory.
    pub closed spec fn wf(self) -> bool {
        keys_distinct(self.pending@)
    }
}

/// A one-shot timer the caller must arm for the debounce delay; when it
/// fires, hand `path` and `timer` back to `on_timer`.
pub struct TimerRequest {
    pub path: Vec<String>,
    pub timer: u64,
}

impl View for TimerRequest {
    type V = (Seq<Seq<char>>, u64);

    open spec fn view(&self) -> (Seq<Seq<char>>, u64) {
        (self.path.deep_view(), self.timer)
    }
}

impl DeepView for TimerRequest {
    type V = (Seq<Seq<char>>, u64);

    open spec fn deep_view(&self) -> (Seq<Seq<char>>, u64) {
        self.view()
    }
}

/// What one inbound event does to the debounce state: the new state, the
/// event forwarded downstream right away (if any), and the timer to arm
/// (if any).
///
/// A `DirectoryChange` resets all pending state and passes through; a
/// `Deleting` event passes through untouched. A `SizeUpdate` for a
/// directory that is mid-scan (`Updating` with a non-zero size) is held
/// back: the latest value is recorded, and a timer is armed if none is
/// pending for that directory yet. Any other `SizeUpdate` is a boundary
/// value: it passes through right away and drops the pending entry, so a
/// later timer fire cannot overwrite it.
pub open spec fn coalesce_step(s: CoalescerView, ev: EventMessageView) -> (
    CoalescerView,
    Option<EventMessageView>,
    Option<(Seq<Seq<char>>, u64)>,
) {
    match ev {
        EventMessageView::DirectoryChange { .. } => (
            CoalescerView { pending: Map::empty(), next_timer: s.next_timer },
            Some(ev),
            None,
        ),
        EventMessageView::Deleting { .. } => (s, Some(ev), None),
        EventMessageView::SizeUpdate { entry } => match entry {
            EntryView::Directory { path, size, updating } => {
                if updating == UpdatingStatus::Updating && size != 0 {
                    if s.pending.contains_key(path) {
                        (
                            CoalescerView {
                                pending: s.pending.insert(path, (size, s.pending[path].1)),
                                next_timer: s.next_timer,
                            },
                            None,
                            None,
                        )
                    } else {
                        (
                            CoalescerView {
                                pending: s.pending.insert(path, (size, s.next_timer)),
                                next_timer: (s.next_timer + 1) as u64,
                            },
                            None,
                            Some((path, s.next_timer)),
                        )
                    }
                } else {
                    (
                        CoalescerView { pending: s.pending.remove(path), next_timer: s.next_timer },
                        Some(ev),
                        None,
                    )
                }
            },
            EntryView::File { .. } => arbitrary(),
        },
    }
}

/// What a timer fire does: if the directory still has a pending entry and
/// it was armed by this very timer, one update carrying the latest value
/// is forwarded and the entry is dropped; otherwise the fire is stale and
/// nothing happens.
pub open spec fn timer_step(s: CoalescerView, path: Seq<Seq<char>>, timer: u64) -> (
    CoalescerView,
    Option<EventMessageView>,
) {
    if s.pending.contains_key(path) && s.pending[path].1 == timer {
        (
            CoalescerView { pending: s.pending.remove(path), next_timer: s.next_timer },
            Some(
                EventMessageView::SizeUpdate {
                    entry: EntryView::Directory {
                        path,
                        size: s.pending[path].0,
                        updating: UpdatingStatus::Updating,
                    },
                },
            ),
        )
    } else {
        (s, None)
    }
}

/// The state after feeding a sequence of events, one `coalesce_step` at a
/// time.
pub open spec fn coalesce_events(s: CoalescerView, evs: Seq<EventMessageView>) -> CoalescerView
    decreases evs.len(),
{
    if evs.len() == 0 {
        s
    } else {
        coalesce_step(coalesce_events(s, evs.drop_last()), evs.last()).0
    }
}

/// The events forwarded downstream while feeding a sequence of events.
pub open spec fn coalesce_outputs(s: CoalescerView, evs: Seq<EventMessageView>) -> Seq<
    EventMessageView,
>
    decreases evs.len(),
{
    if evs.len() == 0 {
        Seq::empty()
    } else {
        coalesce_outputs(s, evs.drop_last()) + (match coalesce_step(
            coalesce_events(s, evs.drop_last()),
            evs.last(),
        ).1 {
            Some(e) => seq![e],
            None => Seq::empty(),
        })
    }
}

/// A burst of mid-scan size updates for one directory.
pub open spec fn burst(path: Seq<Seq<char>>, sizes: Seq<u64>) -> Seq<EventMessageView> {
    Seq::new(
        sizes.len(),
        |i: int|
            EventMessageView::SizeUpdate {
                entry: EntryView::Directory {
                    path,
                    size: sizes[i],
                    updating: UpdatingStatus::Updating,
                },
            },
    )
}

/// Debounce boundedness: however many mid-scan updates for one directory
/// arrive within one debounce window, none is forwarded while the window
/// is open, and the one timer fire that closes the window forwards exactly
/// one update, carrying the value of the last event of the burst. After
/// the fire nothing is pending for the directory, so the window cannot
/// emit twice.
pub proof fn lemma_debounce_bounded(
    s0: CoalescerView,
    path: Seq<Seq<char>>,
    sizes: Seq<u64>,
)
    requires
        sizes.len() >= 1,
        forall|k: int| 0 <= k < sizes.len() ==> sizes[k] != 0,
        !s0.pending.contains_key(path),
    ensures
        coalesce_outputs(s0, burst(path, sizes)) == Seq::<EventMessageView>::empty(),
        coalesce_events(s0, burst(path, sizes)).pending.contains_key(path),
        coalesce_events(s0, burst(path, sizes)).pending[path] == (
            sizes.last(),
            s0.next_timer,
        ),
        timer_step(coalesce_events(s0, burst(path, sizes)), path, s0.next_timer).1 == Some(
            EventMessageView::SizeUpdate {
                entry: EntryView::Directory {
                    path,
                    size: sizes.last(),
                    updating: UpdatingStatus::Updating,
                },
            },
        ),
        !timer_step(
            coalesce_events(s0, burst(path, sizes)),
            path,
            s0.next_timer,
        ).0.pending.contains_key(path),
    decreases sizes.len(),
{
    let evs = burst(path, sizes);
    if sizes.len() == 1 {
        assert(evs.drop_last() =~= Seq::<EventMessageView>::empty());
        assert(coalesce_events(s0, evs.drop_last()) == s0);
        assert(sizes[0] != 0);
        assert(evs.last() == (EventMessageView::SizeUpdate {
            entry: EntryView::Directory {
                path,
                size: sizes.last(),
                updating: UpdatingStatus::Updating,
            },
        }));
        assert(coalesce_step(s0, evs.last()).1 is None);
        assert(coalesce_outputs(s0, evs.drop_last()) =~= Seq::<EventMessageView>::empty());
        assert(coalesce_outputs(s0, evs) =~= Seq::<EventMessageView>::empty());
    } else {
        lemma_debounce_bounded(s0, path, sizes.drop_last());
        assert(evs.drop_last() =~= burst(path, sizes.drop_last()));
        assert(sizes.drop_last().last() == sizes[sizes.len() - 2]);
        let sp = coalesce_events(s0, evs.drop_last());
        assert(sp.pending.contains_key(path));
        assert(sizes[sizes.len() - 1] != 0);
        assert(evs.last() == (EventMessageView::SizeUpdate {
            entry: EntryView::Directory {
                path,
                size: sizes.last(),
                updating: UpdatingStatus::Updating,
            },
        }));
        assert(coalesce_step(sp, evs.last()).1 is None);
        assert(coalesce_outputs(s0, evs) =~= Seq::<EventMessageView>::empty());
    }
}

/// Debounce reset on navigation: a `DirectoryChange` passes through and
/// clears all pending state, and a timer armed before it — any timer at
/// all — fires into nothing afterwards.
pub proof fn lemma_debounce_reset(
    s: CoalescerView,
    ev: EventMessageView,
    path: Seq<Seq<char>>,
    timer: u64,
)
    requires
        ev matches EventMessageView::DirectoryChange { .. },
    ensures
        coalesce_step(s, ev).1 == Some(ev),
        coalesce_step(s, ev).0.pending == Map::<Seq<Seq<char>>, (u64, u64)>::empty(),
        timer_step(coalesce_step(s, ev).0, path, timer).1 is None,
        timer_step(coalesce_step(s, ev).0, path, timer).0 == coalesce_step(s, ev).0,
{
}

/// An entry at an index is in the map with its recorded value.
proof fn lemma_pending_lookup(s: Seq<PendingUpdate>, j: int)
    requires
        keys_distinct(s),
        0 <= j < s.len(),
    ensures
        pending_map(s).contains_key(s[j].path.deep_view()),
        pending_map(s)[s[j].path.deep_view()] == (s[j].size, s[j].timer),
    decreases s.len(),
{
    if j < s.len() - 1 {
        lemma_pending_lookup(s.drop_last(), j);
        assert(s.drop_last()[j] == s[j]);
    }
}

/// A directory no entry names is not in the map.
proof fn lemma_pending_missing(s: Seq<PendingUpdate>, k: Seq<Seq<char>>)
    requires
        forall|j: int| 0 <= j < s.len() ==> (#[trigger] s[j]).path.deep_view() != k,
    ensures
        !pending_map(s).contains_key(k),
    decreases s.len(),
{
    if s.len() > 0 {
        lemma_pending_missing(s.drop_last(), k);
    }
}

/// Removing the entry at an index removes its directory from the map.
proof fn lemma_pending_remove(s: Seq<PendingUpdate>, j: int)
    requires
        keys_distinct(s),
        0 <= j < s.len(),
    ensures
        keys_distinct(s.remove(j)),
        pending_map(s.remove(j)) =~= pending_map(s).remove(s[j].path.deep_view()),
    decreases s.len(),
{
    let k = s[j].path.deep_view();
    if j == s.len() - 1 {
        assert(s.remove(j) =~= s.drop_last());
        assert forall|i: int| 0 <= i < s.drop_last().len() implies (
        #[trigger] s.drop_last()[i]).path.deep_view() != k by {
            assert(s.drop_last()[i] == s[i]);
        }
        lemma_pending_missing(s.drop_last(), k);
        assert(pending_map(s.drop_last()) =~= pending_map(s.drop_last()).insert(
            k,
            (s[j].size, s[j].timer),
        ).remove(k));
    } else {
        lemma_pending_remove(s.drop_last(), j);
        assert(s.remove(j).drop_last() =~= s.drop_last().remove(j));
        assert(s.remove(j).last() == s.last());
        assert(s.drop_last()[j] == s[j]);
        assert(s.last().path.deep_view() != k);
        assert(pending_map(s.remove(j)) =~= pending_map(s.drop_last().remove(j)).insert(
            s.last().path.deep_view(),
            (s.last().size, s.last().timer),
        ));
        assert(pending_map(s).remove(k) =~= pending_map(s.drop_last()).remove(k).insert(
            s.last().path.deep_view(),
            (s.last().size, s.last().timer),
        ));
    }
}

impl Coalescer {
    /// A coalescer with nothing pending.
    pub fn new() -> (c: Coalescer)
        ensures
            c.wf(),
            c@ == (CoalescerView { pending: Map::<Seq<Seq<char>>, (u64, u64)>::empty(), next_timer: 0u64 }),
    {
        Coalescer { pending: Vec::new(), next_timer: 0 }
    }

    /// The index of the pending entry for `path`.
    fn find_pending(&self, path: &Vec<String>) -> (r: Option<usize>)
        requires
            self.wf(),
        ensures
            match r {
                Some(j) => {
                    &&& j < self.pending@.len()
                    &&& self.pending@[j as int].path.deep_view() == path.deep_view()
                    &&& self@.pending.contains_key(path.deep_view())
                    &&& self@.pending[path.deep_view()] == (
                        self.pending@[j as int].size,
                        self.pending@[j as int].timer,
                    )
                },
                None => !self@.pending.contains_key(path.deep_view()),
            },
    {
        let n = self.pending.len();
        let mut j: usize = 0;
        while j < n
            invariant
                self.wf(),
                0 <= j <= n,
                n == self.pending@.len(),
                forall|k: int|
                    0 <= k < j ==> (#[trigger] self.pending@[k]).path.deep_view()
                        != path.deep_view(),
            decreases n - j,
        {
            if paths_equal(&self.pending[j].path, path) {
                proof {
                    lemma_pending_lookup(self.pending@, j as int);
                }
                return Some(j);
            }
            j = j + 1;
        }
        proof {
            lemma_pending_missing(self.pending@, path.deep_view());
        }
        None
    }

    /// Applies one inbound event. The returned pair is the event to send
    /// downstream now (if any) and the timer to arm (if any); both are
    /// exactly what `coalesce_step` says.
    pub fn on_event(&mut self, event: EventMessage) -> (r: (
        Option<EventMessage>,
        Option<TimerRequest>,
    ))
        requires
            old(self).wf(),
            old(self)@.next_timer < u64::MAX,
            event@ matches EventMessageView::SizeUpdate { entry } ==> entry matches EntryView::Directory { .. },
        ensures
            final(self).wf(),
            final(self)@ == coalesce_step(old(self)@, event@).0,
            r.0.deep_view() == coalesce_step(old(self)@, event@).1,
            r.1.deep_view() == coalesce_step(old(self)@, event@).2,
    {
        match &event {
            EventMessage::DirectoryChange { .. } => {
                self.pending.clear();
                (Some(event), None)
            },
            EventMessage::Deleting { .. } => (Some(event), None),
            EventMessage::SizeUpdate { entry } => {
                match entry {
                    Entry::Directory { path, size, updating } => {
                        let mid_scan = matches!(updating, UpdatingStatus::Updating) && *size
                            != 0;
                        if mid_scan {
                            match self.find_pending(path) {
                                Some(j) => {
                                    let ghost s0 = self.pending@;
                                    let mut e = self.pending.remove(j);
                                    e.size = *size;
                                    self.pending.push(e);
                                    proof {
                                        lemma_pending_remove(s0, j as int);
                                        assert forall|i: int|
                                            0 <= i < s0.remove(j as int).len() implies (
                                        #[trigger] s0.remove(j as int)[i]).path.deep_view()
                                            != path.deep_view() by {
                                            if i < j {
                                                assert(s0.remove(j as int)[i] == s0[i]);
                                            } else {
                                                assert(s0.remove(j as int)[i] == s0[i + 1]);
                                            }
                                        }
                                        assert(keys_distinct(self.pending@));
                                        assert(self.pending@.drop_last() =~= s0.remove(
                                            j as int,
                                        ));
                                        assert(self@.pending =~= old(
                                            self,
                                        )@.pending.insert(
                                            path.deep_view(),
                                            (*size, old(self)@.pending[path.deep_view()].1),
                                        ));
                                        assert(self@ =~= coalesce_step(old(self)@, event@).0);
                                    }
                                    (None, None)
                                },
                                None => {
                                    let t = self.next_timer;
                                    self.next_timer = t + 1;
                                    self.pending.push(
                                        PendingUpdate { path: path.clone(), size: *size, timer: t },
                                    );
                                    proof {
                                        assert(self.pending@.drop_last() =~= old(
                                            self,
                                        ).pending@);
                                        assert forall|i: int|
                                            0 <= i < old(self).pending@.len() implies (
                                        #[trigger] old(self).pending@[i]).path.deep_view()
                                            != path.deep_view() by {
                                            lemma_pending_lookup(old(self).pending@, i);
                                        }
                                        assert(keys_distinct(self.pending@));
                                        assert(self@.pending =~= old(self)@.pending.insert(
                                            path.deep_view(),
                                            (*size, t),
                                        ));
                                        assert(self@ =~= coalesce_step(old(self)@, event@).0);
                                    }
                                    (None, Some(TimerRequest { path: path.clone(), timer: t }))
                                },
                            }
                        } else {
                            match self.find_pending(path) {
                                Some(j) => {
                                    let ghost s0 = self.pending@;
                                    self.pending.remove(j);
                                    proof {
                                        lemma_pending_remove(s0, j as int);
                                        assert(self@ =~= coalesce_step(old(self)@, event@).0);
                                    }
                                },
                                None => {
                                    proof {
                                        assert(old(self)@.pending.remove(path.deep_view())
                                            =~= old(self)@.pending);
                                        assert(self@ =~= coalesce_step(old(self)@, event@).0);
                                    }
                                },
                            }
                            (Some(event), None)
                        }
                    },
                    Entry::File { .. } => {
                        proof {
                            assert(false);
                        }
                        (None, None)
                    },
                }
            },
        }
    }

    /// Applies one timer fire; the returned event, if any, is exactly what
    /// `timer_step` says.
    pub fn on_timer(&mut self, path: &Vec<String>, timer: u64) -> (r: Option<EventMessage>)
        requires
            old(self).wf(),
        ensures
            final(self).wf(),
            final(self)@ == timer_step(old(self)@, path.deep_view(), timer).0,
            r.deep_view() == timer_step(old(self)@, path.deep_view(), timer).1,
    {
        match self.find_pending(path) {
            Some(j) => {
                if self.pending[j].timer == timer {
                    let ghost s0 = self.pending@;
                    let e = self.pending.remove(j);
                    proof {
                        lemma_pending_remove(s0, j as int);
                        assert(self@ =~= timer_step(old(self)@, path.deep_view(), timer).0);
                    }
                    Some(
                        EventMessage::SizeUpdate {
                            entry: Entry::Directory {
                                path: e.path,
                                size: e.size,
                                updating: UpdatingStatus::Updating,
                            },
                        },
                    )
                } else {
                    None
                }
            },
            None => None,
        }
    }
}

} // verus!
