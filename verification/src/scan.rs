//! The scan coordinator: the decisions of the background scan task.
//!
//! The coordinator owns the size aggregation tree. It is fed two inbound
//! streams — navigation requests from the session, raw directory listings
//! read from the filesystem, and the walker's events — and decides which
//! outbound event each of them causes. A navigation recomputes the set of
//! subscribed paths (the new directory's child directories, its ancestors,
//! and the root) and answers with one `DirectoryChange`; a walk event is
//! applied to the tree and causes one `SizeUpdate` only when its directory
//! is subscribed, which bounds the emission rate to the visible part of
//! the tree.

use vstd::prelude::*;
use crate::api::{Entry, EntryView, EventMessage, EventMessageView};
use crate::paths::paths_equal;
use crate::tree::{applies_observation, sets_status, walk_status, Directory};
use crate::walk::{EntryKind, FileType, FileTypeView};

verus! {

broadcast use vstd::std_specs::vec::group_vec_axioms;

/// A navigation request handed from the session to the scan task.
#[derive(Clone, Debug, PartialEq, Eq)]
pub enum ThreadControlMessage {
    ChangeDirectory(Vec<String>),
}

/// One raw row of a directory listing, as the filesystem reports it: the
/// entry's own name and what it is.
#[derive(Clone, Debug, PartialEq, Eq)]
pub struct ListingEntry {
    pub name: String,
    pub kind: EntryKind,
}

impl View for ListingEntry {
    type V = (Seq<char>, EntryKind);

    open spec fn view(&self) -> (Seq<char>, EntryKind) {
        (self.name@, self.kind)
    }
}

impl DeepView for ListingEntry {
    type V = (Seq<char>, EntryKind);

    open spec fn deep_view(&self) -> (Seq<char>, EntryKind) {
        self.view()
    }
}

/// The listing rows turned into client entries: a directory row reads its
/// size and status from the tree, a file row carries its stat size, and a
/// skipped row contributes nothing.
pub open spec fn listing_entries(
    tree: Directory,
    dir: Seq<Seq<char>>,
    listing: Seq<(Seq<char>, EntryKind)>,
) -> Seq<EntryView>
    decreases listing.len(),
{
    if listing.len() == 0 {
        Seq::empty()
    } else {
        listing_entries(tree, dir, listing.drop_last()) + (match listing.last().1 {
            EntryKind::Dir => seq![
                EntryView::Directory {
                    path: dir.push(listing.last().0),
                    size: tree.size_at(dir.push(listing.last().0)),
                    updating: tree.status_at(dir.push(listing.last().0)),
                },
            ],
            EntryKind::File(size) => seq![
                EntryView::File { path: dir.push(listing.last().0), size },
            ],
            EntryKind::Other => Seq::empty(),
        })
    }
}

/// The paths of the directory rows of a listing, below `dir`.
pub open spec fn dir_children(
    dir: Seq<Seq<char>>,
    listing: Seq<(Seq<char>, EntryKind)>,
) -> Seq<Seq<Seq<char>>>
    decreases listing.len(),
{
    if listing.len() == 0 {
        Seq::empty()
    } else {
        dir_children(dir, listing.drop_last()) + (match listing.last().1 {
            EntryKind::Dir => seq![dir.push(listing.last().0)],
            _ => Seq::empty(),
        })
    }
}

/// All ancestors of `dir`, the root and `dir` itself included, outermost
/// first.
pub open spec fn ancestor_paths(dir: Seq<Seq<char>>) -> Seq<Seq<Seq<char>>> {
    Seq::new(dir.len() + 1, |i: int| dir.subrange(0, i))
}

/// The breadcrumb entries for `dir`: one directory entry per ancestor,
/// each read from the tree.
pub open spec fn breadcrumb_entries(tree: Directory, dir: Seq<Seq<char>>) -> Seq<EntryView> {
    Seq::new(
        dir.len() + 1,
        |i: int|
            EntryView::Directory {
                path: dir.subrange(0, i),
                size: tree.size_at(dir.subrange(0, i)),
                updating: tree.status_at(dir.subrange(0, i)),
            },
    )
}

/// The scan coordinator's state: the tree, the current directory, and the
/// subscribed paths.
pub struct ScanCoordinator {
    /// The size aggregation tree the walk fills.
    pub tree: Directory,
    /// The directory the client is looking at.
    pub current_dir: Vec<String>,
    /// The paths whose size updates are worth emitting.
    pub subscribed: Vec<Vec<String>>,
}

impl ScanCoordinator {
    /// The coordinator's invariant: the tree is well-formed.
    pub open spec fn wf(self) -> bool {
        self.tree.wf()
    }

    /// The directory the client is looking at, as segment sequences.
    pub open spec fn current_dir_view(self) -> Seq<Seq<char>> {
        self.current_dir.deep_view()
    }

    /// The subscribed paths, as segment sequences.
    pub open spec fn subscribed_view(self) -> Seq<Seq<Seq<char>>> {
        self.subscribed.deep_view()
    }

    /// Whether a size update for `p` is worth emitting.
    pub open spec fn is_subscribed(self, p: Seq<Seq<char>>) -> bool {
        self.subscribed_view().contains(p)
    }

    /// A coordinator that has seen nothing: fresh tree, root as current
    /// directory, nothing subscribed.
    pub fn new() -> (c: ScanCoordinator)
        ensures
            c.wf(),
            c.tree.is_fresh(),
            c.current_dir_view() == Seq::<Seq<char>>::empty(),
            c.subscribed_view() == Seq::<Seq<Seq<char>>>::empty(),
    {
        let c = ScanCoordinator {
            tree: Directory::new(),
            current_dir: Vec::new(),
            subscribed: Vec::new(),
        };
        proof {
            assert(c.current_dir.deep_view() =~= Seq::<Seq<char>>::empty());
            assert(c.subscribed.deep_view() =~= Seq::<Seq<Seq<char>>>::empty());
        }
        c
    }

    /// Whether the coordinator subscribes to `p`.
    fn subscribes(&self, p: &Vec<String>) -> (r: bool)
        ensures
            r == self.is_subscribed(p.deep_view()),
    {
        let n = self.subscribed.len();
        let mut i: usize = 0;
        while i < n
            invariant
                0 <= i <= n,
                n == self.subscribed@.len(),
                forall|k: int|
                    0 <= k < i ==> self.subscribed.deep_view()[k] != p.deep_view(),
            decreases n - i,
        {
            if paths_equal(&self.subscribed[i], p) {
                proof {
                    assert(self.subscribed.deep_view()[i as int] == p.deep_view());
                }
                return true;
            }
            i = i + 1;
        }
        false
    }

    /// Serves one navigation request: records the new current directory,
    /// recomputes the subscribed paths from the listing, and builds the
    /// `DirectoryChange` answer, reading every directory size and status
    /// from the tree as it stands now.
    pub fn on_navigation(
        &mut self,
        path: Vec<String>,
        listing: &Vec<ListingEntry>,
        available_space: u64,
    ) -> (ev: EventMessage)
        requires
            old(self).wf(),
        ensures
            final(self).wf(),
            final(self).tree == old(self).tree,
            final(self).current_dir_view() == path.deep_view(),
            final(self).subscribed_view() == dir_children(
                path.deep_view(),
                listing.deep_view(),
            ) + ancestor_paths(path.deep_view()),
            ev@ == (EventMessageView::DirectoryChange {
                current_directory: EntryView::Directory {
                    path: path.deep_view(),
                    size: old(self).tree.size_at(path.deep_view()),
                    updating: old(self).tree.status_at(path.deep_view()),
                },
                entries: listing_entries(old(self).tree, path.deep_view(), listing.deep_view()),
                breadcrumb_entries: breadcrumb_entries(old(self).tree, path.deep_view()),
                available_space,
            }),
    {
        let ghost dir = path.deep_view();
        let ghost ldv = listing.deep_view();

        let mut entries: Vec<Entry> = Vec::new();
        let mut subscribed: Vec<Vec<String>> = Vec::new();
        proof {
            assert(ldv.subrange(0, 0) =~= Seq::<(Seq<char>, EntryKind)>::empty());
            assert(entries.deep_view() =~= Seq::<EntryView>::empty());
            assert(subscribed.deep_view() =~= Seq::<Seq<Seq<char>>>::empty());
        }
        let n = listing.len();
        let mut i: usize = 0;
        while i < n
            invariant
                self.wf(),
                self == old(self),
                0 <= i <= n,
                n == listing@.len(),
                dir == path.deep_view(),
                ldv == listing.deep_view(),
                entries.deep_view() =~= listing_entries(self.tree, dir, ldv.subrange(0, i as int)),
                subscribed.deep_view() =~= dir_children(dir, ldv.subrange(0, i as int)),
            decreases n - i,
        {
            let ghost e0 = entries.deep_view();
            let ghost s0 = subscribed.deep_view();
            proof {
                assert(ldv.subrange(0, i + 1).drop_last() =~= ldv.subrange(0, i as int));
                assert(ldv.subrange(0, i + 1).last() == ldv[i as int]);
            }
            let le = &listing[i];
            let mut full = path.clone();
            full.push(le.name.clone());
            proof {
                assert(full.deep_view() =~= dir.push(le.name@));
            }
            match le.kind {
                EntryKind::Dir => {
                    entries.push(self.tree.get_entry_directory(full.clone()));
                    subscribed.push(full);
                    proof {
                        assert(entries.deep_view() =~= e0.push(
                            EntryView::Directory {
                                path: dir.push(le.name@),
                                size: self.tree.size_at(dir.push(le.name@)),
                                updating: self.tree.status_at(dir.push(le.name@)),
                            },
                        ));
                        assert(subscribed.deep_view() =~= s0.push(dir.push(le.name@)));
                        assert(entries.deep_view() =~= listing_entries(
                            self.tree,
                            dir,
                            ldv.subrange(0, i + 1),
                        ));
                        assert(subscribed.deep_view() =~= dir_children(
                            dir,
                            ldv.subrange(0, i + 1),
                        ));
                    }
                },
                EntryKind::File(size) => {
                    entries.push(Entry::File { path: full, size });
                    proof {
                        assert(entries.deep_view() =~= e0.push(
                            EntryView::File { path: dir.push(le.name@), size },
                        ));
                        assert(entries.deep_view() =~= listing_entries(
                            self.tree,
                            dir,
                            ldv.subrange(0, i + 1),
                        ));
                        assert(subscribed.deep_view() =~= dir_children(
                            dir,
                            ldv.subrange(0, i + 1),
                        ));
                    }
                },
                EntryKind::Other => {
                    proof {
                        assert(entries.deep_view() =~= listing_entries(
                            self.tree,
                            dir,
                            ldv.subrange(0, i + 1),
                        ));
                        assert(subscribed.deep_view() =~= dir_children(
                            dir,
                            ldv.subrange(0, i + 1),
                        ));
                    }
                },
            }
            i = i + 1;
        }
        proof {
            assert(ldv.subrange(0, n as int) =~= ldv);
        }

        let ghost children = subscribed.deep_view();
        let mut breadcrumbs: Vec<Entry> = Vec::new();
        let mut cur: Vec<String> = Vec::new();
        proof {
            assert(cur.deep_view() =~= dir.subrange(0, 0));
            assert(breadcrumbs.deep_view() =~= Seq::<EntryView>::empty());
        }
        breadcrumbs.push(self.tree.get_entry_directory(cur.clone()));
        subscribed.push(cur.clone());
        proof {
            assert(breadcrumbs.deep_view() =~= breadcrumb_entries(self.tree, dir).subrange(0, 1));
            assert(subscribed.deep_view() =~= children + ancestor_paths(dir).subrange(0, 1));
        }
        let m = path.len();
        let mut j: usize = 0;
        while j < m
            invariant
                self.wf(),
                self == old(self),
                0 <= j <= m,
                m == path@.len(),
                dir == path.deep_view(),
                cur.deep_view() =~= dir.subrange(0, j as int),
                breadcrumbs.deep_view() =~= breadcrumb_entries(self.tree, dir).subrange(
                    0,
                    j + 1,
                ),
                subscribed.deep_view() =~= children + ancestor_paths(dir).subrange(0, j + 1),
            decreases m - j,
        {
            let ghost b0 = breadcrumbs.deep_view();
            let ghost s0 = subscribed.deep_view();
            proof {
                assert(dir.len() == m);
                assert(cur.deep_view().len() == j as int);
                assert(cur@.len() == j as int);
            }
            cur.push(path[j].clone());
            proof {
                assert(cur@.len() == j + 1);
                assert(cur@[j as int] == path@[j as int]);
                assert forall|k: int| 0 <= k < j + 1 implies cur.deep_view()[k] == dir.subrange(
                    0,
                    j + 1,
                )[k] by {
                    if k < j {
                        assert(cur.deep_view()[k] == dir.subrange(0, j as int)[k]);
                    } else {
                        assert(cur.deep_view()[k] == cur@[k].deep_view());
                        assert(dir.subrange(0, j + 1)[k] == path.deep_view()[k]);
                    }
                }
                assert(cur.deep_view() =~= dir.subrange(0, j + 1));
            }
            breadcrumbs.push(self.tree.get_entry_directory(cur.clone()));
            subscribed.push(cur.clone());
            proof {
                assert(breadcrumbs.deep_view() =~= b0.push(
                    EntryView::Directory {
                        path: dir.subrange(0, j + 1),
                        size: self.tree.size_at(dir.subrange(0, j + 1)),
                        updating: self.tree.status_at(dir.subrange(0, j + 1)),
                    },
                ));
                assert(subscribed.deep_view() =~= s0.push(dir.subrange(0, j + 1)));
                assert(breadcrumbs.deep_view() =~= breadcrumb_entries(self.tree, dir).subrange(
                    0,
                    j + 2,
                ));
                assert(subscribed.deep_view() =~= children + ancestor_paths(dir).subrange(
                    0,
                    j + 2,
                ));
            }
            j = j + 1;
        }
        proof {
            assert(breadcrumb_entries(self.tree, dir).subrange(
                0,
                m + 1,
            ) =~= breadcrumb_entries(self.tree, dir));
            assert(ancestor_paths(dir).subrange(0, m + 1) =~= ancestor_paths(dir));
        }

        let current_directory = self.tree.get_entry_directory(path.clone());
        self.current_dir = path;
        self.subscribed = subscribed;
        EventMessage::DirectoryChange {
            current_directory,
            entries,
            breadcrumb_entries: breadcrumbs,
            available_space,
        }
    }

    /// Applies one walk event to the tree and decides whether it is worth
    /// telling the client: a file observation causes a size update for its
    /// parent directory if that directory is subscribed; a directory event
    /// causes one for its own path if that path is subscribed. The emitted
    /// entry carries the tree's new size and status for the directory.
    pub fn on_walk_event(&mut self, ft: FileType) -> (r: Option<EventMessage>)
        requires
            old(self).wf(),
            ft@ matches FileTypeView::File { path, size } ==> path.len() >= 1 && old(
                self,
            ).tree.total_size + size <= u64::MAX,
        ensures
            final(self).wf(),
            final(self).current_dir_view() == old(self).current_dir_view(),
            final(self).subscribed_view() == old(self).subscribed_view(),
            ft@ matches FileTypeView::File { path, size } ==> {
                &&& applies_observation(old(self).tree, path, size, final(self).tree)
                &&& r.deep_view() == (if old(self).is_subscribed(path.drop_last()) {
                    Some(
                        EventMessageView::SizeUpdate {
                            entry: EntryView::Directory {
                                path: path.drop_last(),
                                size: final(self).tree.size_at(path.drop_last()),
                                updating: final(self).tree.status_at(path.drop_last()),
                            },
                        },
                    )
                } else {
                    None::<EventMessageView>
                })
            },
            ft@ matches FileTypeView::Dir { path, status } ==> {
                &&& sets_status(old(self).tree, path, walk_status(status), final(self).tree)
                &&& r.deep_view() == (if old(self).is_subscribed(path) {
                    Some(
                        EventMessageView::SizeUpdate {
                            entry: EntryView::Directory {
                                path,
                                size: final(self).tree.size_at(path),
                                updating: final(self).tree.status_at(path),
                            },
                        },
                    )
                } else {
                    None::<EventMessageView>
                })
            },
    {
        match &ft {
            FileType::File(fs) => {
                let mut parent = fs.0.clone();
                parent.pop();
                proof {
                    assert(parent.deep_view() =~= fs.0.deep_view().drop_last());
                }
                let watched = self.subscribes(&parent);
                self.tree.update(&ft);
                if watched {
                    Some(EventMessage::SizeUpdate { entry: self.tree.get_entry_directory(parent) })
                } else {
                    None
                }
            },
            FileType::Dir(path, _) => {
                let target = path.clone();
                let watched = self.subscribes(&target);
                self.tree.update(&ft);
                if watched {
                    Some(EventMessage::SizeUpdate { entry: self.tree.get_entry_directory(target) })
                } else {
                    None
                }
            },
        }
    }
}

} // verus!
