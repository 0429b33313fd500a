//! The size aggregation tree.
//!
//! A `Directory` node carries the cumulative byte size of its subtree, its
//! scan status, and its children keyed by path segment. The tree is built
//! lazily while the walk runs: `update` applies one walk event, creating
//! nodes on demand. Looking up a path the walk has not reached is not an
//! error; it reads as size `0` and status `Idle`.
//!
//! The contracts speak of three total functions of a node: `size_at`,
//! `status_at` and `known`, each indexed by a relative path. The
//! aggregation law `lemma_aggregation` states that after any sequence of
//! file observations applied to a fresh tree, `size_at` of every directory
//! equals the summed sizes of the observations below it.

use vstd::prelude::*;
use crate::api::{Entry, EntryView, UpdatingStatus};
use crate::paths::{is_prefix, is_strict_prefix, lemma_head_tail, lemma_prefix_empty, lemma_prefix_step};
use crate::walk::{DirStatus, FileType, FileTypeView};

verus! {

broadcast use vstd::std_specs::vec::group_vec_axioms;

/// One node of the size aggregation tree.
#[derive(Debug)]
pub struct Directory {
    /// The scan status of the directory this node stands for.
    pub updating: UpdatingStatus,
    /// The summed sizes of all file observations applied below this node.
    pub total_size: u64,
    /// The children created so far, keyed by path segment; names are
    /// looked up by first match.
    pub entries: Vec<(String, Directory)>,
}

/// The first child of `s` whose name reads `name`.
pub open spec fn lookup_child(s: Seq<(String, Directory)>, name: Seq<char>) -> Option<
    Directory,
>
    decreases s.len(),
{
    if s.len() == 0 {
        None
    } else if s[0].0@ == name {
        Some(s[0].1)
    } else {
        lookup_child(s.drop_first(), name)
    }
}

impl Directory {
    /// The child of this node named `name`, if the walk has created it.
    pub open spec fn child(self, name: Seq<char>) -> Option<Directory> {
        lookup_child(self.entries@, name)
    }

    /// The node reached by descending along `path`, if every segment of
    /// `path` names an existing child.
    pub open spec fn subtree(self, path: Seq<Seq<char>>) -> Option<Directory>
        decreases path.len(),
    {
        if path.len() == 0 {
            Some(self)
        } else {
            match self.child(path[0]) {
                None => None,
                Some(c) => c.subtree(path.drop_first()),
            }
        }
    }

    /// Whether the walk has created a node for `path`.
    pub open spec fn known(self, path: Seq<Seq<char>>) -> bool {
        self.subtree(path) is Some
    }

    /// The aggregated size recorded for `path`; `0` where no node exists.
    pub open spec fn size_at(self, path: Seq<Seq<char>>) -> u64 {
        match self.subtree(path) {
            Some(d) => d.total_size,
            None => 0,
        }
    }

    /// The scan status recorded for `path`; `Idle` where no node exists.
    pub open spec fn status_at(self, path: Seq<Seq<char>>) -> UpdatingStatus {
        match self.subtree(path) {
            Some(d) => d.updating,
            None => UpdatingStatus::Idle,
        }
    }

    /// Every node's aggregate is bounded by its parent's: sizes only ever
    /// flow upward, so the root's total dominates the whole tree.
    pub open spec fn wf(self) -> bool
        decreases self,
    {
        forall|i: int|
            0 <= i < self.entries@.len() ==> {
                &&& (#[trigger] self.entries@[i]).1.total_size <= self.total_size
                &&& self.entries@[i].1.wf()
            }
    }

    /// A node the walk has not touched: no children, no size, idle.
    pub open spec fn is_fresh(self) -> bool {
        self.total_size == 0 && self.updating == UpdatingStatus::Idle && self.entries@.len()
            == 0
    }

    /// A fresh node: size `0`, status `Idle`, no children.
    pub fn new() -> (d: Directory)
        ensures
            d.is_fresh(),
            d.wf(),
    {
        Directory { updating: UpdatingStatus::Idle, total_size: 0, entries: Vec::new() }
    }

    /// The index of the first child named `name`.
    fn find_child(&self, name: &String) -> (r: Option<usize>)
        ensures
            match r {
                Some(j) => {
                    &&& j < self.entries@.len()
                    &&& self.entries@[j as int].0@ == name@
                    &&& forall|k: int| 0 <= k < j ==> (#[trigger] self.entries@[k]).0@ != name@
                },
                None => forall|k: int|
                    0 <= k < self.entries@.len() ==> (#[trigger] self.entries@[k]).0@ != name@,
            },
    {
        let n = self.entries.len();
        let mut j: usize = 0;
        while j < n
            invariant
                0 <= j <= n,
                n == self.entries@.len(),
                forall|k: int| 0 <= k < j ==> (#[trigger] self.entries@[k]).0@ != name@,
            decreases n - j,
        {
            if self.entries[j].0.eq(name) {
                return Some(j);
            }
            j = j + 1;
        }
        None
    }
}

/// A node without children knows only itself.
proof fn lemma_leaf(d: Directory)
    requires
        d.entries@.len() == 0,
    ensures
        forall|p: Seq<Seq<char>>| p.len() > 0 ==> #[trigger] d.subtree(p) is None,
{
    assert forall|p: Seq<Seq<char>>| p.len() > 0 implies #[trigger] d.subtree(p) is None by {
        assert(d.child(p[0]) is None);
    }
}

/// A fresh node reads as the defaults everywhere: size `0`, status `Idle`,
/// and no known path but its own.
proof fn lemma_fresh_defaults(d: Directory)
    requires
        d.is_fresh(),
    ensures
        forall|q: Seq<Seq<char>>| #[trigger] d.size_at(q) == 0,
        forall|q: Seq<Seq<char>>| #[trigger] d.status_at(q) == UpdatingStatus::Idle,
        forall|q: Seq<Seq<char>>| #[trigger] d.known(q) <==> q.len() == 0,
{
    lemma_leaf(d);
}

/// A found child is the looked-up child: if the first match in the entry
/// sequence sits at index `j`, the lookup yields exactly that child.
proof fn lemma_lookup_at_index(s: Seq<(String, Directory)>, name: Seq<char>, j: int)
    requires
        0 <= j < s.len(),
        s[j].0@ == name,
        forall|k: int| 0 <= k < j ==> (#[trigger] s[k]).0@ != name,
    ensures
        lookup_child(s, name) == Some(s[j].1),
    decreases j,
{
    if j == 0 {
    } else {
        lemma_lookup_at_index(s.drop_first(), name, j - 1);
    }
}

/// If no entry is named `name`, the lookup misses.
proof fn lemma_lookup_missing(s: Seq<(String, Directory)>, name: Seq<char>)
    requires
        forall|k: int| 0 <= k < s.len() ==> (#[trigger] s[k]).0@ != name,
    ensures
        lookup_child(s, name) is None,
    decreases s.len(),
{
    if s.len() > 0 {
        lemma_lookup_missing(s.drop_first(), name);
    }
}

/// Replacing the first child named `name` changes that lookup alone.
proof fn lemma_lookup_update(
    s: Seq<(String, Directory)>,
    name: Seq<char>,
    j: int,
    d: Directory,
)
    requires
        0 <= j < s.len(),
        s[j].0@ == name,
        forall|k: int| 0 <= k < j ==> (#[trigger] s[k]).0@ != name,
    ensures
        lookup_child(s.update(j, (s[j].0, d)), name) == Some(d),
        forall|m: Seq<char>|
            m != name ==> #[trigger] lookup_child(s.update(j, (s[j].0, d)), m) == lookup_child(
                s,
                m,
            ),
    decreases j,
{
    let s2 = s.update(j, (s[j].0, d));
    if j == 0 {
        assert forall|m: Seq<char>| m != name implies #[trigger] lookup_child(s2, m)
            == lookup_child(s, m) by {
            assert(s2.drop_first() =~= s.drop_first());
        }
    } else {
        lemma_lookup_update(s.drop_first(), name, j - 1, d);
        assert(s2.drop_first() =~= s.drop_first().update(j - 1, (s[j].0, d)));
        assert(s2[0] == s[0]);
        assert forall|m: Seq<char>| m != name implies #[trigger] lookup_child(s2, m)
            == lookup_child(s, m) by {
            if s[0].0@ != m {
                assert(lookup_child(s2, m) == lookup_child(s2.drop_first(), m));
                assert(lookup_child(s, m) == lookup_child(s.drop_first(), m));
            }
        }
    }
}

/// Appending a child named `name` where none existed adds that lookup and
/// changes no other.
proof fn lemma_lookup_push(s: Seq<(String, Directory)>, name: String, d: Directory)
    requires
        forall|k: int| 0 <= k < s.len() ==> (#[trigger] s[k]).0@ != name@,
    ensures
        lookup_child(s.push((name, d)), name@) == Some(d),
        forall|m: Seq<char>|
            m != name@ ==> #[trigger] lookup_child(s.push((name, d)), m) == lookup_child(s, m),
    decreases s.len(),
{
    let s2 = s.push((name, d));
    if s.len() == 0 {
        assert(s2[0] == (name, d));
        assert forall|m: Seq<char>| m != name@ implies #[trigger] lookup_child(s2, m)
            == lookup_child(s, m) by {
            assert(lookup_child(s2.drop_first(), m) is None) by {
                assert(s2.drop_first() =~= Seq::<(String, Directory)>::empty());
            }
        }
    } else {
        lemma_lookup_push(s.drop_first(), name, d);
        assert(s2.drop_first() =~= s.drop_first().push((name, d)));
        assert(s2[0] == s[0]);
        assert forall|m: Seq<char>| m != name@ implies #[trigger] lookup_child(s2, m)
            == lookup_child(s, m) by {
            if s[0].0@ != m {
                assert(lookup_child(s2, m) == lookup_child(s2.drop_first(), m));
                assert(lookup_child(s, m) == lookup_child(s.drop_first(), m));
            }
        }
    }
}

/// Nodes whose relevant child agrees reach the same subtrees.
proof fn lemma_subtree_unchanged(t: Directory, t2: Directory, p: Seq<Seq<char>>)
    requires
        p.len() > 0,
        t2.child(p[0]) == t.child(p[0]),
    ensures
        t2.subtree(p) == t.subtree(p),
{
}

impl Directory {
    /// Adds `size` to this node and to the nodes along
    /// `components[i..stop]`, creating missing nodes on the way.
    fn add_file_rec(&mut self, components: &[String], stop: usize, i: usize, size: u64)
        requires
            old(self).wf(),
            i <= stop <= components@.len(),
            old(self).total_size + size <= u64::MAX,
        ensures
            final(self).wf(),
            final(self).updating == old(self).updating,
            final(self).total_size == old(self).total_size + size,
            forall|p: Seq<Seq<char>>|
                #[trigger] final(self).size_at(p) == old(self).size_at(p) + (
                if is_prefix(p, components.deep_view().subrange(i as int, stop as int)) {
                    size as int
                } else {
                    0
                }),
            forall|p: Seq<Seq<char>>|
                #[trigger] final(self).status_at(p) == old(self).status_at(p),
            forall|p: Seq<Seq<char>>|
                #[trigger] final(self).known(p) <==> (old(self).known(p) || is_prefix(
                    p,
                    components.deep_view().subrange(i as int, stop as int),
                )),
        decreases stop - i,
    {
        let ghost t0 = *self;
        let ghost rest = components.deep_view().subrange(i as int, stop as int);
        self.total_size = self.total_size + size;
        if i == stop {
            proof {
                assert(rest =~= Seq::<Seq<char>>::empty());
                assert forall|p: Seq<Seq<char>>| p.len() > 0 implies #[trigger] self.subtree(p)
                    == t0.subtree(p) by {
                    lemma_subtree_unchanged(t0, *self, p);
                }
                assert forall|p: Seq<Seq<char>>| #[trigger] is_prefix(p, rest) == (p.len()
                    == 0) by {
                    lemma_prefix_empty(p, rest);
                }
                assert forall|k: int| 0 <= k < self.entries@.len() implies {
                    &&& (#[trigger] self.entries@[k]).1.total_size <= self.total_size
                    &&& self.entries@[k].1.wf()
                } by {
                    assert(t0.entries@[k].1.total_size <= t0.total_size);
                }
            }
        } else {
            let name = &components[i];
            proof {
                assert(rest[0] == name@);
                assert(rest.drop_first() =~= components.deep_view().subrange(
                    i + 1,
                    stop as int,
                ));
                assert(rest.len() > 0);
            }
            let ghost tail = rest.drop_first();
            match self.find_child(name) {
                Some(j) => {
                    proof {
                        lemma_lookup_at_index(t0.entries@, name@, j as int);
                        assert(t0.entries@[j as int].1.wf());
                        assert(t0.entries@[j as int].1.total_size <= t0.total_size);
                    }
                    let mut pair = self.entries.remove(j);
                    let ghost c0 = pair.1;
                    (&mut pair.1).add_file_rec(components, stop, i + 1, size);
                    let ghost c2 = pair.1;
                    self.entries.insert(j, pair);
                    proof {
                        assert(self.entries@ =~= t0.entries@.update(
                            j as int,
                            (t0.entries@[j as int].0, c2),
                        ));
                        lemma_lookup_update(t0.entries@, name@, j as int, c2);
                        lemma_level_facts(t0, *self, name@, Some(c0), c2, size as int, rest);
                        assert forall|k: int| 0 <= k < self.entries@.len() implies {
                            &&& (#[trigger] self.entries@[k]).1.total_size <= self.total_size
                            &&& self.entries@[k].1.wf()
                        } by {
                            if k != j {
                                assert(self.entries@[k] == t0.entries@[k]);
                                assert(t0.entries@[k].1.total_size <= t0.total_size);
                            }
                        }
                    }
                },
                None => {
                    proof {
                        lemma_lookup_missing(t0.entries@, name@);
                    }
                    let cloned = name.clone();
                    let mut child = Directory::new();
                    let ghost c0 = child;
                    child.add_file_rec(components, stop, i + 1, size);
                    let ghost c2 = child;
                    self.entries.push((cloned, child));
                    proof {
                        assert(self.entries@ =~= t0.entries@.push((cloned, c2)));
                        lemma_lookup_push(t0.entries@, cloned, c2);
                        lemma_fresh_defaults(c0);
                        lemma_level_facts(t0, *self, name@, None, c2, size as int, rest);
                        assert forall|k: int| 0 <= k < self.entries@.len() implies {
                            &&& (#[trigger] self.entries@[k]).1.total_size <= self.total_size
                            &&& self.entries@[k].1.wf()
                        } by {
                            if k != t0.entries@.len() {
                                assert(self.entries@[k] == t0.entries@[k]);
                                assert(t0.entries@[k].1.total_size <= t0.total_size);
                            }
                        }
                    }
                },
            }
        }
    }
}

/// A path is a prefix of a file's parent path exactly when it is a strict
/// prefix of the file's own path.
proof fn lemma_prefix_of_parent(p: Seq<Seq<char>>, q: Seq<Seq<char>>)
    requires
        q.len() >= 1,
    ensures
        is_prefix(p, q.subrange(0, q.len() - 1)) <==> is_strict_prefix(p, q),
{
    if p.len() <= q.len() - 1 {
        assert(q.subrange(0, q.len() - 1).subrange(0, p.len() as int) =~= q.subrange(
            0,
            p.len() as int,
        ));
    }
}

/// What one file observation does to the tree, stated over the three view
/// functions: `size` is added exactly below the ancestors of the file, no
/// status changes, and exactly the file's ancestors become known.
pub open spec fn applies_observation(
    t: Directory,
    path: Seq<Seq<char>>,
    size: u64,
    t2: Directory,
) -> bool {
    &&& forall|p: Seq<Seq<char>>|
        #[trigger] t2.size_at(p) == t.size_at(p) + (if is_strict_prefix(p, path) {
            size as int
        } else {
            0
        })
    &&& forall|p: Seq<Seq<char>>| #[trigger] t2.status_at(p) == t.status_at(p)
    &&& forall|p: Seq<Seq<char>>|
        #[trigger] t2.known(p) <==> (t.known(p) || is_strict_prefix(p, path))
}

/// What one directory event does to the tree: no size changes, the status
/// of exactly the event's path becomes `st`, and exactly the path and its
/// ancestors become known.
pub open spec fn sets_status(
    t: Directory,
    path: Seq<Seq<char>>,
    st: UpdatingStatus,
    t2: Directory,
) -> bool {
    &&& forall|p: Seq<Seq<char>>| #[trigger] t2.size_at(p) == t.size_at(p)
    &&& forall|p: Seq<Seq<char>>|
        #[trigger] t2.status_at(p) == (if p == path {
            st
        } else {
            t.status_at(p)
        })
    &&& forall|p: Seq<Seq<char>>| #[trigger] t2.known(p) <==> (t.known(p) || is_prefix(p, path))
}

/// The status a directory event leaves behind: a `Started` phase marks the
/// directory as updating, a `Finished` phase as finished.
pub open spec fn walk_status(s: DirStatus) -> UpdatingStatus {
    match s {
        DirStatus::Started => UpdatingStatus::Updating,
        DirStatus::Finished => UpdatingStatus::Finished,
    }
}

/// The one-level composition step of `add_file_rec`: if a tree changed
/// only by `size` on its own total and by swapping the child named
/// `rest[0]` for one whose subtree sizes grew by `size` along
/// `rest.drop_first()`, then the whole tree's sizes grew by `size` exactly
/// along `rest`, statuses are untouched, and exactly the prefixes of
/// `rest` became known.
proof fn lemma_level_facts(
    t0: Directory,
    t2: Directory,
    name: Seq<char>,
    c0_opt: Option<Directory>,
    c2: Directory,
    size: int,
    rest: Seq<Seq<char>>,
)
    requires
        rest.len() > 0,
        rest[0] == name,
        t0.child(name) == c0_opt,
        t2.child(name) == Some(c2),
        forall|m: Seq<char>| m != name ==> #[trigger] t2.child(m) == t0.child(m),
        t2.total_size == t0.total_size + size,
        t2.updating == t0.updating,
        ({
            let tail = rest.drop_first();
            match c0_opt {
                Some(c0) => {
                    &&& forall|q: Seq<Seq<char>>|
                        #[trigger] c2.size_at(q) == c0.size_at(q) + (if is_prefix(q, tail) {
                            size
                        } else {
                            0
                        })
                    &&& forall|q: Seq<Seq<char>>| #[trigger] c2.status_at(q) == c0.status_at(q)
                    &&& forall|q: Seq<Seq<char>>|
                        #[trigger] c2.known(q) <==> (c0.known(q) || is_prefix(q, tail))
                },
                None => {
                    &&& forall|q: Seq<Seq<char>>|
                        #[trigger] c2.size_at(q) == (if is_prefix(q, rest.drop_first()) {
                            size
                        } else {
                            0
                        })
                    &&& forall|q: Seq<Seq<char>>|
                        #[trigger] c2.status_at(q) == UpdatingStatus::Idle
                    &&& forall|q: Seq<Seq<char>>|
                        #[trigger] c2.known(q) <==> (q.len() == 0 || is_prefix(
                            q,
                            rest.drop_first(),
                        ))
                },
            }
        }),
    ensures
        forall|p: Seq<Seq<char>>|
            #[trigger] t2.size_at(p) == t0.size_at(p) + (if is_prefix(p, rest) {
                size
            } else {
                0
            }),
        forall|p: Seq<Seq<char>>| #[trigger] t2.status_at(p) == t0.status_at(p),
        forall|p: Seq<Seq<char>>|
            #[trigger] t2.known(p) <==> (t0.known(p) || is_prefix(p, rest)),
{
    assert forall|p: Seq<Seq<char>>|
        #[trigger] t2.size_at(p) == t0.size_at(p) + (if is_prefix(p, rest) {
            size
        } else {
            0
        }) by {
        lemma_level_point(t0, t2, name, c0_opt, c2, size, rest, p);
    }
    assert forall|p: Seq<Seq<char>>| #[trigger] t2.status_at(p) == t0.status_at(p) by {
        lemma_level_point(t0, t2, name, c0_opt, c2, size, rest, p);
    }
    assert forall|p: Seq<Seq<char>>| #[trigger] t2.known(p) <==> (t0.known(p) || is_prefix(
        p,
        rest,
    )) by {
        lemma_level_point(t0, t2, name, c0_opt, c2, size, rest, p);
    }
}

/// `lemma_level_facts` at a single path.
proof fn lemma_level_point(
    t0: Directory,
    t2: Directory,
    name: Seq<char>,
    c0_opt: Option<Directory>,
    c2: Directory,
    size: int,
    rest: Seq<Seq<char>>,
    p: Seq<Seq<char>>,
)
    requires
        rest.len() > 0,
        rest[0] == name,
        t0.child(name) == c0_opt,
        t2.child(name) == Some(c2),
        forall|m: Seq<char>| m != name ==> #[trigger] t2.child(m) == t0.child(m),
        t2.total_size == t0.total_size + size,
        t2.updating == t0.updating,
        ({
            let tail = rest.drop_first();
            match c0_opt {
                Some(c0) => {
                    &&& forall|q: Seq<Seq<char>>|
                        #[trigger] c2.size_at(q) == c0.size_at(q) + (if is_prefix(q, tail) {
                            size
                        } else {
                            0
                        })
                    &&& forall|q: Seq<Seq<char>>| #[trigger] c2.status_at(q) == c0.status_at(q)
                    &&& forall|q: Seq<Seq<char>>|
                        #[trigger] c2.known(q) <==> (c0.known(q) || is_prefix(q, tail))
                },
                None => {
                    &&& forall|q: Seq<Seq<char>>|
                        #[trigger] c2.size_at(q) == (if is_prefix(q, tail) {
                            size
                        } else {
                            0
                        })
                    &&& forall|q: Seq<Seq<char>>|
                        #[trigger] c2.status_at(q) == UpdatingStatus::Idle
                    &&& forall|q: Seq<Seq<char>>|
                        #[trigger] c2.known(q) <==> (q.len() == 0 || is_prefix(q, tail))
                },
            }
        }),
    ensures
        t2.size_at(p) == t0.size_at(p) + (if is_prefix(p, rest) {
            size
        } else {
            0
        }),
        t2.status_at(p) == t0.status_at(p),
        t2.known(p) <==> (t0.known(p) || is_prefix(p, rest)),
{
    let tail = rest.drop_first();
    if p.len() == 0 {
        lemma_prefix_empty(p, rest);
    } else {
        lemma_prefix_step(p, rest);
        let pt = p.drop_first();
        if p[0] == name {
            assert(t2.subtree(p) == c2.subtree(pt));
            match c0_opt {
                Some(c0) => {
                    assert(t0.subtree(p) == c0.subtree(pt));
                    assert(c2.size_at(pt) == c0.size_at(pt) + (if is_prefix(pt, tail) {
                        size
                    } else {
                        0
                    }));
                    assert(c2.status_at(pt) == c0.status_at(pt));
                    assert(c2.known(pt) <==> (c0.known(pt) || is_prefix(pt, tail)));
                },
                None => {
                    assert(t0.subtree(p) is None);
                    assert(c2.size_at(pt) == (if is_prefix(pt, tail) {
                        size
                    } else {
                        0
                    }));
                    assert(c2.status_at(pt) == UpdatingStatus::Idle);
                    assert(c2.known(pt) <==> (pt.len() == 0 || is_prefix(pt, tail)));
                    if pt.len() == 0 {
                        lemma_prefix_empty(pt, tail);
                    }
                },
            }
        } else {
            lemma_subtree_unchanged(t0, t2, p);
        }
    }
}

/// The one-level composition step of `set_updating_rec`, at a single path.
proof fn lemma_set_point(
    t0: Directory,
    t2: Directory,
    name: Seq<char>,
    c0_opt: Option<Directory>,
    c2: Directory,
    st: UpdatingStatus,
    rest: Seq<Seq<char>>,
    p: Seq<Seq<char>>,
)
    requires
        rest.len() > 0,
        rest[0] == name,
        t0.child(name) == c0_opt,
        t2.child(name) == Some(c2),
        forall|m: Seq<char>| m != name ==> #[trigger] t2.child(m) == t0.child(m),
        t2.total_size == t0.total_size,
        t2.updating == t0.updating,
        ({
            let tail = rest.drop_first();
            match c0_opt {
                Some(c0) => {
                    &&& forall|q: Seq<Seq<char>>| #[trigger] c2.size_at(q) == c0.size_at(q)
                    &&& forall|q: Seq<Seq<char>>|
                        #[trigger] c2.status_at(q) == (if q == tail {
                            st
                        } else {
                            c0.status_at(q)
                        })
                    &&& forall|q: Seq<Seq<char>>|
                        #[trigger] c2.known(q) <==> (c0.known(q) || is_prefix(q, tail))
                },
                None => {
                    &&& forall|q: Seq<Seq<char>>| #[trigger] c2.size_at(q) == 0
                    &&& forall|q: Seq<Seq<char>>|
                        #[trigger] c2.status_at(q) == (if q == tail {
                            st
                        } else {
                            UpdatingStatus::Idle
                        })
                    &&& forall|q: Seq<Seq<char>>|
                        #[trigger] c2.known(q) <==> (q.len() == 0 || is_prefix(q, tail))
                },
            }
        }),
    ensures
        t2.size_at(p) == t0.size_at(p),
        t2.status_at(p) == (if p == rest {
            st
        } else {
            t0.status_at(p)
        }),
        t2.known(p) <==> (t0.known(p) || is_prefix(p, rest)),
{
    let tail = rest.drop_first();
    if p.len() == 0 {
        lemma_prefix_empty(p, rest);
    } else {
        lemma_prefix_step(p, rest);
        lemma_head_tail(p, rest);
        let pt = p.drop_first();
        if p[0] == name {
            assert(t2.subtree(p) == c2.subtree(pt));
            assert(c2.size_at(pt) == c2.size_at(pt));
            match c0_opt {
                Some(c0) => {
                    assert(t0.subtree(p) == c0.subtree(pt));
                    assert(c2.size_at(pt) == c0.size_at(pt));
                    assert(c2.status_at(pt) == (if pt == tail {
                        st
                    } else {
                        c0.status_at(pt)
                    }));
                    assert(c2.known(pt) <==> (c0.known(pt) || is_prefix(pt, tail)));
                },
                None => {
                    assert(t0.subtree(p) is None);
                    assert(c2.size_at(pt) == 0);
                    assert(c2.status_at(pt) == (if pt == tail {
                        st
                    } else {
                        UpdatingStatus::Idle
                    }));
                    assert(c2.known(pt) <==> (pt.len() == 0 || is_prefix(pt, tail)));
                    if pt.len() == 0 {
                        lemma_prefix_empty(pt, tail);
                    }
                },
            }
        } else {
            lemma_subtree_unchanged(t0, t2, p);
        }
    }
}

impl Directory {
    /// Creates the node at `components[i..]` if it is missing, along with
    /// its missing ancestors, and sets its status to `st`.
    fn set_updating_rec(&mut self, components: &[String], i: usize, st: UpdatingStatus)
        requires
            old(self).wf(),
            i <= components@.len(),
        ensures
            final(self).wf(),
            final(self).total_size == old(self).total_size,
            forall|p: Seq<Seq<char>>| #[trigger] final(self).size_at(p) == old(self).size_at(p),
            forall|p: Seq<Seq<char>>|
                #[trigger] final(self).status_at(p) == (if p == components.deep_view().subrange(
                    i as int,
                    components@.len() as int,
                ) {
                    st
                } else {
                    old(self).status_at(p)
                }),
            forall|p: Seq<Seq<char>>|
                #[trigger] final(self).known(p) <==> (old(self).known(p) || is_prefix(
                    p,
                    components.deep_view().subrange(i as int, components@.len() as int),
                )),
        decreases components@.len() - i,
    {
        let ghost t0 = *self;
        let ghost rest = components.deep_view().subrange(i as int, components@.len() as int);
        if i == components.len() {
            self.updating = st;
            proof {
                assert(rest =~= Seq::<Seq<char>>::empty());
                assert forall|p: Seq<Seq<char>>| p.len() > 0 implies #[trigger] self.subtree(p)
                    == t0.subtree(p) by {
                    lemma_subtree_unchanged(t0, *self, p);
                }
                assert forall|p: Seq<Seq<char>>| #[trigger] is_prefix(p, rest) == (p.len()
                    == 0) by {
                    lemma_prefix_empty(p, rest);
                }
                assert forall|p: Seq<Seq<char>>| p.len() == 0 implies p == rest by {
                    assert(p =~= rest);
                }
                assert forall|k: int| 0 <= k < self.entries@.len() implies {
                    &&& (#[trigger] self.entries@[k]).1.total_size <= self.total_size
                    &&& self.entries@[k].1.wf()
                } by {
                    assert(t0.entries@[k].1.total_size <= t0.total_size);
                }
            }
        } else {
            let name = &components[i];
            proof {
                assert(rest[0] == name@);
                assert(rest.drop_first() =~= components.deep_view().subrange(
                    i + 1,
                    components@.len() as int,
                ));
            }
            match self.find_child(name) {
                Some(j) => {
                    proof {
                        lemma_lookup_at_index(t0.entries@, name@, j as int);
                        assert(t0.entries@[j as int].1.wf());
                        assert(t0.entries@[j as int].1.total_size <= t0.total_size);
                    }
                    let mut pair = self.entries.remove(j);
                    let ghost c0 = pair.1;
                    (&mut pair.1).set_updating_rec(components, i + 1, st);
                    let ghost c2 = pair.1;
                    self.entries.insert(j, pair);
                    proof {
                        assert(self.entries@ =~= t0.entries@.update(
                            j as int,
                            (t0.entries@[j as int].0, c2),
                        ));
                        lemma_lookup_update(t0.entries@, name@, j as int, c2);
                        lemma_set_summary(t0, *self, name@, Some(c0), c2, st, rest);
                        assert forall|k: int| 0 <= k < self.entries@.len() implies {
                            &&& (#[trigger] self.entries@[k]).1.total_size <= self.total_size
                            &&& self.entries@[k].1.wf()
                        } by {
                            if k != j {
                                assert(self.entries@[k] == t0.entries@[k]);
                                assert(t0.entries@[k].1.total_size <= t0.total_size);
                            }
                        }
                    }
                },
                None => {
                    proof {
                        lemma_lookup_missing(t0.entries@, name@);
                    }
                    let cloned = name.clone();
                    let mut child = Directory::new();
                    let ghost c0 = child;
                    child.set_updating_rec(components, i + 1, st);
                    let ghost c2 = child;
                    self.entries.push((cloned, child));
                    proof {
                        assert(self.entries@ =~= t0.entries@.push((cloned, c2)));
                        lemma_lookup_push(t0.entries@, cloned, c2);
                        lemma_fresh_defaults(c0);
                        lemma_set_summary(t0, *self, name@, None, c2, st, rest);
                        assert forall|k: int| 0 <= k < self.entries@.len() implies {
                            &&& (#[trigger] self.entries@[k]).1.total_size <= self.total_size
                            &&& self.entries@[k].1.wf()
                        } by {
                            if k != t0.entries@.len() {
                                assert(self.entries@[k] == t0.entries@[k]);
                                assert(t0.entries@[k].1.total_size <= t0.total_size);
                            }
                        }
                    }
                },
            }
        }
    }
}

/// `lemma_set_point`, summarized over all paths.
proof fn lemma_set_summary(
    t0: Directory,
    t2: Directory,
    name: Seq<char>,
    c0_opt: Option<Directory>,
    c2: Directory,
    st: UpdatingStatus,
    rest: Seq<Seq<char>>,
)
    requires
        rest.len() > 0,
        rest[0] == name,
        t0.child(name) == c0_opt,
        t2.child(name) == Some(c2),
        forall|m: Seq<char>| m != name ==> #[trigger] t2.child(m) == t0.child(m),
        t2.total_size == t0.total_size,
        t2.updating == t0.updating,
        ({
            let tail = rest.drop_first();
            match c0_opt {
                Some(c0) => {
                    &&& forall|q: Seq<Seq<char>>| #[trigger] c2.size_at(q) == c0.size_at(q)
                    &&& forall|q: Seq<Seq<char>>|
                        #[trigger] c2.status_at(q) == (if q == tail {
                            st
                        } else {
                            c0.status_at(q)
                        })
                    &&& forall|q: Seq<Seq<char>>|
                        #[trigger] c2.known(q) <==> (c0.known(q) || is_prefix(q, tail))
                },
                None => {
                    &&& forall|q: Seq<Seq<char>>| #[trigger] c2.size_at(q) == 0
                    &&& forall|q: Seq<Seq<char>>|
                        #[trigger] c2.status_at(q) == (if q == tail {
                            st
                        } else {
                            UpdatingStatus::Idle
                        })
                    &&& forall|q: Seq<Seq<char>>|
                        #[trigger] c2.known(q) <==> (q.len() == 0 || is_prefix(q, tail))
                },
            }
        }),
    ensures
        forall|p: Seq<Seq<char>>| #[trigger] t2.size_at(p) == t0.size_at(p),
        forall|p: Seq<Seq<char>>|
            #[trigger] t2.status_at(p) == (if p == rest {
                st
            } else {
                t0.status_at(p)
            }),
        forall|p: Seq<Seq<char>>|
            #[trigger] t2.known(p) <==> (t0.known(p) || is_prefix(p, rest)),
{
    assert forall|p: Seq<Seq<char>>| #[trigger] t2.size_at(p) == t0.size_at(p) by {
        lemma_set_point(t0, t2, name, c0_opt, c2, st, rest, p);
    }
    assert forall|p: Seq<Seq<char>>| #[trigger] t2.status_at(p) == (if p == rest {
        st
    } else {
        t0.status_at(p)
    }) by {
        lemma_set_point(t0, t2, name, c0_opt, c2, st, rest, p);
    }
    assert forall|p: Seq<Seq<char>>| #[trigger] t2.known(p) <==> (t0.known(p) || is_prefix(
        p,
        rest,
    )) by {
        lemma_set_point(t0, t2, name, c0_opt, c2, st, rest, p);
    }
}

impl Directory {
    /// Creates the node at `components` on demand and sets its status,
    /// leaving every recorded size alone.
    fn set_updating(&mut self, components: &[String], updating: UpdatingStatus)
        requires
            old(self).wf(),
        ensures
            final(self).wf(),
            sets_status(*old(self), components.deep_view(), updating, *final(self)),
    {
        self.set_updating_rec(components, 0, updating);
        proof {
            assert(components.deep_view().subrange(0, components@.len() as int)
                =~= components.deep_view());
        }
    }

    /// Adds `size` to the aggregate of this node and of every node along
    /// the directory path `components`, creating missing nodes on demand.
    fn add_file(&mut self, components: &[String], size: u64)
        requires
            old(self).wf(),
            old(self).total_size + size <= u64::MAX,
        ensures
            final(self).wf(),
            forall|p: Seq<Seq<char>>|
                #[trigger] final(self).size_at(p) == old(self).size_at(p) + (if is_prefix(
                    p,
                    components.deep_view(),
                ) {
                    size as int
                } else {
                    0
                }),
            forall|p: Seq<Seq<char>>|
                #[trigger] final(self).status_at(p) == old(self).status_at(p),
            forall|p: Seq<Seq<char>>|
                #[trigger] final(self).known(p) <==> (old(self).known(p) || is_prefix(
                    p,
                    components.deep_view(),
                )),
    {
        self.add_file_rec(components, components.len(), 0, size);
        proof {
            assert(components.deep_view().subrange(0, components@.len() as int)
                =~= components.deep_view());
        }
    }

    /// Applies one file observation: `components` is the file's path, its
    /// last segment the file's own name. The observed size is added to
    /// every ancestor directory of the file, ancestors are created on
    /// demand, and nothing else changes.
    pub fn insert_file(&mut self, components: &[String], size: u64)
        requires
            old(self).wf(),
            components@.len() >= 1,
            old(self).total_size + size <= u64::MAX,
        ensures
            final(self).wf(),
            final(self).total_size == old(self).total_size + size,
            applies_observation(*old(self), components.deep_view(), size, *final(self)),
    {
        let stop = components.len() - 1;
        self.add_file_rec(components, stop, 0, size);
        proof {
            let dv = components.deep_view();
            assert(dv.subrange(0, stop as int) =~= dv.subrange(0, dv.len() - 1));
            assert forall|p: Seq<Seq<char>>| #[trigger] is_prefix(p, dv.subrange(0, stop as int))
                == is_strict_prefix(p, dv) by {
                lemma_prefix_of_parent(p, dv);
            }
        }
    }

    /// Applies one walk event to the tree: a file observation adds its
    /// size below the file's ancestors, a directory event records the
    /// directory's new status, and missing nodes are created on demand in
    /// both cases.
    pub fn update(&mut self, file_type: &FileType)
        requires
            old(self).wf(),
            file_type@ matches FileTypeView::File { path, size } ==> path.len() >= 1 && old(
                self,
            ).total_size + size <= u64::MAX,
        ensures
            final(self).wf(),
            file_type@ matches FileTypeView::File { path, size } ==> applies_observation(
                *old(self),
                path,
                size,
                *final(self),
            ),
            file_type@ matches FileTypeView::Dir { path, status } ==> sets_status(
                *old(self),
                path,
                walk_status(status),
                *final(self),
            ),
    {
        match file_type {
            FileType::Dir(path, status) => {
                let st = match status {
                    DirStatus::Started => UpdatingStatus::Updating,
                    DirStatus::Finished => UpdatingStatus::Finished,
                };
                let s = path.as_slice();
                proof {
                    assert(s.deep_view() =~= path.deep_view());
                }
                self.set_updating(s, st);
            },
            FileType::File(fs) => {
                let s = fs.0.as_slice();
                proof {
                    assert(s.deep_view() =~= fs.0.deep_view());
                }
                self.insert_file(s, fs.1);
            },
        }
    }

    /// The node at `components`, or `None` where the walk has not created
    /// one; a miss is the expected answer for paths not reached yet.
    pub fn at(&self, components: &[String]) -> (r: Option<&Directory>)
        ensures
            match r {
                Some(d) => self.subtree(components.deep_view()) == Some(*d),
                None => !self.known(components.deep_view()),
            },
    {
        proof {
            assert(components.deep_view().subrange(0, components@.len() as int)
                =~= components.deep_view());
        }
        self.at_rec(components, 0)
    }

    /// `at`, descending from segment `i` on.
    fn at_rec(&self, components: &[String], i: usize) -> (r: Option<&Directory>)
        requires
            i <= components@.len(),
        ensures
            match r {
                Some(d) => self.subtree(
                    components.deep_view().subrange(i as int, components@.len() as int),
                ) == Some(*d),
                None => self.subtree(
                    components.deep_view().subrange(i as int, components@.len() as int),
                ) is None,
            },
        decreases components@.len() - i,
    {
        let ghost rest = components.deep_view().subrange(i as int, components@.len() as int);
        if i == components.len() {
            proof {
                assert(rest =~= Seq::<Seq<char>>::empty());
            }
            Some(self)
        } else {
            let name = &components[i];
            proof {
                assert(rest[0] == name@);
                assert(rest.drop_first() =~= components.deep_view().subrange(
                    i + 1,
                    components@.len() as int,
                ));
            }
            match self.find_child(name) {
                None => {
                    proof {
                        lemma_lookup_missing(self.entries@, name@);
                    }
                    None
                },
                Some(j) => {
                    proof {
                        lemma_lookup_at_index(self.entries@, name@, j as int);
                    }
                    self.entries[j].1.at_rec(components, i + 1)
                },
            }
        }
    }

    /// The directory entry the engine reports for `path`: the size and
    /// status the tree knows so far, or the defaults where the walk has
    /// not reached the path.
    pub fn get_entry_directory(&self, path: Vec<String>) -> (e: Entry)
        ensures
            e@ == (EntryView::Directory {
                path: path.deep_view(),
                size: self.size_at(path.deep_view()),
                updating: self.status_at(path.deep_view()),
            }),
    {
        let s = path.as_slice();
        proof {
            assert(s.deep_view() =~= path.deep_view());
        }
        let (size, updating) = match self.at(s) {
            Some(d) => (d.total_size, d.updating),
            None => (0u64, UpdatingStatus::Idle),
        };
        Entry::Directory { path, size, updating }
    }
}

/// The summed sizes of the observations in `obs` whose file lies below the
/// directory `d`.
pub open spec fn observed_below(obs: Seq<(Seq<Seq<char>>, u64)>, d: Seq<Seq<char>>) -> int
    decreases obs.len(),
{
    if obs.len() == 0 {
        0
    } else {
        observed_below(obs.drop_last(), d) + (if is_strict_prefix(d, obs.last().0) {
            obs.last().1 as int
        } else {
            0
        })
    }
}

/// Aggregation correctness: after any sequence of file observations
/// applied to a fresh tree, the size recorded for any directory path —
/// the root included — equals the summed sizes of the observations whose
/// file lies below that path.
///
/// `trace` is the sequence of tree states, each obtained from the previous
/// one the way `insert_file` and `update` state it.
pub proof fn lemma_aggregation(
    trace: Seq<Directory>,
    obs: Seq<(Seq<Seq<char>>, u64)>,
    d: Seq<Seq<char>>,
)
    requires
        trace.len() == obs.len() + 1,
        trace[0].is_fresh(),
        forall|k: int|
            0 <= k < obs.len() ==> applies_observation(
                trace[k],
                (#[trigger] obs[k]).0,
                obs[k].1,
                trace[k + 1],
            ),
    ensures
        trace.last().size_at(d) == observed_below(obs, d),
    decreases obs.len(),
{
    if obs.len() == 0 {
        lemma_fresh_defaults(trace[0]);
    } else {
        let n = obs.len() as int;
        let front = trace.drop_last();
        assert(front[0] == trace[0]);
        assert forall|k: int|
            0 <= k < obs.drop_last().len() implies applies_observation(
            front[k],
            (#[trigger] obs.drop_last()[k]).0,
            obs.drop_last()[k].1,
            front[k + 1],
        ) by {
            assert(obs.drop_last()[k] == obs[k]);
            assert(front[k] == trace[k]);
            assert(front[k + 1] == trace[k + 1]);
        }
        lemma_aggregation(front, obs.drop_last(), d);
        assert(front.last() == trace[n - 1]);
        assert(applies_observation(trace[n - 1], obs[n - 1].0, obs[n - 1].1, trace[n]));
        assert(obs.last() == obs[n - 1]);
        assert(trace.last() == trace[n]);
    }
}

/// Idempotent default lookup: a path the walk has not created reads as
/// size `0` and status `Idle`; a miss is never an error.
pub proof fn lemma_unscanned_default(t: Directory, path: Seq<Seq<char>>)
    requires
        !t.known(path),
    ensures
        t.size_at(path) == 0,
        t.status_at(path) == UpdatingStatus::Idle,
{
}

/// In a fresh tree nothing has been scanned: every path reads as the
/// defaults, and no path but the root is known.
pub proof fn lemma_fresh_tree(d: Directory)
    requires
        d.is_fresh(),
    ensures
        forall|q: Seq<Seq<char>>| #[trigger] d.size_at(q) == 0,
        forall|q: Seq<Seq<char>>| #[trigger] d.status_at(q) == UpdatingStatus::Idle,
        forall|q: Seq<Seq<char>>| #[trigger] d.known(q) <==> q.len() == 0,
{
    lemma_fresh_defaults(d);
}


impl Default for Directory {
    /// A fresh tree, as `new` makes it.
    fn default() -> (d: Directory)
        ensures
            d.is_fresh(),
            d.wf(),
    {
        Directory::new()
    }
}

} // verus!
