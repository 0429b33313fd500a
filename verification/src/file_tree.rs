//! A tree that stores every observed file with its exact size.
//!
//! Unlike the aggregation tree, which keeps only per-directory totals,
//! this structure records each file as its own leaf and computes a
//! directory's total on demand by summing the subtree. Its model is
//! `node_at`: the node a path leads to, if any.

use vstd::prelude::*;
use crate::paths::{
    is_prefix, is_strict_prefix, lemma_prefix_empty, lemma_prefix_step, split_segments,
};
use crate::walk::FileSize;

verus! {

broadcast use vstd::std_specs::vec::group_vec_axioms;

/// A node: a file with its size, or a directory with its named children.
#[derive(Debug)]
pub enum Tree {
    File(u64),
    Directory(Vec<(String, Tree)>),
}

/// The first entry of `s` whose name reads `name`.
pub open spec fn lookup_node(s: Seq<(String, Tree)>, name: Seq<char>) -> Option<Tree>
    decreases s.len(),
{
    if s.len() == 0 {
        None
    } else if s[0].0@ == name {
        Some(s[0].1)
    } else {
        lookup_node(s.drop_first(), name)
    }
}

/// The summed size of every file in a subtree.
pub open spec fn total_size_of(t: Tree) -> int
    decreases t, 1nat,
{
    match t {
        Tree::File(size) => size as int,
        Tree::Directory(es) => children_total(es@),
    }
}

/// The summed size of every file under a sequence of children.
pub open spec fn children_total(s: Seq<(String, Tree)>) -> int
    decreases s, 0nat, s.len(),
{
    if s.len() == 0 {
        0
    } else {
        children_total(s.drop_last()) + total_size_of(s.last().1)
    }
}

impl Tree {
    /// The child of this node named `name`; a file has none.
    pub open spec fn child(self, name: Seq<char>) -> Option<Tree> {
        match self {
            Tree::File(_) => None,
            Tree::Directory(es) => lookup_node(es@, name),
        }
    }

    /// The node `path` leads to, descending child by child.
    pub open spec fn node_at(self, path: Seq<Seq<char>>) -> Option<Tree>
        decreases path.len(),
    {
        if path.len() == 0 {
            Some(self)
        } else {
            match self.child(path[0]) {
                None => None,
                Some(c) => c.node_at(path.drop_first()),
            }
        }
    }

    /// An empty directory node.
    pub fn new() -> (t: Tree)
        ensures
            t matches Tree::Directory(es) && es@.len() == 0,
    {
        Tree::Directory(Vec::new())
    }

    /// The children of a directory node.
    pub fn entries(&self) -> (r: &Vec<(String, Tree)>)
        requires
            self is Directory,
        ensures
            self matches Tree::Directory(m) && *r == m,
    {
        match self {
            Tree::Directory(map) => map,
            Tree::File(_) => vstd::pervasive::unreached(),
        }
    }

    /// The children of a directory node, for mutation.
    pub fn entries_mut(&mut self) -> (r: &mut Vec<(String, Tree)>)
        requires
            (*old(self)) is Directory,
        ensures
            (*old(self)) matches Tree::Directory(m) && *r == m,
            *final(self) == Tree::Directory(*final(r)),
    {
        match self {
            Tree::Directory(map) => map,
            Tree::File(_) => vstd::pervasive::unreached(),
        }
    }

    /// The node at `components`, or `None` where nothing was inserted; a
    /// miss is the expected answer for paths not seen yet.
    pub fn at(&self, components: Vec<String>) -> (r: Option<&Tree>)
        ensures
            match r {
                Some(t) => self.node_at(components.deep_view()) == Some(*t),
                None => self.node_at(components.deep_view()) is None,
            },
    {
        proof {
            assert(components.deep_view().subrange(0, components@.len() as int)
                =~= components.deep_view());
        }
        self.at_rec(&components, 0)
    }

    /// `at`, descending from segment `i` on.
    fn at_rec(&self, components: &Vec<String>, i: usize) -> (r: Option<&Tree>)
        requires
            i <= components@.len(),
        ensures
            match r {
                Some(t) => self.node_at(
                    components.deep_view().subrange(i as int, components@.len() as int),
                ) == Some(*t),
                None => self.node_at(
                    components.deep_view().subrange(i as int, components@.len() as int),
                ) is None,
            },
        decreases components@.len() - i,
    {
        let ghost rest = components.deep_view().subrange(i as int, components@.len() as int);
        if i == components.len() {
            proof {
                assert(rest =~= Seq::<Seq<char>>::empty());
            }
            Some(self)
        } else {
            let name = &components[i];
            proof {
                assert(rest[0] == name@);
                assert(rest.drop_first() =~= components.deep_view().subrange(
                    i + 1,
                    components@.len() as int,
                ));
            }
            match self {
                Tree::File(_) => None,
                Tree::Directory(es) => {
                    match find_entry(es, name) {
                        None => {
                            proof {
                                lemma_lookup_node_missing(es@, name@);
                            }
                            None
                        },
                        Some(j) => {
                            proof {
                                lemma_lookup_node_at_index(es@, name@, j as int);
                            }
                            es[j].1.at_rec(components, i + 1)
                        },
                    }
                },
            }
        }
    }

    /// Looks up the node a textual path leads to.
    pub fn at_path(&self, path: &str) -> (r: Option<&Tree>)
        ensures
            match r {
                Some(t) => self.node_at(split_segments(path@)) == Some(*t),
                None => self.node_at(split_segments(path@)) is None,
            },
    {
        let components = crate::paths::get_components(path);
        self.at(components)
    }
}

/// The index of the first entry named `name`.
fn find_entry(es: &Vec<(String, Tree)>, name: &String) -> (r: Option<usize>)
    ensures
        match r {
            Some(j) => {
                &&& j < es@.len()
                &&& es@[j as int].0@ == name@
                &&& forall|k: int| 0 <= k < j ==> (#[trigger] es@[k]).0@ != name@
            },
            None => forall|k: int| 0 <= k < es@.len() ==> (#[trigger] es@[k]).0@ != name@,
        },
{
    let n = es.len();
    let mut j: usize = 0;
    while j < n
        invariant
            0 <= j <= n,
            n == es@.len(),
            forall|k: int| 0 <= k < j ==> (#[trigger] es@[k]).0@ != name@,
        decreases n - j,
    {
        if es[j].0.eq(name) {
            return Some(j);
        }
        j = j + 1;
    }
    None
}

/// A found entry is the looked-up node.
proof fn lemma_lookup_node_at_index(s: Seq<(String, Tree)>, name: Seq<char>, j: int)
    requires
        0 <= j < s.len(),
        s[j].0@ == name,
        forall|k: int| 0 <= k < j ==> (#[trigger] s[k]).0@ != name,
    ensures
        lookup_node(s, name) == Some(s[j].1),
    decreases j,
{
    if j > 0 {
        lemma_lookup_node_at_index(s.drop_first(), name, j - 1);
    }
}

/// If no entry is named `name`, the lookup misses.
proof fn lemma_lookup_node_missing(s: Seq<(String, Tree)>, name: Seq<char>)
    requires
        forall|k: int| 0 <= k < s.len() ==> (#[trigger] s[k]).0@ != name,
    ensures
        lookup_node(s, name) is None,
    decreases s.len(),
{
    if s.len() > 0 {
        lemma_lookup_node_missing(s.drop_first(), name);
    }
}

/// Replacing the first entry named `name` changes that lookup alone.
proof fn lemma_lookup_node_update(s: Seq<(String, Tree)>, name: Seq<char>, j: int, t: Tree)
    requires
        0 <= j < s.len(),
        s[j].0@ == name,
        forall|k: int| 0 <= k < j ==> (#[trigger] s[k]).0@ != name,
    ensures
        lookup_node(s.update(j, (s[j].0, t)), name) == Some(t),
        forall|m: Seq<char>|
            m != name ==> #[trigger] lookup_node(s.update(j, (s[j].0, t)), m) == lookup_node(
                s,
                m,
            ),
    decreases j,
{
    let s2 = s.update(j, (s[j].0, t));
    if j == 0 {
        assert forall|m: Seq<char>| m != name implies #[trigger] lookup_node(s2, m)
            == lookup_node(s, m) by {
            assert(s2.drop_first() =~= s.drop_first());
        }
    } else {
        lemma_lookup_node_update(s.drop_first(), name, j - 1, t);
        assert(s2.drop_first() =~= s.drop_first().update(j - 1, (s[j].0, t)));
        assert(s2[0] == s[0]);
        assert forall|m: Seq<char>| m != name implies #[trigger] lookup_node(s2, m)
            == lookup_node(s, m) by {
            if s[0].0@ != m {
                assert(lookup_node(s2, m) == lookup_node(s2.drop_first(), m));
                assert(lookup_node(s, m) == lookup_node(s.drop_first(), m));
            }
        }
    }
}

/// Appending an entry named `name` where none existed adds that lookup and
/// changes no other.
proof fn lemma_lookup_node_push(s: Seq<(String, Tree)>, name: String, t: Tree)
    requires
        forall|k: int| 0 <= k < s.len() ==> (#[trigger] s[k]).0@ != name@,
    ensures
        lookup_node(s.push((name, t)), name@) == Some(t),
        forall|m: Seq<char>|
            m != name@ ==> #[trigger] lookup_node(s.push((name, t)), m) == lookup_node(s, m),
    decreases s.len(),
{
    let s2 = s.push((name, t));
    if s.len() == 0 {
        assert(s2[0] == (name, t));
        assert forall|m: Seq<char>| m != name@ implies #[trigger] lookup_node(s2, m)
            == lookup_node(s, m) by {
            assert(lookup_node(s2.drop_first(), m) is None) by {
                assert(s2.drop_first() =~= Seq::<(String, Tree)>::empty());
            }
        }
    } else {
        lemma_lookup_node_push(s.drop_first(), name, t);
        assert(s2.drop_first() =~= s.drop_first().push((name, t)));
        assert(s2[0] == s[0]);
        assert forall|m: Seq<char>| m != name@ implies #[trigger] lookup_node(s2, m)
            == lookup_node(s, m) by {
            if s[0].0@ != m {
                assert(lookup_node(s2, m) == lookup_node(s2.drop_first(), m));
                assert(lookup_node(s, m) == lookup_node(s.drop_first(), m));
            }
        }
    }
}

/// Two directory nodes whose relevant child agrees lead to the same nodes.
proof fn lemma_node_unchanged(t: Tree, t2: Tree, p: Seq<Seq<char>>)
    requires
        p.len() > 0,
        t2.child(p[0]) == t.child(p[0]),
    ensures
        t2.node_at(p) == t.node_at(p),
{
}

/// What one insertion does, stated over `node_at`: the file sits at `path`
/// with its size, every strict ancestor of `path` is a directory, nothing
/// survives below the file, and every unrelated path is untouched.
pub open spec fn file_inserted(t: Tree, path: Seq<Seq<char>>, size: u64, t2: Tree) -> bool {
    &&& t2.node_at(path) == Some(Tree::File(size))
    &&& forall|p: Seq<Seq<char>>|
        is_strict_prefix(p, path) ==> ((#[trigger] t2.node_at(p)) matches Some(
            Tree::Directory(_),
        ))
    &&& forall|p: Seq<Seq<char>>|
        !is_prefix(p, path) && !is_prefix(path, p) ==> #[trigger] t2.node_at(p) == t.node_at(p)
    &&& forall|p: Seq<Seq<char>>|
        is_strict_prefix(path, p) ==> #[trigger] t2.node_at(p) is None
}

/// The one-level composition step of `insert_rec`, at a single path.
proof fn lemma_insert_point(
    t0: Tree,
    t2: Tree,
    name: Seq<char>,
    existed: bool,
    c0: Tree,
    c2: Tree,
    size: u64,
    rest: Seq<Seq<char>>,
    p: Seq<Seq<char>>,
)
    requires
        rest.len() > 0,
        rest[0] == name,
        t0 is Directory,
        t2 is Directory,
        existed ==> t0.child(name) == Some(c0),
        !existed ==> t0.child(name) is None && (forall|q: Seq<Seq<char>>|
            #[trigger] c0.node_at(q) == (if q.len() == 0 {
                Some(c0)
            } else {
                None::<Tree>
            })),
        t2.child(name) == Some(c2),
        forall|m: Seq<char>| m != name ==> #[trigger] t2.child(m) == t0.child(m),
        file_inserted(c0, rest.drop_first(), size, c2),
    ensures
        p == rest ==> t2.node_at(p) == Some(Tree::File(size)),
        is_strict_prefix(p, rest) ==> (t2.node_at(p)) matches Some(Tree::Directory(_)),
        !is_prefix(p, rest) && !is_prefix(rest, p) ==> t2.node_at(p) == t0.node_at(p),
        is_strict_prefix(rest, p) ==> t2.node_at(p) is None,
{
    let tail = rest.drop_first();
    lemma_prefix_empty(p, rest);
    if p.len() == 0 {
    } else {
        lemma_prefix_step(p, rest);
        crate::paths::lemma_head_tail(p, rest);
        let pt = p.drop_first();
        if p[0] == name {
            assert(t2.node_at(p) == c2.node_at(pt));
            lemma_prefix_step(rest, p);
            crate::paths::lemma_head_tail(rest, p);
            lemma_prefix_empty(pt, tail);
            lemma_prefix_empty(tail, pt);
            if existed {
                assert(t0.node_at(p) == c0.node_at(pt));
            } else {
                assert(t0.node_at(p) is None);
            }
            if p == rest {
                assert(pt == tail);
                assert(c2.node_at(pt) == Some(Tree::File(size)));
            }
            if is_strict_prefix(p, rest) {
                assert(is_strict_prefix(pt, tail));
                assert((c2.node_at(pt)) matches Some(Tree::Directory(_)));
            }
            if is_strict_prefix(rest, p) {
                assert(is_strict_prefix(tail, pt));
                assert(c2.node_at(pt) is None);
            }
            if !is_prefix(p, rest) && !is_prefix(rest, p) {
                assert(!is_prefix(pt, tail) && !is_prefix(tail, pt));
                assert(c2.node_at(pt) == c0.node_at(pt));
                assert(pt.len() > 0);
            }
        } else {
            lemma_node_unchanged(t0, t2, p);
        }
    }
}

impl Tree {
    /// Records one file observation: creates the missing directories along
    /// the file's path and puts the file, with its size, at the end of it,
    /// replacing whatever sat there.
    pub fn insert_file(&mut self, fs: FileSize)
        requires
            (*old(self)) is Directory,
            fs.0@.len() >= 1,
            forall|p: Seq<Seq<char>>|
                is_strict_prefix(p, fs.0.deep_view()) ==> !((#[trigger] old(self).node_at(
                    p,
                )) matches Some(Tree::File(_))),
        ensures
            (*final(self)) is Directory,
            file_inserted(*old(self), fs.0.deep_view(), fs.1, *final(self)),
    {
        let FileSize(path, size) = fs;
        proof {
            assert(path.deep_view().subrange(0, path@.len() as int) =~= path.deep_view());
        }
        self.insert_rec(&path, 0, size);
    }

    /// `insert_file`, descending from segment `i` on.
    fn insert_rec(&mut self, components: &Vec<String>, i: usize, size: u64)
        requires
            (*old(self)) is Directory,
            i < components@.len(),
            forall|p: Seq<Seq<char>>|
                is_strict_prefix(
                    p,
                    components.deep_view().subrange(i as int, components@.len() as int),
                ) ==> !((#[trigger] old(self).node_at(p)) matches Some(Tree::File(_))),
        ensures
            (*final(self)) is Directory,
            file_inserted(
                *old(self),
                components.deep_view().subrange(i as int, components@.len() as int),
                size,
                *final(self),
            ),
        decreases components@.len() - i,
    {
        let ghost t0 = *self;
        let ghost rest = components.deep_view().subrange(i as int, components@.len() as int);
        let name = &components[i];
        proof {
            assert(rest[0] == name@);
            assert(rest.drop_last() =~= components.deep_view().subrange(
                i as int,
                components@.len() - 1,
            ));
            assert(rest.drop_first() =~= components.deep_view().subrange(
                i + 1,
                components@.len() as int,
            ));
        }
        let ghost tail = rest.drop_first();
        let last = i == components.len() - 1;
        match self {
            Tree::Directory(es) => {
                let ghost es0 = es@;
                match find_entry(es, name) {
                    Some(j) => {
                        proof {
                            lemma_lookup_node_at_index(es0, name@, j as int);
                        }
                        let mut pair = es.remove(j);
                        let ghost c0 = pair.1;
                        if last {
                            pair.1 = Tree::File(size);
                        } else {
                            proof {
                                assert(is_strict_prefix(seq![name@], rest)) by {
                                    assert(rest.subrange(0, 1) =~= seq![name@]);
                                }
                                assert(t0.node_at(seq![name@]) == c0.node_at(
                                    Seq::<Seq<char>>::empty(),
                                )) by {
                                    assert(seq![name@].drop_first()
                                        =~= Seq::<Seq<char>>::empty());
                                }
                                assert(c0 is Directory);
                                assert forall|p: Seq<Seq<char>>|
                                    is_strict_prefix(p, tail) implies !((#[trigger] c0.node_at(
                                    p,
                                )) matches Some(Tree::File(_))) by {
                                    lemma_prefix_step(seq![name@] + p, rest);
                                    assert((seq![name@] + p).drop_first() =~= p);
                                    assert((seq![name@] + p)[0] == name@);
                                    assert(is_strict_prefix(seq![name@] + p, rest));
                                    assert(t0.node_at(seq![name@] + p) == c0.node_at(p));
                                }
                            }
                            (&mut pair.1).insert_rec(components, i + 1, size);
                        }
                        let ghost c2 = pair.1;
                        es.insert(j, pair);
                        proof {
                            assert(es@ =~= es0.update(j as int, (es0[j as int].0, c2)));
                            lemma_lookup_node_update(es0, name@, j as int, c2);
                            if last {
                                assert(tail =~= Seq::<Seq<char>>::empty());
                                lemma_base_file(c0, c2, size);
                            }
                            lemma_insert_summary(t0, *self, name@, true, c0, c2, size, rest);
                        }
                    },
                    None => {
                        proof {
                            lemma_lookup_node_missing(es0, name@);
                        }
                        let cloned = name.clone();
                        let mut child = Tree::new();
                        let ghost c0 = child;
                        if last {
                            child = Tree::File(size);
                        } else {
                            child.insert_rec(components, i + 1, size);
                        }
                        let ghost c2 = child;
                        es.push((cloned, child));
                        proof {
                            assert(es@ =~= es0.push((cloned, c2)));
                            lemma_lookup_node_push(es0, cloned, c2);
                            if last {
                                assert(tail =~= Seq::<Seq<char>>::empty());
                                lemma_base_file(c0, c2, size);
                            }
                            lemma_fresh_node(c0);
                            lemma_insert_summary(t0, *self, name@, false, c0, c2, size, rest);
                        }
                    },
                }
            },
            Tree::File(_) => {
                proof {
                    assert(false);
                }
            },
        }
    }
}

/// Setting a child to a file node satisfies `file_inserted` for the empty
/// remainder.
proof fn lemma_base_file(c0: Tree, c2: Tree, size: u64)
    requires
        c2 == Tree::File(size),
    ensures
        file_inserted(c0, Seq::empty(), size, c2),
{
    assert forall|p: Seq<Seq<char>>|
        is_strict_prefix(Seq::<Seq<char>>::empty(), p) implies #[trigger] c2.node_at(
        p,
    ) is None by {
        assert(c2.child(p[0]) is None);
    }
    assert forall|p: Seq<Seq<char>>|
        !is_prefix(p, Seq::<Seq<char>>::empty()) && !is_prefix(
            Seq::<Seq<char>>::empty(),
            p,
        ) implies #[trigger] c2.node_at(p) == c0.node_at(p) by {
        lemma_prefix_empty(Seq::<Seq<char>>::empty(), p);
    }
    assert(c2.node_at(Seq::<Seq<char>>::empty()) == Some(Tree::File(size)));
}

/// An empty directory node leads nowhere but to itself.
proof fn lemma_fresh_node(c0: Tree)
    requires
        c0 matches Tree::Directory(v) && v@.len() == 0,
    ensures
        forall|q: Seq<Seq<char>>|
            #[trigger] c0.node_at(q) == (if q.len() == 0 {
                Some(c0)
            } else {
                None::<Tree>
            }),
{
    assert forall|q: Seq<Seq<char>>| q.len() > 0 implies #[trigger] c0.node_at(q) is None by {
        assert(c0.child(q[0]) is None);
    }
}

/// No file has a negative size, so no subtree sums to one.
proof fn lemma_total_nonneg(t: Tree)
    ensures
        total_size_of(t) >= 0,
    decreases t, 1nat,
{
    match t {
        Tree::File(_) => {},
        Tree::Directory(es) => {
            lemma_children_total_nonneg(es@);
        },
    }
}

/// `lemma_total_nonneg`, over a sequence of children.
proof fn lemma_children_total_nonneg(s: Seq<(String, Tree)>)
    ensures
        children_total(s) >= 0,
    decreases s, 0nat, s.len(),
{
    if s.len() > 0 {
        lemma_children_total_nonneg(s.drop_last());
        lemma_total_nonneg(s.last().1);
    }
}

/// A prefix of the children never sums to more than all of them.
proof fn lemma_children_total_prefix(s: Seq<(String, Tree)>, i: int)
    requires
        0 <= i <= s.len(),
    ensures
        children_total(s.subrange(0, i)) <= children_total(s),
    decreases s.len() - i,
{
    if i == s.len() {
        assert(s.subrange(0, i) =~= s);
    } else {
        lemma_children_total_prefix(s, i + 1);
        assert(s.subrange(0, i + 1).drop_last() =~= s.subrange(0, i));
        assert(s.subrange(0, i + 1).last() == s[i]);
        lemma_total_nonneg(s[i].1);
    }
}

impl Tree {
    /// The summed size of every file in this directory's subtree, computed
    /// on demand.
    pub fn get_total_size(&self) -> (r: u64)
        requires
            self is Directory,
            total_size_of(*self) <= u64::MAX,
        ensures
            r == total_size_of(*self),
        decreases *self,
    {
        let es = self.entries();
        let n = es.len();
        let mut size: u64 = 0;
        let mut i: usize = 0;
        proof {
            assert(es@.subrange(0, 0) =~= Seq::<(String, Tree)>::empty());
        }
        while i < n
            invariant
                self is Directory,
                total_size_of(*self) <= u64::MAX,
                *es == (match *self {
                    Tree::Directory(m) => m,
                    Tree::File(_) => *es,
                }),
                total_size_of(*self) == children_total(es@),
                0 <= i <= n,
                n == es@.len(),
                size == children_total(es@.subrange(0, i as int)),
            decreases n - i,
        {
            proof {
                lemma_children_total_prefix(es@, i + 1);
                assert(es@.subrange(0, i + 1).drop_last() =~= es@.subrange(0, i as int));
                assert(es@.subrange(0, i + 1).last() == es@[i as int]);
                lemma_children_total_nonneg(es@.subrange(0, i as int));
                lemma_total_nonneg(es@[i as int].1);
            }
            let s = match &es[i].1 {
                Tree::File(sz) => *sz,
                t => {
                    proof {
                        assert(total_size_of(es@[i as int].1) <= u64::MAX);
                    }
                    t.get_total_size()
                },
            };
            size = size + s;
            i = i + 1;
        }
        proof {
            assert(es@.subrange(0, n as int) =~= es@);
        }
        size
    }
}

/// `lemma_insert_point`, summarized over all paths.
proof fn lemma_insert_summary(
    t0: Tree,
    t2: Tree,
    name: Seq<char>,
    existed: bool,
    c0: Tree,
    c2: Tree,
    size: u64,
    rest: Seq<Seq<char>>,
)
    requires
        rest.len() > 0,
        rest[0] == name,
        t0 is Directory,
        t2 is Directory,
        existed ==> t0.child(name) == Some(c0),
        !existed ==> t0.child(name) is None && (forall|q: Seq<Seq<char>>|
            #[trigger] c0.node_at(q) == (if q.len() == 0 {
                Some(c0)
            } else {
                None::<Tree>
            })),
        t2.child(name) == Some(c2),
        forall|m: Seq<char>| m != name ==> #[trigger] t2.child(m) == t0.child(m),
        file_inserted(c0, rest.drop_first(), size, c2),
    ensures
        file_inserted(t0, rest, size, t2),
{
    assert(t2.node_at(rest) == Some(Tree::File(size))) by {
        lemma_insert_point(t0, t2, name, existed, c0, c2, size, rest, rest);
    }
    assert forall|p: Seq<Seq<char>>| is_strict_prefix(p, rest) implies (
    #[trigger] t2.node_at(p)) matches Some(Tree::Directory(_)) by {
        lemma_insert_point(t0, t2, name, existed, c0, c2, size, rest, p);
    }
    assert forall|p: Seq<Seq<char>>| !is_prefix(p, rest) && !is_prefix(rest, p) implies (
    #[trigger] t2.node_at(p)) == t0.node_at(p) by {
        lemma_insert_point(t0, t2, name, existed, c0, c2, size, rest, p);
    }
    assert forall|p: Seq<Seq<char>>| is_strict_prefix(rest, p) implies (#[trigger] t2.node_at(
        p,
    )) is None by {
        lemma_insert_point(t0, t2, name, existed, c0, c2, size, rest, p);
    }
}

} // verus!
