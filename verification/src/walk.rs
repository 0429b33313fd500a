//! The events a filesystem walk produces, and the state machine that
//! synthesizes them.
//!
//! A walk visits the tree under the scan root depth first and yields one
//! `FileType` event per observation: `Dir(path, Started)` when a directory
//! is entered, one `File` per regular file, and `Dir(path, Finished)` once
//! everything below the directory has been yielded. The `Walker` turns the
//! raw entry stream of a directory iterator into that event stream; its
//! output keeps the nesting discipline stated by `nesting_ok` no matter
//! what raw entries it is fed.

use vstd::prelude::*;
use crate::paths::{is_prefix, is_strict_prefix, lemma_prefix_trans};

verus! {

broadcast use vstd::std_specs::vec::group_vec_axioms;

/// A file observation: the path of the file relative to the scan root
/// (ending in the file's own name) and its size in bytes.
#[derive(Clone, Debug, PartialEq, Eq)]
pub struct FileSize(pub Vec<String>, pub u64);

/// Which end of a directory's visit an event marks.
#[derive(Clone, Copy, Debug, PartialEq, Eq, Structural)]
pub enum DirStatus {
    Started,
    Finished,
}

/// One event of a walk.
#[derive(Clone, Debug, PartialEq, Eq)]
pub enum FileType {
    File(FileSize),
    Dir(Vec<String>, DirStatus),
}

/// The mathematical value of a walk event.
pub enum FileTypeView {
    File { path: Seq<Seq<char>>, size: u64 },
    Dir { path: Seq<Seq<char>>, status: DirStatus },
}

impl View for FileType {
    type V = FileTypeView;

    open spec fn view(&self) -> FileTypeView {
        match self {
            FileType::File(fs) => FileTypeView::File { path: fs.0.deep_view(), size: fs.1 },
            FileType::Dir(path, status) => FileTypeView::Dir {
                path: path.deep_view(),
                status: *status,
            },
        }
    }
}

impl DeepView for FileType {
    type V = FileTypeView;

    open spec fn deep_view(&self) -> FileTypeView {
        self.view()
    }
}

impl FileTypeView {
    /// The path the event is about.
    pub open spec fn path(self) -> Seq<Seq<char>> {
        match self {
            FileTypeView::File { path, .. } => path,
            FileTypeView::Dir { path, .. } => path,
        }
    }
}

/// What a raw entry of the underlying directory iterator is: a directory,
/// a regular file with its size, or something the walk skips (a symlink,
/// an unreadable entry).
#[derive(Clone, Copy, Debug, PartialEq, Eq, Structural)]
pub enum EntryKind {
    Dir,
    File(u64),
    Other,
}

/// The `Finished` event for a directory.
pub open spec fn finished_event(path: Seq<Seq<char>>) -> FileTypeView {
    FileTypeView::Dir { path, status: DirStatus::Finished }
}

/// A well-formed walk history: `stack` is the list of directories whose
/// `Started` event is not matched yet, outermost first. A `Started` event
/// opens a directory below every open one, a `Finished` event closes the
/// innermost, and a file event lies below every open directory.
pub open spec fn wf_hist(out: Seq<FileTypeView>, stack: Seq<Seq<Seq<char>>>) -> bool
    decreases out.len(),
{
    if out.len() == 0 {
        stack.len() == 0
    } else {
        match out.last() {
            FileTypeView::Dir { path, status: DirStatus::Started } => {
                &&& stack.len() > 0
                &&& stack.last() == path
                &&& forall|k: int|
                    0 <= k < stack.len() - 1 ==> is_strict_prefix(#[trigger] stack[k], path)
                &&& wf_hist(out.drop_last(), stack.drop_last())
            },
            FileTypeView::Dir { path, status: DirStatus::Finished } => wf_hist(
                out.drop_last(),
                stack.push(path),
            ),
            FileTypeView::File { path, .. } => {
                &&& forall|k: int|
                    0 <= k < stack.len() ==> is_prefix(#[trigger] stack[k], path)
                &&& wf_hist(out.drop_last(), stack)
            },
        }
    }
}

/// The open directories always form a chain of strictly nested paths.
pub open spec fn stack_chain(stack: Seq<Seq<Seq<char>>>) -> bool {
    forall|i: int, j: int|
        0 <= i < j < stack.len() ==> is_strict_prefix(#[trigger] stack[i], #[trigger] stack[j])
}

/// A well-formed history keeps its open directories strictly nested.
proof fn lemma_wf_hist_chain(out: Seq<FileTypeView>, stack: Seq<Seq<Seq<char>>>)
    requires
        wf_hist(out, stack),
    ensures
        stack_chain(stack),
    decreases out.len(),
{
    if out.len() == 0 {
    } else {
        match out.last() {
            FileTypeView::Dir { path, status: DirStatus::Started } => {
                lemma_wf_hist_chain(out.drop_last(), stack.drop_last());
                assert forall|i: int, j: int| 0 <= i < j < stack.len() implies is_strict_prefix(
                    #[trigger] stack[i],
                    #[trigger] stack[j],
                ) by {
                    if j < stack.len() - 1 {
                        assert(stack.drop_last()[i] == stack[i]);
                        assert(stack.drop_last()[j] == stack[j]);
                    } else {
                        assert(stack[j] == path);
                    }
                }
            },
            FileTypeView::Dir { path, status: DirStatus::Finished } => {
                lemma_wf_hist_chain(out.drop_last(), stack.push(path));
                assert forall|i: int, j: int| 0 <= i < j < stack.len() implies is_strict_prefix(
                    #[trigger] stack[i],
                    #[trigger] stack[j],
                ) by {
                    assert(stack.push(path)[i] == stack[i]);
                    assert(stack.push(path)[j] == stack[j]);
                }
            },
            FileTypeView::File { .. } => {
                lemma_wf_hist_chain(out.drop_last(), stack);
            },
        }
    }
}

/// Event `j` closes the directory started at `i`: it is the matching
/// `Finished` event, and everything strictly between the two lies below
/// the directory.
pub open spec fn closes_at(out: Seq<FileTypeView>, i: int, j: int, path: Seq<Seq<char>>) -> bool {
    &&& i < j < out.len()
    &&& out[j] == finished_event(path)
    &&& forall|k: int|
        i < k < j ==> is_prefix(path, (#[trigger] out[k]).path()) && out[k] != finished_event(
            path,
        )
}

/// A started directory is closed inside `out`.
pub open spec fn closes_started(out: Seq<FileTypeView>, i: int, path: Seq<Seq<char>>) -> bool {
    exists|j: int| #[trigger] closes_at(out, i, j, path)
}

/// The nesting invariant of a walk's output: every `Started` phase for a
/// path is followed, before any event whose path is not equal to or below
/// that path, by exactly one `Finished` phase for it.
pub open spec fn nesting_ok(out: Seq<FileTypeView>) -> bool {
    forall|i: int|
        0 <= i < out.len() && ((#[trigger] out[i]) matches FileTypeView::Dir {
            path,
            status: DirStatus::Started,
        }) ==> closes_started(out, i, out[i].path())
}

/// A started directory not closed yet: it is still open, and everything
/// after it lies below it.
spec fn still_open(
    out: Seq<FileTypeView>,
    stack: Seq<Seq<Seq<char>>>,
    i: int,
    path: Seq<Seq<char>>,
) -> bool {
    &&& stack.contains(path)
    &&& forall|k: int|
        i < k < out.len() ==> is_prefix(path, (#[trigger] out[k]).path()) && out[k]
            != finished_event(path)
}

/// A bracket closed in a history stays closed when the history grows.
proof fn lemma_closes_extend(
    pre: Seq<FileTypeView>,
    out: Seq<FileTypeView>,
    i: int,
    path: Seq<Seq<char>>,
)
    requires
        0 <= i,
        closes_started(pre, i, path),
        out.len() == pre.len() + 1,
        forall|k: int| 0 <= k < pre.len() ==> out[k] == #[trigger] pre[k],
    ensures
        closes_started(out, i, path),
{
    assert(exists|j: int| #[trigger] closes_at(pre, i, j, path));
    let j = choose|j: int| #[trigger] closes_at(pre, i, j, path);
    assert(closes_at(pre, i, j, path));
    assert(out[j] == pre[j]);
    assert forall|k: int| i < k < j implies is_prefix(path, (#[trigger] out[k]).path())
        && out[k] != finished_event(path) by {
        assert(out[k] == pre[k]);
    }
    assert(closes_at(out, i, j, path));
}

/// Every `Started` event of a well-formed history is either already closed
/// inside the history or belongs to a directory that is still open.
proof fn lemma_brackets(out: Seq<FileTypeView>, stack: Seq<Seq<Seq<char>>>)
    requires
        wf_hist(out, stack),
    ensures
        forall|i: int|
            0 <= i < out.len() && ((#[trigger] out[i]) matches FileTypeView::Dir {
                path,
                status: DirStatus::Started,
            }) ==> (closes_started(out, i, out[i].path()) || still_open(
                out,
                stack,
                i,
                out[i].path(),
            )),
    decreases out.len(),
{
    if out.len() == 0 {
        return ;
    }
    let e = out.last();
    let pre = out.drop_last();
    let n = out.len() - 1;
    match e {
        FileTypeView::Dir { path: q, status: DirStatus::Started } => {
            let st = stack.drop_last();
            lemma_brackets(pre, st);
            assert forall|i: int|
                0 <= i < out.len() && ((#[trigger] out[i]) matches FileTypeView::Dir {
                    path,
                    status: DirStatus::Started,
                }) implies (closes_started(out, i, out[i].path()) || still_open(
                out,
                stack,
                i,
                out[i].path(),
            )) by {
                let p = out[i].path();
                if i == n {
                    assert(stack[stack.len() - 1] == p);
                    assert(stack.contains(p));
                    assert(still_open(out, stack, i, p));
                } else {
                    assert(pre[i] == out[i]);
                    if closes_started(pre, i, p) {
                        lemma_closes_extend(pre, out, i, p);
                    } else {
                        assert(still_open(pre, st, i, p));
                        let m = choose|m: int| 0 <= m < st.len() && st[m] == p;
                        assert(stack[m] == p);
                        assert(stack.contains(p));
                        assert(is_strict_prefix(stack[m], q));
                        assert forall|k: int| i < k < out.len() implies is_prefix(
                            p,
                            (#[trigger] out[k]).path(),
                        ) && out[k] != finished_event(p) by {
                            if k < n {
                                assert(out[k] == pre[k]);
                            } else {
                                assert(out[k] == e);
                            }
                        }
                    }
                }
            }
        },
        FileTypeView::Dir { path: q, status: DirStatus::Finished } => {
            let st = stack.push(q);
            lemma_brackets(pre, st);
            lemma_wf_hist_chain(pre, st);
            assert forall|i: int|
                0 <= i < out.len() && ((#[trigger] out[i]) matches FileTypeView::Dir {
                    path,
                    status: DirStatus::Started,
                }) implies (closes_started(out, i, out[i].path()) || still_open(
                out,
                stack,
                i,
                out[i].path(),
            )) by {
                let p = out[i].path();
                assert(i < n);
                assert(pre[i] == out[i]);
                if closes_started(pre, i, p) {
                    lemma_closes_extend(pre, out, i, p);
                } else {
                    assert(still_open(pre, st, i, p));
                    let m = choose|m: int| 0 <= m < st.len() && st[m] == p;
                    if p == q {
                        assert(out[n] == finished_event(p));
                        assert forall|k: int| i < k < n implies is_prefix(
                            p,
                            (#[trigger] out[k]).path(),
                        ) && out[k] != finished_event(p) by {
                            assert(out[k] == pre[k]);
                        }
                        assert(closes_at(out, i, n, p));
                    } else {
                        assert(m < st.len() - 1) by {
                            assert(st[st.len() - 1] == q);
                        }
                        assert(stack[m] == p);
                        assert(stack.contains(p));
                        assert(is_strict_prefix(st[m], st[st.len() - 1]));
                        assert(st[st.len() - 1] == q);
                        assert forall|k: int| i < k < out.len() implies is_prefix(
                            p,
                            (#[trigger] out[k]).path(),
                        ) && out[k] != finished_event(p) by {
                            if k < n {
                                assert(out[k] == pre[k]);
                            } else {
                                assert(out[k] == e);
                            }
                        }
                    }
                }
            }
        },
        FileTypeView::File { path: q, .. } => {
            lemma_brackets(pre, stack);
            assert forall|i: int|
                0 <= i < out.len() && ((#[trigger] out[i]) matches FileTypeView::Dir {
                    path,
                    status: DirStatus::Started,
                }) implies (closes_started(out, i, out[i].path()) || still_open(
                out,
                stack,
                i,
                out[i].path(),
            )) by {
                let p = out[i].path();
                assert(i < n);
                assert(pre[i] == out[i]);
                if closes_started(pre, i, p) {
                    lemma_closes_extend(pre, out, i, p);
                } else {
                    assert(still_open(pre, stack, i, p));
                    let m = choose|m: int| 0 <= m < stack.len() && stack[m] == p;
                    assert(is_prefix(stack[m], q));
                    assert forall|k: int| i < k < out.len() implies is_prefix(
                        p,
                        (#[trigger] out[k]).path(),
                    ) && out[k] != finished_event(p) by {
                        if k < n {
                            assert(out[k] == pre[k]);
                        } else {
                            assert(out[k] == e);
                        }
                    }
                }
            }
        },
    }
}

/// How many of the open directories survive an entry at `path`: everything
/// above the entry's immediate parent is closed; an entry whose parent is
/// not open closes the whole stack.
pub open spec fn keep_count(stack: Seq<Seq<Seq<char>>>, path: Seq<Seq<char>>) -> int
    decreases stack.len(),
{
    if stack.len() == 0 {
        0
    } else if path.len() > 0 && stack.last() == path.drop_last() {
        stack.len() as int
    } else {
        keep_count(stack.drop_last(), path)
    }
}

/// The `Finished` events for the open directories above `keep`, innermost
/// first.
pub open spec fn pop_events(stack: Seq<Seq<Seq<char>>>, keep: int) -> Seq<FileTypeView> {
    Seq::new(
        (stack.len() - keep) as nat,
        |i: int| finished_event(stack[stack.len() - 1 - i]),
    )
}

/// The events one raw entry produces: the closing events for the
/// directories it leaves, then its own event — `Started` for a directory,
/// a file observation for a file, nothing for an entry the walk skips.
pub open spec fn step_events(
    stack: Seq<Seq<Seq<char>>>,
    path: Seq<Seq<char>>,
    kind: EntryKind,
) -> Seq<FileTypeView> {
    pop_events(stack, keep_count(stack, path)) + (match kind {
        EntryKind::Dir => seq![FileTypeView::Dir { path, status: DirStatus::Started }],
        EntryKind::File(size) => seq![FileTypeView::File { path, size }],
        EntryKind::Other => Seq::empty(),
    })
}

/// The open directories after one raw entry.
pub open spec fn step_stack(
    stack: Seq<Seq<Seq<char>>>,
    path: Seq<Seq<char>>,
    kind: EntryKind,
) -> Seq<Seq<Seq<char>>> {
    let kept = stack.subrange(0, keep_count(stack, path));
    match kind {
        EntryKind::Dir => kept.push(path),
        _ => kept,
    }
}

/// The count of kept directories is a count.
proof fn lemma_keep_count_bounds(stack: Seq<Seq<Seq<char>>>, path: Seq<Seq<char>>)
    ensures
        0 <= keep_count(stack, path) <= stack.len(),
    decreases stack.len(),
{
    if stack.len() > 0 {
        lemma_keep_count_bounds(stack.drop_last(), path);
    }
}

/// Checks whether `top` names the directory the entry at `path` sits in.
fn is_immediate_parent(top: &Vec<String>, path: &Vec<String>) -> (r: bool)
    ensures
        r == (path.deep_view().len() > 0 && top.deep_view() == path.deep_view().drop_last()),
{
    if path.len() == 0 || top.len() != path.len() - 1 {
        proof {
            if path.deep_view().len() > 0 {
                assert(path.deep_view().drop_last().len() == path.deep_view().len() - 1);
            }
        }
        return false;
    }
    let n = top.len();
    let mut i: usize = 0;
    while i < n
        invariant
            0 <= i <= n,
            n == top@.len(),
            n + 1 == path@.len(),
            forall|k: int| 0 <= k < i ==> top.deep_view()[k] == path.deep_view()[k],
        decreases n - i,
    {
        if !top[i].eq(&path[i]) {
            proof {
                assert(top.deep_view()[i as int] != path.deep_view().drop_last()[i as int]);
            }
            return false;
        }
        i = i + 1;
    }
    proof {
        assert(top.deep_view() =~= path.deep_view().drop_last());
    }
    true
}

/// The walk's event synthesis: feeds on raw directory entries in the order
/// the underlying iterator yields them, and emits the `FileType` stream,
/// closing directories with `Finished` events exactly when the walk leaves
/// them. Its whole output so far is the ghost `history`, which is a
/// well-formed walk history at every step — whatever entries it is fed.
pub struct Walker {
    stack: Vec<Vec<String>>,
    hist: Ghost<Seq<FileTypeView>>,
}

impl Walker {
    /// The directories whose `Started` event has no matching `Finished`
    /// event yet, outermost first.
    pub closed spec fn open_dirs(self) -> Seq<Seq<Seq<char>>> {
        self.stack.deep_view()
    }

    /// Every event emitted so far, in order.
    pub closed spec fn history(self) -> Seq<FileTypeView> {
        self.hist@
    }

    /// The walker's invariant: its output so far is a well-formed walk
    /// history whose open directories are exactly the stack.
    pub closed spec fn inv(self) -> bool {
        wf_hist(self.hist@, self.stack.deep_view())
    }

    /// A walker that has emitted nothing.
    pub fn new() -> (w: Walker)
        ensures
            w.inv(),
            w.history() == Seq::<FileTypeView>::empty(),
            w.open_dirs() == Seq::<Seq<Seq<char>>>::empty(),
    {
        let w = Walker { stack: Vec::new(), hist: Ghost(Seq::empty()) };
        proof {
            assert(w.stack.deep_view() =~= Seq::<Seq<Seq<char>>>::empty());
        }
        w
    }

    /// Feeds one raw entry and returns the events it produces, exactly as
    /// `step_events` and `step_stack` describe.
    pub fn step(&mut self, path: Vec<String>, kind: EntryKind) -> (out: Vec<FileType>)
        requires
            old(self).inv(),
        ensures
            final(self).inv(),
            out.deep_view() == step_events(
                old(self).open_dirs(),
                path.deep_view(),
                kind,
            ),
            final(self).open_dirs() == step_stack(old(self).open_dirs(), path.deep_view(), kind),
            final(self).history() == old(self).history() + out.deep_view(),
    {
        let ghost stack0 = self.stack.deep_view();
        let ghost pdv = path.deep_view();
        let ghost h0 = self.hist@;
        proof {
            lemma_keep_count_bounds(stack0, pdv);
        }

        proof {
            assert(stack0.subrange(0, stack0.len() as int) =~= stack0);
        }
        let mut keep: usize = self.stack.len();
        let mut found = false;
        while keep > 0 && !found
            invariant
                0 <= keep <= stack0.len(),
                stack0 == self.stack.deep_view(),
                pdv == path.deep_view(),
                !found ==> keep_count(stack0, pdv) == keep_count(
                    stack0.subrange(0, keep as int),
                    pdv,
                ),
                found ==> keep > 0 && pdv.len() > 0 && stack0[keep - 1] == pdv.drop_last()
                    && keep_count(stack0, pdv) == keep,
            decreases 2 * keep + (if found { 0int } else { 1int }),
        {
            proof {
                assert(stack0.subrange(0, keep as int).last() == stack0[keep - 1]);
                assert(stack0.subrange(0, keep as int).drop_last() =~= stack0.subrange(
                    0,
                    keep - 1,
                ));
            }
            if is_immediate_parent(&self.stack[keep - 1], &path) {
                found = true;
            } else {
                keep = keep - 1;
            }
        }
        proof {
            if !found {
                assert(keep == 0);
                assert(stack0.subrange(0, 0) =~= Seq::<Seq<Seq<char>>>::empty());
                assert(keep_count(stack0, pdv) == 0);
            }
        }

        let mut out: Vec<FileType> = Vec::new();
        proof {
            assert(pop_events(stack0, stack0.len() as int) =~= Seq::<FileTypeView>::empty());
            assert(out.deep_view() =~= Seq::<FileTypeView>::empty());
        }
        while self.stack.len() > keep
            invariant
                0 <= keep <= self.stack.deep_view().len(),
                self.stack.deep_view().len() <= stack0.len(),
                self.stack.deep_view() =~= stack0.subrange(
                    0,
                    self.stack.deep_view().len() as int,
                ),
                self.stack@.len() == self.stack.deep_view().len(),
                stack0.len() == old(self).stack.deep_view().len(),
                out.deep_view() =~= pop_events(stack0, self.stack.deep_view().len() as int),
                wf_hist(h0 + out.deep_view(), self.stack.deep_view()),
                h0 == old(self).hist@,
                pdv == path.deep_view(),
                found ==> keep > 0 && pdv.len() > 0 && stack0[keep - 1] == pdv.drop_last(),
                !found ==> keep == 0,
            decreases self.stack.len(),
        {
            let ghost cur = self.stack.deep_view();
            let ghost out0 = out.deep_view();
            let top = self.stack.pop().unwrap();
            out.push(FileType::Dir(top, DirStatus::Finished));
            proof {
                let cur2 = self.stack.deep_view();
                assert(cur2 =~= cur.drop_last());
                assert(cur2 =~= stack0.subrange(0, cur2.len() as int));
                assert(out.deep_view() =~= out0.push(finished_event(cur.last())));
                assert(cur.last() == stack0[cur.len() - 1]);
                assert(out.deep_view() =~= pop_events(stack0, cur2.len() as int));
                assert((h0 + out.deep_view()).drop_last() =~= h0 + out0);
                assert((h0 + out.deep_view()).last() == finished_event(cur.last()));
                assert(cur2.push(cur.last()) =~= cur);
                assert(wf_hist(h0 + out.deep_view(), cur2));
            }
        }

        let ghost kept = self.stack.deep_view();
        proof {
            assert(kept.len() == keep);
            assert(kept =~= stack0.subrange(0, keep_count(stack0, pdv)));
            lemma_wf_hist_chain(h0 + out.deep_view(), kept);
        }

        match kind {
            EntryKind::Dir => {
                let ghost out0 = out.deep_view();
                self.stack.push(path.clone());
                out.push(FileType::Dir(path, DirStatus::Started));
                proof {
                    let cur2 = self.stack.deep_view();
                    assert(cur2 =~= kept.push(pdv));
                    assert(out.deep_view() =~= out0.push(
                        FileTypeView::Dir { path: pdv, status: DirStatus::Started },
                    ));
                    assert((h0 + out.deep_view()).drop_last() =~= h0 + out0);
                    assert((h0 + out.deep_view()).last() == (FileTypeView::Dir {
                        path: pdv,
                        status: DirStatus::Started,
                    }));
                    assert(cur2.drop_last() =~= kept);
                    assert(cur2.last() == pdv);
                    assert(wf_hist(h0 + out0, kept));
                    assert forall|k: int| 0 <= k < cur2.len() - 1 implies is_strict_prefix(
                        #[trigger] cur2[k],
                        pdv,
                    ) by {
                        assert(cur2[k] == kept[k]);
                        if k < keep - 1 {
                            assert(is_strict_prefix(kept[k], kept[keep - 1]));
                            assert(is_prefix(kept[k], kept[keep - 1]));
                            assert(is_prefix(kept[keep - 1], pdv)) by {
                                assert(kept[keep - 1] == pdv.drop_last());
                                assert(pdv.subrange(0, pdv.len() - 1) =~= pdv.drop_last());
                            }
                            lemma_prefix_trans(kept[k], kept[keep - 1], pdv);
                        } else {
                            assert(kept[k] == pdv.drop_last());
                            assert(pdv.subrange(0, pdv.len() - 1) =~= pdv.drop_last());
                        }
                    }
                    assert(wf_hist(h0 + out.deep_view(), cur2));
                    assert(out.deep_view() =~= step_events(stack0, pdv, kind));
                    assert(cur2 =~= step_stack(stack0, pdv, kind));
                    self.hist = Ghost(h0 + out.deep_view());
                }
            },
            EntryKind::File(size) => {
                let ghost out0 = out.deep_view();
                out.push(FileType::File(FileSize(path, size)));
                proof {
                    assert(out.deep_view() =~= out0.push(
                        FileTypeView::File { path: pdv, size },
                    ));
                    assert((h0 + out.deep_view()).drop_last() =~= h0 + out0);
                    assert((h0 + out.deep_view()).last() == (FileTypeView::File {
                        path: pdv,
                        size,
                    }));
                    assert(wf_hist(h0 + out0, kept));
                    assert forall|k: int| 0 <= k < kept.len() implies is_prefix(
                        #[trigger] kept[k],
                        pdv,
                    ) by {
                        if k < keep - 1 {
                            assert(is_strict_prefix(kept[k], kept[keep - 1]));
                            assert(is_prefix(kept[k], kept[keep - 1]));
                            assert(is_prefix(kept[keep - 1], pdv)) by {
                                assert(kept[keep - 1] == pdv.drop_last());
                                assert(pdv.subrange(0, pdv.len() - 1) =~= pdv.drop_last());
                            }
                            lemma_prefix_trans(kept[k], kept[keep - 1], pdv);
                        } else {
                            assert(kept[k] == pdv.drop_last());
                            assert(pdv.subrange(0, pdv.len() - 1) =~= pdv.drop_last());
                        }
                    }
                    assert(wf_hist(h0 + out.deep_view(), kept));
                    assert(out.deep_view() =~= step_events(stack0, pdv, kind));
                    assert(kept =~= step_stack(stack0, pdv, kind));
                    self.hist = Ghost(h0 + out.deep_view());
                }
            },
            EntryKind::Other => {
                proof {
                    assert(out.deep_view() + Seq::<FileTypeView>::empty() =~= out.deep_view());
                    assert(out.deep_view() =~= step_events(stack0, pdv, kind));
                    assert(kept =~= step_stack(stack0, pdv, kind));
                    self.hist = Ghost(h0 + out.deep_view());
                }
            },
        }
        out
    }

    /// Ends the walk: closes every directory still open, innermost first.
    pub fn finish(&mut self) -> (out: Vec<FileType>)
        requires
            old(self).inv(),
        ensures
            final(self).inv(),
            final(self).open_dirs() == Seq::<Seq<Seq<char>>>::empty(),
            out.deep_view() == pop_events(old(self).open_dirs(), 0),
            final(self).history() == old(self).history() + out.deep_view(),
    {
        let ghost stack0 = self.stack.deep_view();
        let ghost h0 = self.hist@;
        let mut out: Vec<FileType> = Vec::new();
        proof {
            assert(stack0.subrange(0, stack0.len() as int) =~= stack0);
            assert(pop_events(stack0, stack0.len() as int) =~= Seq::<FileTypeView>::empty());
            assert(out.deep_view() =~= Seq::<FileTypeView>::empty());
        }
        while self.stack.len() > 0
            invariant
                self.stack.deep_view().len() <= stack0.len(),
                self.stack.deep_view() =~= stack0.subrange(
                    0,
                    self.stack.deep_view().len() as int,
                ),
                self.stack@.len() == self.stack.deep_view().len(),
                out.deep_view() =~= pop_events(stack0, self.stack.deep_view().len() as int),
                wf_hist(h0 + out.deep_view(), self.stack.deep_view()),
                h0 == old(self).hist@,
            decreases self.stack.len(),
        {
            let ghost cur = self.stack.deep_view();
            let ghost out0 = out.deep_view();
            let top = self.stack.pop().unwrap();
            out.push(FileType::Dir(top, DirStatus::Finished));
            proof {
                let cur2 = self.stack.deep_view();
                assert(cur2 =~= cur.drop_last());
                assert(cur2 =~= stack0.subrange(0, cur2.len() as int));
                assert(out.deep_view() =~= out0.push(finished_event(cur.last())));
                assert(cur.last() == stack0[cur.len() - 1]);
                assert(out.deep_view() =~= pop_events(stack0, cur2.len() as int));
                assert((h0 + out.deep_view()).drop_last() =~= h0 + out0);
                assert((h0 + out.deep_view()).last() == finished_event(cur.last()));
                assert(cur2.push(cur.last()) =~= cur);
                assert(wf_hist(h0 + out.deep_view(), cur2));
            }
        }
        proof {
            assert(self.stack.deep_view() =~= Seq::<Seq<Seq<char>>>::empty());
            self.hist = Ghost(h0 + out.deep_view());
        }
        out
    }
}

/// Nesting invariant, at the walker: once a walk has been finished, its
/// whole output satisfies `nesting_ok`.
pub proof fn lemma_walker_nesting(w: Walker)
    requires
        w.inv(),
        w.open_dirs().len() == 0,
    ensures
        nesting_ok(w.history()),
{
    assert(w.open_dirs() =~= Seq::<Seq<Seq<char>>>::empty());
    lemma_walk_nesting(w.history());
}

/// Nesting invariant: once a walk history has no open directory left,
/// every `Started` phase in it is properly closed: exactly one matching
/// `Finished` phase follows it, and every event between the two lies at or
/// below the started directory.
pub proof fn lemma_walk_nesting(out: Seq<FileTypeView>)
    requires
        wf_hist(out, Seq::empty()),
    ensures
        nesting_ok(out),
{
    lemma_brackets(out, Seq::empty());
    assert forall|i: int|
        0 <= i < out.len() && ((#[trigger] out[i]) matches FileTypeView::Dir {
            path,
            status: DirStatus::Started,
        }) implies closes_started(out, i, out[i].path()) by {
        assert(!Seq::<Seq<Seq<char>>>::empty().contains(out[i].path()));
    }
}

} // verus!
