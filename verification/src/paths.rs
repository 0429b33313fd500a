//! Relative paths as sequences of segments.
//!
//! Every path in the engine is a list of path segments relative to the
//! scan root; the root itself is the empty list. `get_components` turns a
//! textual path into segments, and the prefix predicates below are the
//! vocabulary of the tree and coordinator contracts.

use vstd::prelude::*;
use vstd::string::StrSliceExecFns;

verus! {

/// A path `p` names an ancestor-or-self of `q`.
pub open spec fn is_prefix(p: Seq<Seq<char>>, q: Seq<Seq<char>>) -> bool {
    p.len() <= q.len() && q.subrange(0, p.len() as int) == p
}

/// A path `p` names a strict ancestor of `q`; these are exactly the
/// directories that contain `q`.
pub open spec fn is_strict_prefix(p: Seq<Seq<char>>, q: Seq<Seq<char>>) -> bool {
    is_prefix(p, q) && p.len() < q.len()
}

/// The segments of a textual path: the non-empty pieces between `/`
/// separators, in order.
pub open spec fn split_segments(s: Seq<char>) -> Seq<Seq<char>>
    decreases s.len(),
{
    if s.len() == 0 {
        Seq::empty()
    } else {
        let rest = split_segments(s.drop_last());
        if s.last() == '/' {
            rest
        } else if s.len() >= 2 && s[s.len() - 2] != '/' {
            rest.update(rest.len() - 1, rest.last().push(s.last()))
        } else {
            rest.push(seq![s.last()])
        }
    }
}

/// Splits a textual path into its segments: the non-empty pieces between
/// `/` separators.
pub fn get_components(path: &str) -> (r: Vec<String>)
    ensures
        r.deep_view() == split_segments(path@),
{
    let n = path.unicode_len();
    let mut r: Vec<String> = Vec::new();
    let mut i: usize = 0;
    let mut seg_start: usize = 0;
    let mut in_segment: bool = false;
    while i < n
        invariant
            0 <= i <= n,
            n == path@.len(),
            r.deep_view() == split_segments(path@.subrange(0, i as int)),
            !in_segment ==> i == 0 || path@[i - 1] == '/',
            in_segment ==> seg_start < i,
            in_segment ==> forall|k: int| seg_start <= k < i ==> path@[k] != '/',
            in_segment ==> r.deep_view().len() > 0,
            in_segment ==> r.deep_view().last()
                == path@.subrange(seg_start as int, i as int),
        decreases n - i,
    {
        let ghost prefix_dv = r.deep_view();
        let c = path.get_char(i);
        proof {
            lemma_split_segments_extend(path@, i as int);
        }
        if c == '/' {
            in_segment = false;
        } else if !in_segment {
            seg_start = i;
            in_segment = true;
            let seg = path.substring_char(i, i + 1);
            r.push(seg.to_owned());
            proof {
                assert(seg@ =~= seq![path@[i as int]]);
                assert(r.deep_view() =~= prefix_dv.push(seq![path@[i as int]]));
                assert(path@.subrange(seg_start as int, i + 1) =~= seg@);
            }
        } else {
            let seg = path.substring_char(seg_start, i + 1);
            r.pop();
            r.push(seg.to_owned());
            proof {
                assert(seg@ =~= path@.subrange(seg_start as int, i as int).push(
                    path@[i as int],
                ));
                assert(r.deep_view() =~= prefix_dv.update(
                    prefix_dv.len() - 1,
                    prefix_dv.last().push(path@[i as int]),
                ));
            }
        }
        i = i + 1;
    }
    proof {
        assert(path@.subrange(0, n as int) =~= path@);
    }
    r
}

/// Compares two segment paths by their text.
pub fn paths_equal(a: &Vec<String>, b: &Vec<String>) -> (r: bool)
    ensures
        r == (a.deep_view() == b.deep_view()),
{
    if a.len() != b.len() {
        proof {
            assert(a.deep_view().len() != b.deep_view().len());
        }
        return false;
    }
    let n = a.len();
    let mut i: usize = 0;
    while i < n
        invariant
            0 <= i <= n,
            n == a@.len() == b@.len(),
            forall|k: int| 0 <= k < i ==> a.deep_view()[k] == b.deep_view()[k],
        decreases n - i,
    {
        if !a[i].eq(&b[i]) {
            proof {
                assert(a.deep_view()[i as int] != b.deep_view()[i as int]);
            }
            return false;
        }
        i = i + 1;
    }
    proof {
        assert(a.deep_view() =~= b.deep_view());
    }
    true
}

/// Copies a segment path.
pub fn clone_path(p: &Vec<String>) -> (r: Vec<String>)
    ensures
        r@ == p@,
        r.deep_view() == p.deep_view(),
{
    let r = p.clone();
    proof {
        assert forall|i: int| 0 <= i < p@.len() implies r@[i] == p@[i] by {
            assert(vstd::pervasive::cloned::<String>(p@[i], r@[i]));
        }
        assert(r@ =~= p@);
        assert(r.deep_view() =~= p.deep_view());
    }
    r
}

/// Joins two segment paths: the segments of `a`, then those of `b`.
pub fn join_path(a: &Vec<String>, b: &Vec<String>) -> (r: Vec<String>)
    ensures
        r@ == a@ + b@,
        r.deep_view() == a.deep_view() + b.deep_view(),
{
    let mut r = clone_path(a);
    let n = b.len();
    let mut i: usize = 0;
    proof {
        assert(r@ =~= a@ + b@.subrange(0, 0));
    }
    while i < n
        invariant
            0 <= i <= n,
            n == b@.len(),
            r@ =~= a@ + b@.subrange(0, i as int),
        decreases n - i,
    {
        let seg = &b[i];
        r.push(seg.clone());
        proof {
            assert(r@ =~= a@ + b@.subrange(0, i + 1));
        }
        i = i + 1;
    }
    proof {
        assert(b@.subrange(0, n as int) =~= b@);
        assert(r@ =~= a@ + b@);
        assert(r.deep_view() =~= a.deep_view() + b.deep_view());
    }
    r
}

/// Prefixes step segment by segment: `p` leads into `q` exactly when their
/// first segments agree and the rest of `p` leads into the rest of `q`.
pub proof fn lemma_prefix_step(p: Seq<Seq<char>>, q: Seq<Seq<char>>)
    requires
        p.len() > 0,
        q.len() > 0,
    ensures
        is_prefix(p, q) <==> (p[0] == q[0] && is_prefix(p.drop_first(), q.drop_first())),
{
    if is_prefix(p, q) {
        assert(q.subrange(0, p.len() as int)[0] == q[0]);
        assert forall|k: int| 0 <= k < p.len() - 1 implies q.drop_first().subrange(
            0,
            p.len() - 1,
        )[k] == p.drop_first()[k] by {
            assert(q.drop_first()[k] == q[k + 1]);
            assert(p[k + 1] == q.subrange(0, p.len() as int)[k + 1]);
        }
        assert(q.drop_first().subrange(0, p.len() - 1) =~= p.drop_first());
    }
    if p[0] == q[0] && is_prefix(p.drop_first(), q.drop_first()) {
        assert forall|k: int| 0 <= k < p.len() implies q.subrange(0, p.len() as int)[k]
            == p[k] by {
            if k > 0 {
                assert(p[k] == p.drop_first()[k - 1]);
                assert(q.drop_first().subrange(0, p.len() - 1)[k - 1] == q.drop_first()[k
                    - 1]);
            }
        }
        assert(q.subrange(0, p.len() as int) =~= p);
    }
}

/// The empty path is a prefix of every path, and has no prefix but itself.
pub proof fn lemma_prefix_empty(p: Seq<Seq<char>>, q: Seq<Seq<char>>)
    ensures
        p.len() == 0 ==> is_prefix(p, q),
        q.len() == 0 ==> (is_prefix(p, q) <==> p.len() == 0),
{
    if p.len() == 0 {
        assert(q.subrange(0, 0) =~= p);
    }
}

/// Heads and tails: two non-empty paths are equal exactly when their first
/// segments and their remainders are.
pub proof fn lemma_head_tail(p: Seq<Seq<char>>, q: Seq<Seq<char>>)
    requires
        p.len() > 0,
        q.len() > 0,
    ensures
        (p == q) <==> (p[0] == q[0] && p.drop_first() == q.drop_first()),
{
    if p[0] == q[0] && p.drop_first() == q.drop_first() && p.len() == q.len() {
        assert(p =~= q) by {
            assert(forall|k: int| 0 < k < p.len() ==> p[k] == p.drop_first()[k - 1]);
            assert(forall|k: int| 0 < k < q.len() ==> q[k] == q.drop_first()[k - 1]);
        }
    }
    if p[0] == q[0] && p.drop_first() == q.drop_first() && p.len() != q.len() {
        assert(p.drop_first().len() != q.drop_first().len());
    }
}

/// Prefixes compose.
pub proof fn lemma_prefix_trans(a: Seq<Seq<char>>, b: Seq<Seq<char>>, c: Seq<Seq<char>>)
    requires
        is_prefix(a, b),
        is_prefix(b, c),
    ensures
        is_prefix(a, c),
{
    assert(c.subrange(0, a.len() as int) =~= c.subrange(0, b.len() as int).subrange(
        0,
        a.len() as int,
    ));
}

/// Extending the text by one character changes the segment split in one of
/// three ways: a separator closes the current segment, a character after a
/// separator opens a new one, and any other character grows the last one.
proof fn lemma_split_segments_extend(s: Seq<char>, i: int)
    requires
        0 <= i < s.len(),
    ensures
        s[i] == '/' ==> split_segments(s.subrange(0, i + 1))
            == split_segments(s.subrange(0, i)),
        s[i] != '/' && (i == 0 || s[i - 1] == '/') ==> split_segments(
            s.subrange(0, i + 1),
        ) == split_segments(s.subrange(0, i)).push(seq![s[i]]),
        s[i] != '/' && i > 0 && s[i - 1] != '/' ==> {
            let rest = split_segments(s.subrange(0, i));
            split_segments(s.subrange(0, i + 1)) == rest.update(
                rest.len() - 1,
                rest.last().push(s[i]),
            )
        },
{
    let t = s.subrange(0, i + 1);
    assert(t.drop_last() =~= s.subrange(0, i));
    assert(t.last() == s[i]);
}

} // verus!
