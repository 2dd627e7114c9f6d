//! What holds of the paths that the service accepts.

use vstd::prelude::*;
use crate::engine::path::{
    ancestors, conflicting, covers, first_slash_at, last_slash, lemma_last_slash,
    lemma_parent_shorter, parent,
};
use crate::engine::places::lemma_utf8_concat;
use crate::engine::types::Mode;
use crate::service::checks::{form_fault, path_fault, segment_fault, segments_fault};
use crate::text::{find_char, lemma_find_char, split_on, utf8};

verus! {

pub proof fn lemma_find_char_is(s: Seq<char>, c: char)
    ensures
        0 <= find_char(s, c) <= s.len(),
        forall|i: int| 0 <= i < find_char(s, c) ==> #[trigger] s[i] != c,
        find_char(s, c) < s.len() ==> s[find_char(s, c)] == c,
    decreases s.len(),
{
    if s.len() > 0 && s[0] != c {
        let t = s.drop_first();
        lemma_find_char_is(t, c);
        assert forall|i: int| 0 <= i < find_char(s, c) implies #[trigger] s[i] != c by {
            if i > 0 {
                assert(t[i - 1] == s[i]);
            }
        }
    }
}

pub proof fn lemma_no_fault(segs: Seq<Seq<char>>)
    ensures
        segments_fault(segs) is None <==> forall|i: int|
            0 <= i < segs.len() ==> segment_fault(#[trigger] segs[i]) is None,
    decreases segs.len(),
{
    if segs.len() > 0 {
        let rest = segs.drop_first();
        lemma_no_fault(rest);
        if segments_fault(segs) is None {
            assert forall|i: int| 0 <= i < segs.len() implies segment_fault(
                #[trigger] segs[i],
            ) is None by {
                if i > 0 {
                    assert(rest[i - 1] == segs[i]);
                }
            }
        }
        if forall|i: int| 0 <= i < segs.len() ==> segment_fault(#[trigger] segs[i]) is None {
            assert(segment_fault(segs[0]) is None);
            assert forall|i: int| 0 <= i < rest.len() implies segment_fault(
                #[trigger] rest[i],
            ) is None by {
                assert(rest[i] == segs[i + 1]);
            }
        }
    }
}

/// The last piece of a text is what stands behind the last separator.
pub proof fn lemma_split_last(s: Seq<char>, i: int, sep: char)
    requires
        0 <= i < s.len(),
        s[i] == sep,
        forall|j: int| i < j < s.len() ==> #[trigger] s[j] != sep,
    ensures
        split_on(s, sep) == split_on(s.take(i), sep).push(s.skip(i + 1)),
    decreases s.len(),
{
    let t = s.drop_last();
    if i == s.len() - 1 {
        assert(t =~= s.take(i));
        assert(s.skip(i + 1) =~= Seq::<char>::empty());
    } else {
        assert forall|j: int| i < j < t.len() implies #[trigger] t[j] != sep by {
            assert(t[j] == s[j]);
        }
        lemma_split_last(t, i, sep);
        assert(t.take(i) =~= s.take(i));
        assert(t.skip(i + 1).push(s.last()) =~= s.skip(i + 1));
        assert(split_on(t, sep).drop_last() =~= split_on(s.take(i), sep));
    }
}

proof fn lemma_split_ends_empty(s: Seq<char>, sep: char)
    requires
        s.len() > 0,
        s.last() == sep,
    ensures
        split_on(s, sep).len() > 0,
        split_on(s, sep).last().len() == 0,
{
}

proof fn lemma_utf8_prefix(s: Seq<char>, n: int)
    requires
        0 <= n <= s.len(),
    ensures
        utf8(s.take(n)).len() <= utf8(s).len(),
{
    assert(s =~= s.take(n) + s.skip(n));
    lemma_utf8_concat(s.take(n), s.skip(n));
}

/// Where the first slash of an accepted path stands: behind the colon.
proof fn lemma_accepted_slash(p: Seq<char>)
    requires
        form_fault(p) is None,
    ensures
        ({
            let colon = find_char(p, ':');
            &&& 0 < colon
            &&& colon + 1 < p.len()
            &&& first_slash_at(p, colon + 1)
        }),
{
    lemma_find_char_is(p, ':');
    let colon = find_char(p, ':');
    let handler = p.take(colon);
    assert(p.skip(colon + 1)[0] == p[colon + 1]);
    assert forall|j: int| 0 <= j < colon + 1 implies #[trigger] p[j] != '/' by {
        if j < colon {
            assert(handler[j] == p[j]);
        }
    }
}

/// The path one level up from an accepted path is accepted.
pub proof fn law_parent_is_accepted(p: Seq<char>)
    requires
        path_fault(p) is None,
    ensures
        parent(p) matches Some(q) ==> path_fault(q) is None,
{
    if let Some(q) = parent(p) {
        lemma_accepted_slash(p);
        lemma_last_slash(p);
        lemma_find_char_is(p, ':');
        let colon = find_char(p, ':');
        let i = last_slash(p);
        let n = q.len() as int;
        assert(i >= colon + 1) by {
            assert(p[colon + 1] == '/');
        }
        assert(colon + 1 < n <= p.len());
        assert(q =~= p.take(n));
        lemma_utf8_prefix(p, n);
        assert forall|j: int| 0 <= j < colon implies #[trigger] q[j] != ':' by {
            assert(q[j] == p[j]);
        }
        lemma_find_char(q, ':', colon);
        assert(q.take(colon) =~= p.take(colon));
        let (whole, cut) = (p.skip(colon + 1), q.skip(colon + 1));
        assert(cut =~= whole.take(n - colon - 1));
        assert(cut[0] == '/');
        if !first_slash_at(p, i) {
            let k = i - colon - 2;
            let body = whole.drop_first();
            assert(body[k] == p[i]);
            assert(whole.last() == p.last());
            assert forall|j: int| k < j < body.len() implies #[trigger] body[j] != '/' by {
                assert(body[j] == p[j + colon + 2]);
            }
            lemma_split_last(body, k, '/');
            let segs = split_on(body, '/');
            lemma_no_fault(segs);
            assert(cut.drop_first() =~= body.take(k));
            let fewer = split_on(body.take(k), '/');
            assert forall|j: int| 0 <= j < fewer.len() implies segment_fault(
                #[trigger] fewer[j],
            ) is None by {
                assert(segs[j] == fewer[j]);
            }
            lemma_no_fault(fewer);
            if k > 0 && body[k - 1] == '/' {
                lemma_split_ends_empty(body.take(k), '/');
                assert(segment_fault(fewer[fewer.len() - 1]) is None);
            }
            if cut.len() > 1 {
                assert(cut.last() == body[k - 1]);
            }
        }
    }
}

/// The root that an accepted path lies under: its handler, the colon and a slash.
pub open spec fn root_of(p: Seq<char>) -> Seq<char> {
    p.take(find_char(p, ':') + 2)
}

/// An accepted path is its root or lies below it, so that a write lock on the root
/// excludes every lock on it.
pub proof fn law_accepted_path_lies_under_its_root(p: Seq<char>, mode: Mode)
    requires
        path_fault(p) is None,
    ensures
        covers(root_of(p), p),
        conflicting(root_of(p), Mode::Write, p, mode),
    decreases p.len(),
{
    lemma_accepted_slash(p);
    lemma_last_slash(p);
    lemma_find_char_is(p, ':');
    let colon = find_char(p, ':');
    let i = last_slash(p);
    assert(i >= colon + 1) by {
        assert(p[colon + 1] == '/');
    }
    match parent(p) {
        None => {
            assert(first_slash_at(p, i));
            if i > colon + 1 {
                assert(p[colon + 1] != '/');
            }
            assert(root_of(p) =~= p);
        },
        Some(q) => {
            lemma_parent_shorter(p);
            law_parent_is_accepted(p);
            let n = q.len() as int;
            assert(colon + 1 < n) by {
                if first_slash_at(p, i) {
                } else {
                    assert(i != colon + 1);
                }
            }
            assert(q =~= p.take(n));
            assert forall|j: int| 0 <= j < colon implies #[trigger] q[j] != ':' by {
                assert(q[j] == p[j]);
            }
            lemma_find_char(q, ':', colon);
            assert(root_of(q) =~= root_of(p));
            law_accepted_path_lies_under_its_root(q, mode);
            let up = ancestors(p);
            assert(up == seq![q] + ancestors(q));
            if root_of(p) == q {
                assert(up[0] == q);
            } else {
                let k = ancestors(q).index_of(root_of(p));
                assert(up[k + 1] == root_of(p));
            }
            assert(up.contains(root_of(p)));
        },
    }
}

} // verus!
