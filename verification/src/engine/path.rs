//! Paths `handler:/a/b`: their ancestors, and which locks overlap.

use vstd::prelude::*;
use crate::engine::types::Mode;
use crate::text::{from_chars, texts, to_chars};

verus! {

/// The position of the last `/`, or `-1`.
pub open spec fn last_slash(s: Seq<char>) -> int
    decreases s.len(),
{
    if s.len() == 0 {
        -1
    } else if s.last() == '/' {
        s.len() - 1
    } else {
        last_slash(s.drop_last())
    }
}

/// Whether the first `/` stands at position `i`.
pub open spec fn first_slash_at(s: Seq<char>, i: int) -> bool {
    0 <= i < s.len() && s[i] == '/' && forall|j: int| 0 <= j < i ==> #[trigger] s[j] != '/'
}

/// The path one level up: cut at the last `/`, which stays if it is the only one
/// (the root). The root has no parent, nor has a text without `/`.
pub open spec fn parent(p: Seq<char>) -> Option<Seq<char>> {
    let i = last_slash(p);
    if i < 0 {
        None
    } else if first_slash_at(p, i) {
        if p.len() == i + 1 {
            None
        } else {
            Some(p.take(i + 1))
        }
    } else {
        Some(p.take(i))
    }
}

pub proof fn lemma_last_slash(s: Seq<char>)
    ensures
        -1 <= last_slash(s) < s.len(),
        last_slash(s) >= 0 ==> s[last_slash(s)] == '/',
        forall|j: int| last_slash(s) < j < s.len() ==> #[trigger] s[j] != '/',
    decreases s.len(),
{
    if s.len() > 0 && s.last() != '/' {
        let t = s.drop_last();
        lemma_last_slash(t);
        assert forall|j: int| last_slash(s) < j < s.len() implies #[trigger] s[j] != '/' by {
            if j < t.len() {
                assert(t[j] == s[j]);
            }
        }
    }
}

/// A parent is a shorter beginning of the path.
pub proof fn lemma_parent_shorter(p: Seq<char>)
    ensures
        parent(p) matches Some(q) ==> q.len() < p.len() && q == p.take(q.len() as int),
{
    lemma_last_slash(p);
}

/// The ancestors of a path, the nearest first.
pub open spec fn ancestors(p: Seq<char>) -> Seq<Seq<char>>
    decreases p.len(),
    via ancestors_decreases
{
    match parent(p) {
        Some(q) => seq![q] + ancestors(q),
        None => Seq::empty(),
    }
}

#[via_fn]
proof fn ancestors_decreases(p: Seq<char>) {
    lemma_parent_shorter(p);
}

/// Whether `a` is `p` or one of its ancestors.
pub open spec fn covers(a: Seq<char>, p: Seq<char>) -> bool {
    a == p || ancestors(p).contains(a)
}

/// Whether a lock on `p` and a lock on `q`, by different owners, exclude each
/// other. A write lock takes the whole subtree, a read lock its path alone; two
/// read locks never exclude each other.
pub open spec fn conflicting(p: Seq<char>, m: Mode, q: Seq<char>, n: Mode) -> bool {
    match (m, n) {
        (Mode::Write, Mode::Write) => covers(p, q) || covers(q, p),
        (Mode::Write, Mode::Read) => covers(p, q),
        (Mode::Read, Mode::Write) => covers(q, p),
        (Mode::Read, Mode::Read) => false,
    }
}

/// Whether two locks exclude each other does not depend on their order.
pub proof fn law_conflict_symmetric(p: Seq<char>, m: Mode, q: Seq<char>, n: Mode)
    ensures
        conflicting(p, m, q, n) == conflicting(q, n, p, m),
{
}

/// Every proper ancestor of a path is shorter than it.
pub proof fn lemma_ancestors_shorter(p: Seq<char>)
    ensures
        forall|a: Seq<char>| #[trigger] ancestors(p).contains(a) ==> a.len() < p.len(),
    decreases p.len(),
{
    if let Some(q) = parent(p) {
        lemma_parent_shorter(p);
        lemma_ancestors_shorter(q);
        assert forall|a: Seq<char>| #[trigger] ancestors(p).contains(a) implies a.len()
            < p.len() by {
            let i = ancestors(p).index_of(a);
            if i > 0 {
                assert(ancestors(q)[i - 1] == a);
                assert(ancestors(q).contains(a));
            }
        }
    }
}

/// The ancestors of an ancestor are ancestors.
pub proof fn law_ancestors_nest(p: Seq<char>, a: Seq<char>, b: Seq<char>)
    requires
        covers(a, b),
        covers(b, p),
    ensures
        covers(a, p),
    decreases p.len(),
{
    if b != p && a != b {
        lemma_parent_shorter(p);
        let q = parent(p)->0;
        let i = ancestors(p).index_of(b);
        if i > 0 {
            assert(ancestors(q)[i - 1] == b);
            assert(ancestors(q).contains(b));
        }
        law_ancestors_nest(q, a, b);
        if a == q {
            assert(ancestors(p)[0] == a);
        } else {
            let j = ancestors(q).index_of(a);
            assert(ancestors(p)[j + 1] == a);
        }
    }
}

/// Whether `a` is what is left of `p` when it is cut at one of its slashes: what stands
/// before the slash and, where that is the first, the slash itself. Nothing is left of a path
/// that is not shorter.
pub open spec fn is_cut(p: Seq<char>, a: Seq<char>) -> bool {
    exists|i: int| #[trigger] cut_at(p, i) == Some(a)
}

/// What is left of `p` when it is cut at position `i`.
pub open spec fn cut_at(p: Seq<char>, i: int) -> Option<Seq<char>> {
    if !(0 <= i < p.len() && p[i] == '/') {
        None
    } else if exists|j: int| 0 <= j < i && #[trigger] p[j] == '/' {
        Some(p.take(i))
    } else if i + 1 < p.len() {
        Some(p.take(i + 1))
    } else {
        None
    }
}

/// The ancestors of a path are what is left of it when it is cut at one of its slashes, and
/// nothing else.
pub proof fn law_ancestors_are_cuts(p: Seq<char>, a: Seq<char>)
    ensures
        ancestors(p).contains(a) <==> is_cut(p, a),
    decreases p.len(),
{
    lemma_last_slash(p);
    lemma_parent_shorter(p);
    let i = last_slash(p);
    match parent(p) {
        None => {
            if is_cut(p, a) {
                let k = choose|k: int| #[trigger] cut_at(p, k) == Some(a);
                assert(k <= i);
            }
        },
        Some(q) => {
            law_ancestors_are_cuts(q, a);
            assert(cut_at(p, i) == Some(q)) by {
                if !first_slash_at(p, i) {
                    let j = choose|j: int| 0 <= j < i && #[trigger] p[j] == '/';
                    assert(p[j] == '/');
                }
            }
            let above = ancestors(q);
            assert(ancestors(p) == seq![q] + above);
            if ancestors(p).contains(a) {
                let n = ancestors(p).index_of(a);
                if n == 0 {
                    assert(a == q);
                } else {
                    assert(above[n - 1] == a);
                    let k = choose|k: int| #[trigger] cut_at(q, k) == Some(a);
                    assert(p[k] == q[k]);
                    lemma_cut_below(p, q, k);
                }
            }
            if is_cut(p, a) {
                let k = choose|k: int| #[trigger] cut_at(p, k) == Some(a);
                assert(k <= i);
                if a == q {
                    assert(ancestors(p)[0] == a);
                } else {
                    assert(k < i);
                    assert(!first_slash_at(p, i));
                    assert(q == p.take(i));
                    assert(q[k] == p[k]);
                    if exists|j: int| 0 <= j < k && #[trigger] p[j] == '/' {
                        let j = choose|j: int| 0 <= j < k && #[trigger] p[j] == '/';
                        assert(q[j] == '/');
                        assert(q.take(k) =~= a);
                    } else {
                        assert(k + 1 <= i);
                        if k + 1 == i {
                            assert(a =~= q);
                        }
                        assert(q.take(k + 1) =~= a);
                        assert forall|j: int| 0 <= j < k implies #[trigger] q[j] != '/' by {
                            assert(q[j] == p[j]);
                        }
                    }
                    assert(cut_at(q, k) == Some(a));
                    let n = above.index_of(a);
                    assert(ancestors(p)[n + 1] == a);
                }
            }
        },
    }
}

/// Cutting a beginning of a path at a slash leaves what cutting the path there leaves.
proof fn lemma_cut_below(p: Seq<char>, q: Seq<char>, k: int)
    requires
        q.len() <= p.len(),
        q == p.take(q.len() as int),
        cut_at(q, k) is Some,
    ensures
        cut_at(p, k) == cut_at(q, k),
{
    assert(q[k] == p[k]);
    if exists|j: int| 0 <= j < k && #[trigger] q[j] == '/' {
        let j = choose|j: int| 0 <= j < k && #[trigger] q[j] == '/';
        assert(p[j] == '/');
        assert(p.take(k) =~= q.take(k));
    } else {
        assert forall|j: int| 0 <= j < k implies #[trigger] p[j] != '/' by {
            assert(q[j] == p[j]);
        }
        assert(p.take(k + 1) =~= q.take(k + 1));
    }
}

/// Ancestors come nearest first: each is longer than those after it, and all are beginnings
/// of the path.
pub proof fn law_nearest_comes_first(p: Seq<char>)
    ensures
        forall|i: int|
            0 <= i < ancestors(p).len() ==> (#[trigger] ancestors(p)[i]).is_prefix_of(p)
                && ancestors(p)[i].len() < p.len(),
        forall|i: int, j: int|
            0 <= i < j < ancestors(p).len() ==> (#[trigger] ancestors(p)[i]).len() > (
            #[trigger] ancestors(p)[j]).len(),
    decreases p.len(),
{
    if let Some(q) = parent(p) {
        lemma_parent_shorter(p);
        law_nearest_comes_first(q);
        let above = ancestors(q);
        assert(ancestors(p) == seq![q] + above);
        assert forall|i: int| 0 <= i < ancestors(p).len() implies (
        #[trigger] ancestors(p)[i]).is_prefix_of(p) && ancestors(p)[i].len() < p.len() by {
            if i > 0 {
                let a = above[i - 1];
                assert(a.is_prefix_of(q));
                assert(p.subrange(0, a.len() as int) =~= q.subrange(0, a.len() as int));
            } else {
                assert(p.subrange(0, q.len() as int) =~= q);
            }
        }
        assert forall|i: int, j: int| 0 <= i < j < ancestors(p).len() implies (
        #[trigger] ancestors(p)[i]).len() > (#[trigger] ancestors(p)[j]).len() by {
            assert(ancestors(p)[j] == above[j - 1]);
            if i > 0 {
                assert(ancestors(p)[i] == above[i - 1]);
            }
        }
    }
}

/// Two locks exclude each other if and only if one of them is a write lock and the other
/// stands on its path or below it.
pub proof fn law_conflict_tells(p: Seq<char>, m: Mode, q: Seq<char>, n: Mode)
    ensures
        conflicting(p, m, q, n) <==> {
            ||| m == Mode::Write && (p == q || is_cut(q, p))
            ||| n == Mode::Write && (p == q || is_cut(p, q))
        },
{
    law_ancestors_are_cuts(p, q);
    law_ancestors_are_cuts(q, p);
}

/// The ancestors of `path`, the nearest first.
pub fn get_ancestors(path: &str) -> (r: Vec<String>)
    ensures
        texts(r@) == ancestors(path@),
{
    let chars = to_chars(path);
    let mut out: Vec<String> = Vec::new();
    let mut n: usize = chars.len();
    let mut done = false;
    assert(chars@.take(n as int) =~= path@);
    assert(texts(out@) =~= Seq::<Seq<char>>::empty());
    assert(texts(out@) + ancestors(path@) =~= ancestors(path@));
    while !done
        invariant
            chars@ == path@,
            n <= chars@.len(),
            !done ==> ancestors(path@) == texts(out@) + ancestors(chars@.take(n as int)),
            done ==> ancestors(path@) == texts(out@),
        decreases (if done { 0int } else { 1int }), n,
    {
        let ghost cur = chars@.take(n as int);
        let ghost before = texts(out@);
        let mut i: usize = n;
        while i > 0 && chars[i - 1] != '/'
            invariant
                i <= n <= chars@.len(),
                forall|j: int| i <= j < n ==> #[trigger] chars@[j] != '/',
            decreases i,
        {
            i = i - 1;
        }
        proof {
            lemma_last_slash(cur);
            assert forall|j: int| i <= j < n implies #[trigger] cur[j] != '/' by {
                assert(cur[j] == chars@[j]);
            }
            if i > 0 {
                assert(cur[i - 1] == '/');
            }
            assert(last_slash(cur) == i - 1);
        }
        if i == 0 {
            proof {
                assert(before + ancestors(cur) =~= before);
            }
            done = true;
        } else {
            let mut only = true;
            let mut k: usize = 0;
            while k + 1 < i
                invariant
                    k <= i - 1,
                    i <= n <= chars@.len(),
                    only == (forall|j: int| 0 <= j < k ==> #[trigger] chars@[j] != '/'),
                decreases i - k,
            {
                if chars[k] == '/' {
                    only = false;
                }
                k = k + 1;
            }
            proof {
                assert(only == first_slash_at(cur, i - 1)) by {
                    if only {
                        assert forall|j: int| 0 <= j < i - 1 implies #[trigger] cur[j] != '/' by {
                            assert(cur[j] == chars@[j]);
                        }
                    } else {
                        let j = choose|j: int| 0 <= j < k && #[trigger] chars@[j] == '/';
                        assert(cur[j] == chars@[j]);
                    }
                }
            }
            if only && i == n {
                proof {
                    assert(before + ancestors(cur) =~= before);
                }
                done = true;
            } else {
                let m: usize = if only {
                    i
                } else {
                    i - 1
                };
                let up = from_chars(chars.as_slice(), 0, m);
                proof {
                    assert(up@ =~= cur.take(m as int));
                    assert(up@ =~= chars@.take(m as int));
                    assert(parent(cur) == Some(up@));
                }
                out.push(up);
                proof {
                    assert(texts(out@) =~= before.push(up@));
                    assert(before + (seq![up@] + ancestors(up@)) =~= before.push(up@) + ancestors(
                        up@,
                    ));
                }
                n = m;
            }
        }
    }
    out
}

} // verus!
