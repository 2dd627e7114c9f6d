//! The bytewise order of keys, in which the store keeps its rows.

use vstd::prelude::*;
use crate::store_keys::{be64, be64_value, lemma_be64_reads_back};

verus! {

/// `a` and `b` agree before position `k`, and `a` ends there or has the smaller
/// byte.
pub open spec fn splits_at(a: Seq<u8>, b: Seq<u8>, k: int) -> bool {
    &&& 0 <= k <= a.len()
    &&& k < b.len()
    &&& forall|i: int| 0 <= i < k ==> #[trigger] a[i] == b[i]
    &&& k == a.len() || a[k] < b[k]
}

/// `a` sorts before `b`.
pub open spec fn lex_lt(a: Seq<u8>, b: Seq<u8>) -> bool {
    exists|k: int| splits_at(a, b, k)
}

pub proof fn lemma_lex_irreflexive(a: Seq<u8>)
    ensures
        !lex_lt(a, a),
{
}

pub proof fn lemma_lex_transitive(a: Seq<u8>, b: Seq<u8>, c: Seq<u8>)
    requires
        lex_lt(a, b),
        lex_lt(b, c),
    ensures
        lex_lt(a, c),
{
    let k = choose|k: int| splits_at(a, b, k);
    let l = choose|l: int| splits_at(b, c, l);
    if k <= l {
        assert(splits_at(a, c, k));
    } else {
        assert(splits_at(a, c, l));
    }
}

pub proof fn lemma_lex_asymmetric(a: Seq<u8>, b: Seq<u8>)
    requires
        lex_lt(a, b),
    ensures
        !lex_lt(b, a),
{
    if lex_lt(b, a) {
        lemma_lex_transitive(a, b, a);
    }
}

/// Different keys are ordered one way or the other.
pub proof fn lemma_lex_total(a: Seq<u8>, b: Seq<u8>)
    ensures
        a == b || lex_lt(a, b) || lex_lt(b, a),
{
    lemma_lex_total_from(a, b, 0);
}

proof fn lemma_lex_total_from(a: Seq<u8>, b: Seq<u8>, k: int)
    requires
        0 <= k <= a.len(),
        k <= b.len(),
        forall|i: int| 0 <= i < k ==> #[trigger] a[i] == b[i],
    ensures
        a == b || lex_lt(a, b) || lex_lt(b, a),
    decreases a.len() - k,
{
    if k == a.len() {
        if k == b.len() {
            assert(a =~= b);
        } else {
            assert(splits_at(a, b, k));
        }
    } else if k == b.len() {
        assert(splits_at(b, a, k));
    } else if a[k] < b[k] {
        assert(splits_at(a, b, k));
    } else if b[k] < a[k] {
        assert(splits_at(b, a, k));
    } else {
        lemma_lex_total_from(a, b, k + 1);
    }
}

/// No key sorts before one of its prefixes.
pub proof fn lemma_prefix_not_after(k: Seq<u8>, p: Seq<u8>)
    requires
        p.is_prefix_of(k),
    ensures
        !lex_lt(k, p),
{
    if lex_lt(k, p) {
        let i = choose|i: int| splits_at(k, p, i);
        assert(k.take(p.len() as int)[i] == k[i]);
        assert(p[i] == k[i]);
    }
}

/// Behind a key that is past the prefix `p` without having it, no key has it.
pub proof fn lemma_prefix_block_ends(p: Seq<u8>, k: Seq<u8>, l: Seq<u8>)
    requires
        !lex_lt(k, p),
        !p.is_prefix_of(k),
        lex_lt(k, l),
    ensures
        !p.is_prefix_of(l),
{
    if p.is_prefix_of(l) {
        lemma_lex_total(k, p);
        assert(k != p) by {
            if k == p {
                assert(p =~= k.take(p.len() as int));
            }
        }
        let d = choose|d: int| splits_at(p, k, d);
        let e = choose|e: int| splits_at(k, l, e);
        assert forall|i: int| 0 <= i < p.len() implies #[trigger] l[i] == p[i] by {
            assert(l.take(p.len() as int)[i] == l[i]);
        }
        if d == p.len() {
            assert(p =~= k.take(p.len() as int));
        }
        if e > d {
            assert(k[d] == l[d]);
        } else if e < d {
            assert(p[e] == k[e]);
        }
    }
}

/// Whether `a` sorts before `b`.
pub fn lex_less(a: &[u8], b: &[u8]) -> (r: bool)
    ensures
        r == lex_lt(a@, b@),
{
    let mut k: usize = 0;
    while k < a.len() && k < b.len() && a[k] == b[k]
        invariant
            k <= a@.len(),
            k <= b@.len(),
            forall|i: int| 0 <= i < k ==> #[trigger] a@[i] == b@[i],
        decreases a@.len() - k,
    {
        k = k + 1;
    }
    if k == b.len() {
        proof {
            if lex_lt(a@, b@) {
                let j = choose|j: int| splits_at(a@, b@, j);
                assert(a@[j] == b@[j]);
            }
        }
        false
    } else if k == a.len() {
        assert(splits_at(a@, b@, k as int));
        true
    } else {
        proof {
            if a@[k as int] < b@[k as int] {
                assert(splits_at(a@, b@, k as int));
            } else {
                assert(splits_at(b@, a@, k as int));
                lemma_lex_asymmetric(b@, a@);
            }
        }
        a[k] < b[k]
    }
}

/// Whether `k` begins with `p`.
pub fn starts_with(k: &[u8], p: &[u8]) -> (r: bool)
    ensures
        r == p@.is_prefix_of(k@),
{
    if k.len() < p.len() {
        return false;
    }
    let mut i: usize = 0;
    while i < p.len()
        invariant
            i <= p@.len() <= k@.len(),
            forall|j: int| 0 <= j < i ==> #[trigger] p@[j] == k@[j],
        decreases p@.len() - i,
    {
        if k[i] != p[i] {
            proof {
                assert(k@.take(p@.len() as int)[i as int] == k@[i as int]);
            }
            return false;
        }
        i = i + 1;
    }
    assert(p@ =~= k@.take(p@.len() as int));
    true
}

/// Big-endian numbers sort as the numbers do, whatever follows them.
pub proof fn lemma_be64_order(a: u64, x: Seq<u8>, b: u64)
    ensures
        lex_lt(be64(a) + x, be64(b)) <==> a < b,
{
    lemma_be64_reads_back(a);
    lemma_be64_reads_back(b);
    let (p, q) = (be64(a), be64(b));
    let l = p + x;
    if p == q {
        if lex_lt(l, q) {
            let k = choose|k: int| splits_at(l, q, k);
            assert(l[k] == p[k]);
        }
    } else {
        lemma_lex_total(p, q);
        if lex_lt(p, q) {
            let k = choose|k: int| splits_at(p, q, k);
            assert(splits_at(l, q, k)) by {
                assert(forall|i: int| 0 <= i < 8 ==> l[i] == p[i]);
            }
            lemma_be64_value_order(p, q, k);
        } else {
            let k = choose|k: int| splits_at(q, p, k);
            lemma_be64_value_order(q, p, k);
            if lex_lt(l, q) {
                let j = choose|j: int| splits_at(l, q, j);
                assert(l[j] == p[j]);
                if j < k {
                    assert(q[j] == p[j]);
                } else if j > k {
                    assert(l[k] == p[k]);
                }
            }
        }
    }
}

proof fn lemma_be64_value_order(p: Seq<u8>, q: Seq<u8>, k: int)
    requires
        p.len() == 8,
        q.len() == 8,
        splits_at(p, q, k),
    ensures
        be64_value(p) < be64_value(q),
{
    let (p2, q2) = (p[0] * 256 + p[1], q[0] * 256 + q[1]);
    let (p3, q3) = (p2 * 256 + p[2], q2 * 256 + q[2]);
    let (p4, q4) = (p3 * 256 + p[3], q3 * 256 + q[3]);
    let (p5, q5) = (p4 * 256 + p[4], q4 * 256 + q[4]);
    let (p6, q6) = (p5 * 256 + p[5], q5 * 256 + q[5]);
    let (p7, q7) = (p6 * 256 + p[6], q6 * 256 + q[6]);
    assert(k > 0 ==> p[0] == q[0]);
    assert(k > 1 ==> p2 == q2);
    assert(k > 2 ==> p3 == q3);
    assert(k > 3 ==> p4 == q4);
    assert(k > 4 ==> p5 == q5);
    assert(k > 5 ==> p6 == q6);
    assert(k > 6 ==> p7 == q7);
    assert(k <= 1 ==> p2 < q2);
    assert(k <= 2 ==> p3 < q3);
    assert(k <= 3 ==> p4 < q4);
    assert(k <= 4 ==> p5 < q5);
    assert(k <= 5 ==> p6 < q6);
    assert(k <= 6 ==> p7 < q7);
}

} // verus!
