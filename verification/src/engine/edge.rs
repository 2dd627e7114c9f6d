//! How a wait-for edge is written down: the awaited owner and, where known, the
//! path and reason of the conflict.

use vstd::prelude::*;
use crate::engine::types::{opt_meta, MetaView, WaitEdgeMetadata};
use crate::text::{
    decimal, from_chars, is_digit, lemma_decimal_reads_back, lemma_parse_decimal, parse_unsigned,
    parse_unsigned_spec, push_decimal, to_chars,
};

verus! {

/// A text behind its length.
pub open spec fn counted(s: Seq<char>) -> Seq<char> {
    decimal(s.len()).push(':') + s
}

/// The mark in front of an edge that says where and why.
pub open spec fn edge_mark() -> Seq<char> {
    seq!['v', '1', ':']
}

/// A wait-for edge as text: `0` and the awaited owner, or `v1:`, the owner and the
/// path behind their lengths, and the reason.
pub open spec fn edge_text(owner: Seq<char>, meta: Option<MetaView>) -> Seq<char> {
    match meta {
        None => seq!['0'] + owner,
        Some(m) => edge_mark() + counted(owner) + counted(m.path) + m.reason,
    }
}

/// The position of the first `:`, or the length.
pub open spec fn colon_at(s: Seq<char>) -> int
    decreases s.len(),
{
    if s.len() == 0 || s[0] == ':' {
        0
    } else {
        1 + colon_at(s.drop_first())
    }
}

/// Takes a text behind its length off the front.
pub open spec fn take_counted(s: Seq<char>) -> Option<(Seq<char>, Seq<char>)> {
    let c = colon_at(s);
    if c >= s.len() {
        None
    } else {
        match parse_unsigned_spec(s.take(c), u64::MAX as nat) {
            Ok(n) => if c + 1 + n <= s.len() {
                Some((s.subrange(c + 1, c + 1 + n), s.skip(c + 1 + n)))
            } else {
                None
            },
            Err(_) => None,
        }
    }
}

/// The edge that a text stands for.
pub open spec fn parse_edge(s: Seq<char>) -> Option<(Seq<char>, Option<MetaView>)> {
    if s.len() > 0 && s[0] == '0' {
        Some((s.drop_first(), None))
    } else if edge_mark().is_prefix_of(s) {
        match take_counted(s.skip(3)) {
            None => None,
            Some((owner, rest)) => match take_counted(rest) {
                None => None,
                Some((path, reason)) => Some((owner, Some(MetaView { path, reason }))),
            },
        }
    } else {
        None
    }
}

proof fn lemma_colon_at(s: Seq<char>, n: int)
    requires
        0 <= n <= s.len(),
        forall|i: int| 0 <= i < n ==> #[trigger] s[i] != ':',
        n < s.len() ==> s[n] == ':',
    ensures
        colon_at(s) == n,
    decreases s.len(),
{
    if s.len() > 0 && s[0] != ':' {
        let t = s.drop_first();
        assert forall|i: int| 0 <= i < n - 1 implies #[trigger] t[i] != ':' by {
            assert(t[i] == s[i + 1]);
        }
        lemma_colon_at(t, n - 1);
    }
}

proof fn lemma_counted(s: Seq<char>, rest: Seq<char>)
    requires
        s.len() <= u64::MAX,
    ensures
        take_counted(counted(s) + rest) == Some((s, rest)),
{
    let d = decimal(s.len());
    let all = counted(s) + rest;
    lemma_decimal_reads_back(s.len());
    lemma_parse_decimal(s.len(), u64::MAX as nat);
    let c = d.len() as int;
    assert forall|i: int| 0 <= i < c implies #[trigger] all[i] != ':' by {
        assert(all[i] == d[i]);
        assert(is_digit(d[i]));
    }
    assert(all[c] == ':');
    lemma_colon_at(all, c);
    assert(all.take(c) =~= d);
    assert(all.subrange(c + 1, c + 1 + s.len()) =~= s);
    assert(all.skip(c + 1 + s.len()) =~= rest);
}

/// An edge is read back as it was written.
pub proof fn law_edge_reads_back(owner: Seq<char>, meta: Option<MetaView>)
    requires
        owner.len() <= u64::MAX,
        meta matches Some(m) ==> m.path.len() <= u64::MAX,
    ensures
        parse_edge(edge_text(owner, meta)) == Some((owner, meta)),
{
    let s = edge_text(owner, meta);
    match meta {
        None => {
            assert(s.drop_first() =~= owner);
        },
        Some(m) => {
            let rest = counted(m.path) + m.reason;
            assert(s.take(3) =~= edge_mark());
            assert(s.skip(3) =~= counted(owner) + rest);
            lemma_counted(owner, rest);
            lemma_counted(m.path, m.reason);
        },
    }
}

fn push_counted(out: &mut String, s: &str)
    ensures
        final(out)@ == old(out)@ + counted(s@),
{
    let chars = to_chars(s);
    push_decimal(out, chars.len() as u64);
    out.push(':');
    out.append(s);
    assert(out@ =~= old(out)@ + counted(s@));
}

/// A wait-for edge as text.
pub fn encode_edge(owner: &str, metadata: &Option<WaitEdgeMetadata>) -> (r: String)
    ensures
        r@ == edge_text(owner@, opt_meta(*metadata)),
{
    match metadata {
        None => {
            let mut out = String::new();
            out.push('0');
            out.append(owner);
            assert(out@ =~= edge_text(owner@, None));
            out
        },
        Some(m) => {
            let mut out = String::new();
            out.push('v');
            out.push('1');
            out.push(':');
            push_counted(&mut out, owner);
            push_counted(&mut out, m.conflict_path.as_str());
            out.append(m.reason.as_str());
            assert(out@ =~= edge_text(owner@, Some(m@)));
            out
        },
    }
}

fn read_counted(chars: &Vec<char>, from: usize) -> (r: Option<(usize, usize)>)
    requires
        from <= chars@.len(),
    ensures
        match r {
            Some((a, b)) => from <= a <= b <= chars@.len() && take_counted(
                chars@.skip(from as int),
            ) == Some((chars@.subrange(a as int, b as int), chars@.skip(b as int))),
            None => take_counted(chars@.skip(from as int)) is None,
        },
{
    let ghost s = chars@.skip(from as int);
    let mut c: usize = from;
    while c < chars.len() && chars[c] != ':'
        invariant
            from <= c <= chars@.len(),
            s == chars@.skip(from as int),
            forall|i: int| 0 <= i < c - from ==> #[trigger] s[i] != ':',
        decreases chars@.len() - c,
    {
        assert(s[c - from] == chars@[c as int]);
        c = c + 1;
    }
    proof {
        if c < chars@.len() {
            assert(s[c - from] == chars@[c as int]);
        }
        lemma_colon_at(s, c - from);
    }
    if c == chars.len() {
        return None;
    }
    let numeral = from_chars(chars.as_slice(), from, c);
    assert(numeral@ =~= s.take(c - from));
    match parse_unsigned(numeral.as_str(), u64::MAX) {
        Err(_) => None,
        Ok(n) => {
            let room: u64 = (chars.len() - c - 1) as u64;
            if n > room {
                None
            } else {
                let a: usize = c + 1;
                let b: usize = a + n as usize;
                assert(s.subrange(c - from + 1, c - from + 1 + n) =~= chars@.subrange(
                    a as int,
                    b as int,
                ));
                assert(s.skip(c - from + 1 + n) =~= chars@.skip(b as int));
                Some((a, b))
            }
        },
    }
}

/// The edge that a text stands for.
pub fn decode_edge(s: &str) -> (r: Option<(String, Option<WaitEdgeMetadata>)>)
    ensures
        match r {
            Some((owner, meta)) => parse_edge(s@) == Some((owner@, opt_meta(meta))),
            None => parse_edge(s@) is None,
        },
{
    let chars = to_chars(s);
    if chars.len() > 0 && chars[0] == '0' {
        let owner = from_chars(chars.as_slice(), 1, chars.len());
        assert(owner@ =~= s@.drop_first());
        return Some((owner, None));
    }
    if chars.len() < 3 || chars[0] != 'v' || chars[1] != '1' || chars[2] != ':' {
        return None;
    }
    assert(s@.take(3) =~= edge_mark());
    match read_counted(&chars, 3) {
        None => None,
        Some((a, b)) => {
            let owner = from_chars(chars.as_slice(), a, b);
            match read_counted(&chars, b) {
                None => None,
                Some((p, q)) => {
                    let conflict_path = from_chars(chars.as_slice(), p, q);
                    let reason = from_chars(chars.as_slice(), q, chars.len());
                    assert(reason@ =~= chars@.skip(q as int));
                    Some((owner, Some(WaitEdgeMetadata { conflict_path, reason })))
                },
            }
        },
    }
}

} // verus!
