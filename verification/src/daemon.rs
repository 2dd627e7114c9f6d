//! The daemon around the service: the addresses that it probes and forwards to, and
//! the passes that it makes in the background.

use vstd::prelude::*;
use crate::order::{lemma_lex_total, lemma_lex_transitive, lex_less, lex_lt};
use crate::text::{decimal, lemma_utf8_injective, push_decimal, str_eq, texts, utf8};

verus! {

// ---------------------------------------------------------------------------
// Addresses
// ---------------------------------------------------------------------------

/// An IP address. That of version 6 is given as it is written.
#[derive(Debug, Clone)]
pub enum HostIp {
    V4 { a: u8, b: u8, c: u8, d: u8 },
    V6 { text: String, unspecified: bool },
}

/// An IP address.
pub enum IpView {
    V4 { a: u8, b: u8, c: u8, d: u8 },
    V6 { text: Seq<char> },
}

/// An address to connect to.
#[derive(Debug, Clone)]
pub struct HostAddr {
    pub ip: HostIp,
    pub port: u16,
}

impl HostIp {
    pub open spec fn view(&self) -> IpView {
        match self {
            HostIp::V4 { a, b, c, d } => IpView::V4 { a: *a, b: *b, c: *c, d: *d },
            HostIp::V6 { text, .. } => IpView::V6 { text: text@ },
        }
    }

    /// Whether the address stands for all addresses of the machine.
    pub open spec fn is_any(&self) -> bool {
        match self {
            HostIp::V4 { a, b, c, d } => *a == 0 && *b == 0 && *c == 0 && *d == 0,
            HostIp::V6 { unspecified, .. } => *unspecified,
        }
    }

    /// Whether two addresses are the same.
    pub fn same(&self, other: &HostIp) -> (r: bool)
        ensures
            r == (self@ == other@),
    {
        match (self, other) {
            (HostIp::V4 { a, b, c, d }, HostIp::V4 { a: e, b: f, c: g, d: h }) => *a == *e && *b
                == *f && *c == *g && *d == *h,
            (HostIp::V6 { text, .. }, HostIp::V6 { text: other, .. }) => str_eq(
                text.as_str(),
                other.as_str(),
            ),
            _ => false,
        }
    }
}

/// The URL of an address; an address of version 6 stands in brackets.
pub open spec fn url(ip: IpView, port: u16) -> Seq<char> {
    match ip {
        IpView::V4 { a, b, c, d } => "http://"@ + decimal(a as nat) + "."@ + decimal(b as nat)
            + "."@ + decimal(c as nat) + "."@ + decimal(d as nat) + ":"@ + decimal(port as nat),
        IpView::V6 { text } => "http://["@ + text + "]:"@ + decimal(port as nat),
    }
}

/// The URL of a peer.
pub fn peer_url(addr: &HostAddr) -> (r: String)
    ensures
        r@ == url(addr.ip@, addr.port),
{
    match &addr.ip {
        HostIp::V4 { a, b, c, d } => {
            let mut out = "http://".to_owned();
            push_decimal(&mut out, *a as u64);
            out.append(".");
            push_decimal(&mut out, *b as u64);
            out.append(".");
            push_decimal(&mut out, *c as u64);
            out.append(".");
            push_decimal(&mut out, *d as u64);
            out.append(":");
            push_decimal(&mut out, addr.port as u64);
            out
        },
        HostIp::V6 { text, .. } => {
            let mut out = "http://[".to_owned();
            out.append(text.as_str());
            out.append("]:");
            push_decimal(&mut out, addr.port as u64);
            out
        },
    }
}

/// Where an instance that listens at an address can be reached on its own machine:
/// the loopback address in place of one that stands for all.
pub open spec fn loopback(ip: HostIp) -> IpView {
    if ip.is_any() {
        match ip {
            HostIp::V4 { .. } => IpView::V4 { a: 127, b: 0, c: 0, d: 1 },
            HostIp::V6 { .. } => IpView::V6 { text: "::1"@ },
        }
    } else {
        ip@
    }
}

/// The URL at which an instance that listens at `listen` is probed.
pub fn health_probe_url(listen: &HostAddr) -> (r: String)
    ensures
        r@ == url(loopback(listen.ip), listen.port),
{
    let port: u16 = listen.port;
    match &listen.ip {
        HostIp::V4 { a, b, c, d } => {
            if *a == 0 && *b == 0 && *c == 0 && *d == 0 {
                return peer_url(&HostAddr { ip: HostIp::V4 { a: 127, b: 0, c: 0, d: 1 }, port });
            }
        },
        HostIp::V6 { unspecified, .. } => {
            if *unspecified {
                let ip = HostIp::V6 { text: "::1".to_owned(), unspecified: false };
                return peer_url(&HostAddr { ip, port });
            }
        },
    }
    peer_url(listen)
}

// ---------------------------------------------------------------------------
// Peers
// ---------------------------------------------------------------------------

/// Each text sorts before the later ones, by its bytes.
pub open spec fn sorted_texts(v: Seq<Seq<char>>) -> bool {
    forall|i: int, j: int|
        0 <= i < j < v.len() ==> lex_lt(utf8(#[trigger] v[i]), utf8(#[trigger] v[j]))
}

/// Whether a URL is that of an address other than this instance's own.
pub open spec fn is_peer(addrs: Seq<HostAddr>, own: Option<IpView>, u: Seq<char>) -> bool {
    exists|i: int|
        0 <= i < addrs.len() && own != Some((#[trigger] addrs[i]).ip@) && u == url(
            addrs[i].ip@,
            addrs[i].port,
        )
}

/// The view of an optional address.
pub open spec fn opt_ip(ip: Option<HostIp>) -> Option<IpView> {
    match ip {
        Some(ip) => Some(ip@),
        None => None,
    }
}

fn insert_text(v: &mut Vec<String>, u: String)
    requires
        sorted_texts(texts(old(v)@)),
    ensures
        sorted_texts(texts(final(v)@)),
        forall|t: Seq<char>| #[trigger]
            texts(final(v)@).contains(t) <==> texts(old(v)@).contains(t) || t == u@,
{
    let ghost before = texts(v@);
    let mut i: usize = 0;
    while i < v.len() && lex_less(v[i].as_str().as_bytes(), u.as_str().as_bytes())
        invariant
            before == texts(v@),
            i <= v@.len(),
            forall|k: int| 0 <= k < i ==> lex_lt(utf8(#[trigger] before[k]), utf8(u@)),
        decreases v@.len() - i,
    {
        assert(before[i as int] == v@[i as int]@);
        i = i + 1;
    }
    if i < v.len() && str_eq(v[i].as_str(), u.as_str()) {
        assert(before[i as int] == u@);
        return;
    }
    v.insert(i, u);
    let ghost after = texts(v@);
    assert(after =~= before.insert(i as int, u@));
    proof {
        assert(after[i as int] == u@);
        if i < before.len() {
            lemma_lex_total(utf8(u@), utf8(before[i as int]));
            if utf8(u@) == utf8(before[i as int]) {
                lemma_utf8_injective(u@, before[i as int]);
            }
            assert(lex_lt(utf8(u@), utf8(before[i as int])));
        }
        assert forall|a: int, b: int| 0 <= a < b < after.len() implies lex_lt(
            utf8(#[trigger] after[a]),
            utf8(#[trigger] after[b]),
        ) by {
            if a == i {
                assert(after[b] == before[b - 1]);
                if b - 1 > i {
                    lemma_lex_transitive(
                        utf8(u@),
                        utf8(before[i as int]),
                        utf8(before[b - 1]),
                    );
                }
            } else if b == i {
                assert(after[a] == before[a]);
            } else {
                let (x, y) = (if a < i { a } else { a - 1 }, if b < i { b } else { b - 1 });
                assert(after[a] == before[x] && after[b] == before[y]);
            }
        }
        assert forall|t: Seq<char>| #[trigger] after.contains(t) <==> before.contains(t) || t
            == u@ by {
            if after.contains(t) {
                let k = after.index_of(t);
                if k != i {
                    assert(before[if k < i { k } else { k - 1 }] == t);
                }
            }
            if before.contains(t) {
                let k = before.index_of(t);
                assert(after[if k < i { k } else { k + 1 }] == t);
            }
        }
    }
}

/// The URLs of the addresses that were found, in order, none of them twice, without
/// this instance's own.
pub fn resolve_peers(addrs: &Vec<HostAddr>, self_ip: &Option<HostIp>) -> (r: Vec<String>)
    ensures
        sorted_texts(texts(r@)),
        forall|u: Seq<char>| #[trigger]
            texts(r@).contains(u) <==> is_peer(addrs@, opt_ip(*self_ip), u),
{
    let ghost own = opt_ip(*self_ip);
    let mut out: Vec<String> = Vec::new();
    let mut i: usize = 0;
    while i < addrs.len()
        invariant
            i <= addrs@.len(),
            own == opt_ip(*self_ip),
            sorted_texts(texts(out@)),
            forall|u: Seq<char>| #[trigger]
                texts(out@).contains(u) <==> is_peer(addrs@.take(i as int), own, u),
        decreases addrs@.len() - i,
    {
        let ghost (few, more) = (addrs@.take(i as int), addrs@.take(i + 1));
        let ghost known = texts(out@);
        let addr = &addrs[i];
        let is_own = match self_ip {
            Some(ip) => ip.same(&addr.ip),
            None => false,
        };
        if !is_own {
            insert_text(&mut out, peer_url(addr));
        }
        assert forall|u: Seq<char>| #[trigger] texts(out@).contains(u) <==> is_peer(
            more,
            own,
            u,
        ) by {
            assert(more[i as int] == *addr);
            assert(known.contains(u) <==> is_peer(few, own, u));
            if is_peer(few, own, u) {
                let k = choose|k: int|
                    0 <= k < few.len() && own != Some((#[trigger] few[k]).ip@) && u == url(
                        few[k].ip@,
                        few[k].port,
                    );
                assert(more[k] == few[k]);
            }
            if is_peer(more, own, u) {
                let k = choose|k: int|
                    0 <= k < more.len() && own != Some((#[trigger] more[k]).ip@) && u == url(
                        more[k].ip@,
                        more[k].port,
                    );
                if k < i {
                    assert(few[k] == more[k]);
                }
            }
        }
        i = i + 1;
    }
    assert(addrs@.take(addrs@.len() as int) =~= addrs@);
    out
}

// ---------------------------------------------------------------------------
// Background passes
// ---------------------------------------------------------------------------

/// The time after which a pass of sweeps ends.
pub const GC_PASS_BUDGET_MS: u64 = 250;

/// A pass of sweeps over the expiry index, and what it has done so far.
#[derive(Debug, Clone, Copy, PartialEq, Eq, Structural)]
pub struct GcPass {
    /// The entries that each sweep may process.
    pub batch: u32,
    pub scanned: u64,
    pub reclaimed: u64,
}

/// What a pass does next.
#[derive(Debug, Clone, Copy, PartialEq, Eq, Structural)]
pub enum GcNext {
    /// It sweeps again.
    Sweep,
    /// It ends: nothing is left that is due, or its time is up.
    Finished,
    /// It ends: a sweep failed.
    Failed,
}

impl GcPass {
    /// A pass at its start.
    pub fn new(batch: u32) -> (r: GcPass)
        ensures
            r == (GcPass { batch, scanned: 0, reclaimed: 0 }),
    {
        GcPass { batch, scanned: 0, reclaimed: 0 }
    }

    /// What the pass does after a sweep: `Some` entries processed and records
    /// reclaimed, or `None` for one that failed.
    pub fn after_sweep(&mut self, sweep: Option<(u32, u64)>, elapsed_ms: u64) -> (r: GcNext)
        requires
            sweep matches Some((scanned, reclaimed)) ==> old(self).scanned + scanned <= u64::MAX
                && old(self).reclaimed + reclaimed <= u64::MAX,
        ensures
            final(self).batch == old(self).batch,
            match sweep {
                None => r == GcNext::Failed && *final(self) == *old(self),
                Some((scanned, reclaimed)) => {
                    &&& final(self).scanned == old(self).scanned + scanned
                    &&& final(self).reclaimed == old(self).reclaimed + reclaimed
                    &&& r == (if scanned < old(self).batch || elapsed_ms >= GC_PASS_BUDGET_MS {
                        GcNext::Finished
                    } else {
                        GcNext::Sweep
                    })
                },
            },
    {
        match sweep {
            None => GcNext::Failed,
            Some((scanned, reclaimed)) => {
                self.scanned = self.scanned + scanned as u64;
                self.reclaimed = self.reclaimed + reclaimed;
                if scanned < self.batch || elapsed_ms >= GC_PASS_BUDGET_MS {
                    GcNext::Finished
                } else {
                    GcNext::Sweep
                }
            },
        }
    }
}

/// The message of a panic, whose payload is a literal, a text, or neither.
pub fn panic_message(literal: Option<&str>, text: Option<&String>) -> (r: String)
    ensures
        r@ == (match (literal, text) {
            (Some(s), _) => s@,
            (None, Some(s)) => s@,
            (None, None) => "non-string panic payload"@,
        }),
{
    match literal {
        Some(s) => s.to_owned(),
        None => match text {
            Some(s) => s.clone(),
            None => "non-string panic payload".to_owned(),
        },
    }
}

} // verus!
