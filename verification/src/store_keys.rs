//! Column families, record expiry, and the layout of the keys that the store
//! derives: set members and the expiry index.

use vstd::prelude::*;
use crate::text::{
    bytes_eq, find_char, from_chars, lemma_find_char, lemma_utf8_injective, to_chars, utf8,
};

verus! {

/// A column family of the store.
#[derive(Debug, Clone, Copy, PartialEq, Eq, Structural)]
pub enum Cf {
    Meta,
    RaftLog,
    WriteLocks,
    ReadLocks,
    Fences,
    Claims,
    DescWrite,
    DescRead,
    DescClaim,
    OwnerAlive,
    OwnerHolds,
    WaitEdges,
    Expiry,
    Default,
}

/// Global metadata, among it the fencing counter.
pub const CF_META: Cf = Cf::Meta;

/// Raft log entries.
pub const CF_RAFT_LOG: Cf = Cf::RaftLog;

/// Write locks: path to owner.
pub const CF_WRITE_LOCKS: Cf = Cf::WriteLocks;

/// Read locks: per path, the set of owners.
pub const CF_READ_LOCKS: Cf = Cf::ReadLocks;

/// Fencing tokens: path to token.
pub const CF_FENCES: Cf = Cf::Fences;

/// Preemption claims: path to claimant.
pub const CF_CLAIMS: Cf = Cf::Claims;

/// Per ancestor, the set of write-locked paths below it.
pub const CF_DESC_WRITE: Cf = Cf::DescWrite;

/// Per ancestor, the set of read locks below it.
pub const CF_DESC_READ: Cf = Cf::DescRead;

/// Per ancestor, the set of claimed paths below it.
pub const CF_DESC_CLAIM: Cf = Cf::DescClaim;

/// Liveness markers: owner to a fixed value.
pub const CF_OWNER_ALIVE: Cf = Cf::OwnerAlive;

/// Per owner, the set of locks that it holds.
pub const CF_OWNER_HOLDS: Cf = Cf::OwnerHolds;

/// Wait-for edges: owner to the edge.
pub const CF_WAIT_EDGES: Cf = Cf::WaitEdges;

/// The index of records by expiry.
pub const CF_EXPIRY: Cf = Cf::Expiry;

/// The family that the store opens by itself.
pub const CF_DEFAULT: Cf = Cf::Default;

/// The most rows of one set that a transaction enumerates.
pub const MAX_SET_ENUM_MEMBERS: usize = 65_536;

/// The name under which a column family is opened.
pub open spec fn cf_name(cf: Cf) -> Seq<char> {
    match cf {
        Cf::Meta => "meta"@,
        Cf::RaftLog => "raft_log"@,
        Cf::WriteLocks => "write_locks"@,
        Cf::ReadLocks => "read_locks"@,
        Cf::Fences => "fences"@,
        Cf::Claims => "claims"@,
        Cf::DescWrite => "desc_write"@,
        Cf::DescRead => "desc_read"@,
        Cf::DescClaim => "desc_claim"@,
        Cf::OwnerAlive => "owner_alive"@,
        Cf::OwnerHolds => "owner_holds"@,
        Cf::WaitEdges => "wait_edges"@,
        Cf::Expiry => "expiry"@,
        Cf::Default => "default"@,
    }
}

/// The position of a column family in the store's order.
pub open spec fn cf_index(cf: Cf) -> int {
    match cf {
        Cf::Meta => 0,
        Cf::RaftLog => 1,
        Cf::WriteLocks => 2,
        Cf::ReadLocks => 3,
        Cf::Fences => 4,
        Cf::Claims => 5,
        Cf::DescWrite => 6,
        Cf::DescRead => 7,
        Cf::DescClaim => 8,
        Cf::OwnerAlive => 9,
        Cf::OwnerHolds => 10,
        Cf::WaitEdges => 11,
        Cf::Expiry => 12,
        Cf::Default => 13,
    }
}

impl Cf {
    /// The name under which the column family is opened.
    pub fn name(self) -> (r: &'static str)
        ensures
            r@ == cf_name(self),
    {
        match self {
            Cf::Meta => "meta",
            Cf::RaftLog => "raft_log",
            Cf::WriteLocks => "write_locks",
            Cf::ReadLocks => "read_locks",
            Cf::Fences => "fences",
            Cf::Claims => "claims",
            Cf::DescWrite => "desc_write",
            Cf::DescRead => "desc_read",
            Cf::DescClaim => "desc_claim",
            Cf::OwnerAlive => "owner_alive",
            Cf::OwnerHolds => "owner_holds",
            Cf::WaitEdges => "wait_edges",
            Cf::Expiry => "expiry",
            Cf::Default => "default",
        }
    }

    /// The position of the column family in the store's order.
    pub fn index(self) -> (r: u8)
        ensures
            r == cf_index(self),
    {
        match self {
            Cf::Meta => 0,
            Cf::RaftLog => 1,
            Cf::WriteLocks => 2,
            Cf::ReadLocks => 3,
            Cf::Fences => 4,
            Cf::Claims => 5,
            Cf::DescWrite => 6,
            Cf::DescRead => 7,
            Cf::DescClaim => 8,
            Cf::OwnerAlive => 9,
            Cf::OwnerHolds => 10,
            Cf::WaitEdges => 11,
            Cf::Expiry => 12,
            Cf::Default => 13,
        }
    }

    /// The column family with the given name, if there is one.
    pub fn from_name(name: &[u8]) -> (r: Option<Cf>)
        ensures
            r matches Some(cf) ==> utf8(cf_name(cf)) == name@,
            r is None ==> forall|cf: Cf| utf8(#[trigger] cf_name(cf)) != name@,
    {
        let all = all_cfs();
        let mut i: usize = 0;
        while i < all.len()
            invariant
                all@ == all_cfs_spec(),
                i <= all@.len(),
                forall|j: int| 0 <= j < i ==> utf8(cf_name(#[trigger] all@[j])) != name@,
            decreases all@.len() - i,
        {
            if bytes_eq(all[i].name().as_bytes(), name) {
                return Some(all[i]);
            }
            i = i + 1;
        }
        assert forall|cf: Cf| utf8(#[trigger] cf_name(cf)) != name@ by {
            assert(all@[cf_index(cf)] == cf);
        }
        None
    }
}

/// All column families, in the store's order.
pub open spec fn all_cfs_spec() -> Seq<Cf> {
    seq![
        Cf::Meta,
        Cf::RaftLog,
        Cf::WriteLocks,
        Cf::ReadLocks,
        Cf::Fences,
        Cf::Claims,
        Cf::DescWrite,
        Cf::DescRead,
        Cf::DescClaim,
        Cf::OwnerAlive,
        Cf::OwnerHolds,
        Cf::WaitEdges,
        Cf::Expiry,
        Cf::Default,
    ]
}

/// All column families, in the store's order.
pub fn all_cfs() -> (r: Vec<Cf>)
    ensures
        r@ == all_cfs_spec(),
{
    vec![
        Cf::Meta,
        Cf::RaftLog,
        Cf::WriteLocks,
        Cf::ReadLocks,
        Cf::Fences,
        Cf::Claims,
        Cf::DescWrite,
        Cf::DescRead,
        Cf::DescClaim,
        Cf::OwnerAlive,
        Cf::OwnerHolds,
        Cf::WaitEdges,
        Cf::Expiry,
        Cf::Default,
    ]
}

/// Names of column families are made of ASCII characters other than NUL.
pub proof fn lemma_cf_name_plain(cf: Cf)
    ensures
        nul_free(cf_name(cf)),
        utf8(cf_name(cf)).len() == cf_name(cf).len(),
{
    reveal_strlit("meta");
    reveal_strlit("raft_log");
    reveal_strlit("write_locks");
    reveal_strlit("read_locks");
    reveal_strlit("fences");
    reveal_strlit("claims");
    reveal_strlit("desc_write");
    reveal_strlit("desc_read");
    reveal_strlit("desc_claim");
    reveal_strlit("owner_alive");
    reveal_strlit("owner_holds");
    reveal_strlit("wait_edges");
    reveal_strlit("expiry");
    reveal_strlit("default");
    let name = cf_name(cf);
    assert(vstd::utf8::is_ascii_chars(name));
    vstd::utf8::is_ascii_chars_encode_utf8(name);
}

/// Column families have different names.
pub proof fn lemma_cf_names_differ(a: Cf, b: Cf)
    requires
        utf8(cf_name(a)) == utf8(cf_name(b)),
    ensures
        a == b,
{
    lemma_utf8_injective(cf_name(a), cf_name(b));
    reveal_strlit("meta");
    reveal_strlit("raft_log");
    reveal_strlit("write_locks");
    reveal_strlit("read_locks");
    reveal_strlit("fences");
    reveal_strlit("claims");
    reveal_strlit("desc_write");
    reveal_strlit("desc_read");
    reveal_strlit("desc_claim");
    reveal_strlit("owner_alive");
    reveal_strlit("owner_holds");
    reveal_strlit("wait_edges");
    reveal_strlit("expiry");
    reveal_strlit("default");
    let (x, y) = (cf_name(a), cf_name(b));
    assert(x[0] == y[0] && x[1] == y[1] && x[5] == y[5] && x[6] == y[6]);
}

// ---------------------------------------------------------------------------
// Expiry
// ---------------------------------------------------------------------------

/// Whether a record with expiry `exp` has expired at `now_ms`. An expiry of `0`
/// never comes.
pub open spec fn is_expired(exp: u64, now_ms: u64) -> bool {
    exp != 0 && exp <= now_ms
}

/// Whether a record with expiry `exp` has expired at `now_ms`.
pub fn expired(exp: u64, now_ms: u64) -> (r: bool)
    ensures
        r == is_expired(exp, now_ms),
{
    exp != 0 && exp <= now_ms
}

/// The expiry of a record written at `now_ms` with a lifetime of `ttl_ms`: never
/// for a lifetime of `0`, and at most the largest representable time.
pub open spec fn expiry_time(now_ms: u64, ttl_ms: u64) -> u64 {
    if ttl_ms == 0 {
        0
    } else if now_ms + ttl_ms > u64::MAX {
        u64::MAX
    } else {
        (now_ms + ttl_ms) as u64
    }
}

/// The expiry of a record written at `now_ms` with a lifetime of `ttl_ms`.
pub fn expiry_at(now_ms: u64, ttl_ms: u64) -> (r: u64)
    ensures
        r == expiry_time(now_ms, ttl_ms),
{
    if ttl_ms == 0 {
        0
    } else {
        now_ms.saturating_add(ttl_ms)
    }
}

/// From this lifetime on, records share slots of the expiry index.
pub const LONG_TTL_MS: u64 = 86_400_000;

/// The width of a shared slot of the expiry index.
pub const INDEX_SLOT_MS: u64 = 3_600_000;

/// The time under which the expiry index lists a record with the given expiry and
/// lifetime. Long lifetimes share one slot per hour, the first that begins no earlier
/// than the record expires, so that renewing a record over and over adds one entry per
/// hour.
pub open spec fn index_time(exp: u64, ttl_ms: u64) -> u64 {
    if ttl_ms < LONG_TTL_MS || exp % INDEX_SLOT_MS == 0 {
        exp
    } else {
        let next = exp - exp % INDEX_SLOT_MS + INDEX_SLOT_MS;
        if next > u64::MAX {
            u64::MAX
        } else {
            next as u64
        }
    }
}

/// The time under which the expiry index lists a record.
pub fn index_at(exp: u64, ttl_ms: u64) -> (r: u64)
    ensures
        r == index_time(exp, ttl_ms),
{
    if ttl_ms < LONG_TTL_MS || exp % INDEX_SLOT_MS == 0 {
        return exp;
    }
    let start: u64 = exp - exp % INDEX_SLOT_MS;
    match start.checked_add(INDEX_SLOT_MS) {
        Some(next) => next,
        None => u64::MAX,
    }
}

/// The index lists a record no earlier than it expires, and less than an hour later; one with
/// a lifetime of less than a day just when it expires.
pub proof fn law_index_follows_expiry(exp: u64, ttl_ms: u64)
    ensures
        exp <= index_time(exp, ttl_ms) < exp + INDEX_SLOT_MS,
        INDEX_SLOT_MS == 3600 * 1000,
        ttl_ms < 24 * 3600 * 1000 ==> index_time(exp, ttl_ms) == exp,
{
}

/// Two long-lived records that expire within the same slot are listed under the same
/// time.
pub proof fn law_slots_are_shared(a: u64, b: u64, ttl_a: u64, ttl_b: u64)
    requires
        ttl_a >= 24 * 3600 * 1000,
        ttl_b >= 24 * 3600 * 1000,
        a % INDEX_SLOT_MS != 0,
        b % INDEX_SLOT_MS != 0,
        a / INDEX_SLOT_MS == b / INDEX_SLOT_MS,
    ensures
        index_time(a, ttl_a) == index_time(b, ttl_b),
{
}

// ---------------------------------------------------------------------------
// Set members
// ---------------------------------------------------------------------------

/// A text without the character NUL.
pub open spec fn nul_free(s: Seq<char>) -> bool {
    forall|i: int| 0 <= i < s.len() ==> #[trigger] s[i] != '\0'
}

/// The keys of a set's members begin with this.
pub open spec fn member_prefix_spec(key: Seq<u8>) -> Seq<u8> {
    key.push(0)
}

/// The key under which a set keeps a member.
pub open spec fn member_key_spec(key: Seq<u8>, member: Seq<char>) -> Seq<u8> {
    key.push(0) + utf8(member)
}

/// The common beginning of the keys of the members of set `key`.
pub fn member_prefix(key: &[u8]) -> (r: Vec<u8>)
    ensures
        r@ == member_prefix_spec(key@),
{
    let mut buf = vstd::slice::slice_to_vec(key);
    buf.push(0);
    buf
}

/// The key under which set `key` keeps `member`.
pub fn member_key(key: &[u8], member: &str) -> (r: Vec<u8>)
    ensures
        r@ == member_key_spec(key@, member@),
{
    let mut buf = member_prefix(key);
    buf.extend_from_slice(member.as_bytes());
    assert(buf@ =~= member_key_spec(key@, member@));
    buf
}

// ---------------------------------------------------------------------------
// The expiry index
// ---------------------------------------------------------------------------

/// The eight bytes of a number, the most significant first.
pub open spec fn be64(x: u64) -> Seq<u8> {
    seq![
        (x / 0x100_0000_0000_0000) as u8,
        (x / 0x1_0000_0000_0000 % 256) as u8,
        (x / 0x100_0000_0000 % 256) as u8,
        (x / 0x1_0000_0000 % 256) as u8,
        (x / 0x100_0000 % 256) as u8,
        (x / 0x1_0000 % 256) as u8,
        (x / 0x100 % 256) as u8,
        (x % 256) as u8,
    ]
}

/// The number with the given eight bytes, the most significant first.
pub open spec fn be64_value(b: Seq<u8>) -> int {
    ((((((b[0] * 256 + b[1]) * 256 + b[2]) * 256 + b[3]) * 256 + b[4]) * 256 + b[5]) * 256 + b[6])
        * 256 + b[7]
}

/// A number is read back from its bytes.
pub proof fn lemma_be64_reads_back(x: u64)
    ensures
        be64_value(be64(x)) == x,
{
    lemma_byte_of(x, 1);
    lemma_byte_of(x, 0x100);
    lemma_byte_of(x, 0x1_0000);
    lemma_byte_of(x, 0x100_0000);
    lemma_byte_of(x, 0x1_0000_0000);
    lemma_byte_of(x, 0x100_0000_0000);
    lemma_byte_of(x, 0x1_0000_0000_0000);
}

proof fn lemma_byte_of(x: u64, unit: int)
    requires
        unit > 0,
    ensures
        x as int / unit == (x as int / (unit * 256)) * 256 + x as int / unit % 256,
{
    vstd::arithmetic::div_mod::lemma_div_denominator(x as int, unit, 256);
    vstd::arithmetic::div_mod::lemma_fundamental_div_mod(x as int / unit, 256);
}

proof fn lemma_digit_above(v: int, above: int, digit: int, unit: int)
    requires
        v >= 0,
        unit > 0,
        v / unit == above * 256 + digit,
        0 <= digit < 256,
    ensures
        v / unit % 256 == digit,
        v / (unit * 256) == above,
{
    vstd::arithmetic::div_mod::lemma_div_denominator(v, unit, 256);
}

/// Eight bytes are the bytes of their number.
pub proof fn lemma_be64_of_value(b: Seq<u8>)
    requires
        b.len() == 8,
    ensures
        0 <= be64_value(b) <= u64::MAX,
        be64(be64_value(b) as u64) == b,
{
    let h2 = b[0] * 256 + b[1];
    let h3 = h2 * 256 + b[2];
    let h4 = h3 * 256 + b[3];
    let h5 = h4 * 256 + b[4];
    let h6 = h5 * 256 + b[5];
    let h7 = h6 * 256 + b[6];
    let v = h7 * 256 + b[7];
    assert(v == be64_value(b));
    lemma_digit_above(v, h7, b[7] as int, 1);
    lemma_digit_above(v, h6, b[6] as int, 0x100);
    lemma_digit_above(v, h5, b[5] as int, 0x1_0000);
    lemma_digit_above(v, h4, b[4] as int, 0x100_0000);
    lemma_digit_above(v, h3, b[3] as int, 0x1_0000_0000);
    lemma_digit_above(v, h2, b[2] as int, 0x100_0000_0000);
    lemma_digit_above(v, b[0] as int, b[1] as int, 0x1_0000_0000_0000);
    assert(be64(v as u64) =~= b);
}

fn push_be64(out: &mut Vec<u8>, x: u64)
    ensures
        final(out)@ == old(out)@ + be64(x),
{
    out.push((x / 0x100_0000_0000_0000) as u8);
    out.push((x / 0x1_0000_0000_0000 % 256) as u8);
    out.push((x / 0x100_0000_0000 % 256) as u8);
    out.push((x / 0x1_0000_0000 % 256) as u8);
    out.push((x / 0x100_0000 % 256) as u8);
    out.push((x / 0x1_0000 % 256) as u8);
    out.push((x / 0x100 % 256) as u8);
    out.push((x % 256) as u8);
    assert(out@ =~= old(out)@ + be64(x));
}

/// The key of the expiry-index entry for the record at (`cf`, `key`) that
/// expires at `exp`.
pub open spec fn expiry_key_spec(exp: u64, cf: Cf, key: Seq<u8>) -> Seq<u8> {
    be64(exp) + seq![0u8] + utf8(cf_name(cf)) + seq![0u8] + key
}

/// The key of the expiry-index entry for the record at (`cf`, `key`) that
/// expires at `exp`.
pub fn expiry_key(exp: u64, cf: Cf, key: &[u8]) -> (r: Vec<u8>)
    ensures
        r@ == expiry_key_spec(exp, cf, key@),
{
    let mut buf: Vec<u8> = Vec::new();
    push_be64(&mut buf, exp);
    buf.push(0);
    buf.extend_from_slice(cf.name().as_bytes());
    buf.push(0);
    buf.extend_from_slice(key);
    assert(buf@ =~= expiry_key_spec(exp, cf, key@));
    buf
}

/// Every entry of the expiry index whose time has come by `now_ms` sorts before
/// this key, and no other does (at the largest representable time: every entry
/// before that time).
pub open spec fn expiry_scan_upper_spec(now_ms: u64) -> Seq<u8> {
    if now_ms == u64::MAX {
        be64(u64::MAX)
    } else {
        be64((now_ms + 1) as u64)
    }
}

/// The key before which the entries due by `now_ms` sort.
pub fn expiry_scan_upper(now_ms: u64) -> (r: Vec<u8>)
    ensures
        r@ == expiry_scan_upper_spec(now_ms),
{
    let mut buf: Vec<u8> = Vec::new();
    push_be64(&mut buf, now_ms.saturating_add(1));
    assert(buf@ =~= expiry_scan_upper_spec(now_ms));
    buf
}

/// Whether `k` is an expiry-index key for the record at (`cf`, `key`).
pub open spec fn is_expiry_key(k: Seq<u8>, exp: u64, cf: Cf, key: Seq<u8>) -> bool {
    k == expiry_key_spec(exp, cf, key)
}

/// What an expiry-index key points at: `None` unless it is laid out as
/// `expiry_key` lays it out, with the name of a column family.
pub open spec fn decode_expiry_spec(k: Seq<u8>) -> Option<(u64, Cf, Seq<u8>)> {
    if exists|exp: u64, cf: Cf, key: Seq<u8>| #[trigger] is_expiry_key(k, exp, cf, key) {
        let (exp, cf, key) = choose|exp: u64, cf: Cf, key: Seq<u8>| #[trigger]
            is_expiry_key(k, exp, cf, key);
        Some((exp, cf, key))
    } else {
        None
    }
}

proof fn lemma_scalar_bytes_nonzero(c: char)
    requires
        c != '\0',
    ensures
        forall|i: int|
            0 <= i < vstd::utf8::encode_scalar(c as u32).len()
                ==> #[trigger] vstd::utf8::encode_scalar(c as u32)[i] != 0,
{
    let u = c as u32;
    vstd::utf8::char_is_scalar(c);
    assert(u != 0 && u <= 0x7f ==> (u & 0x7F) as u8 != 0) by (bit_vector);
    assert(0xC0u8 | ((u >> 6) & 0x1F) as u8 != 0) by (bit_vector);
    assert(0xE0u8 | ((u >> 12) & 0x0F) as u8 != 0) by (bit_vector);
    assert(0xF0u8 | ((u >> 18) & 0x7) as u8 != 0) by (bit_vector);
    assert(0x80u8 | (u & 0x3F) as u8 != 0) by (bit_vector);
    assert(0x80u8 | ((u >> 6) & 0x3F) as u8 != 0) by (bit_vector);
    assert(0x80u8 | ((u >> 12) & 0x3F) as u8 != 0) by (bit_vector);
}

/// The bytes of a text without NUL hold no zero.
pub proof fn lemma_nul_free_bytes(s: Seq<char>)
    requires
        nul_free(s),
    ensures
        forall|i: int| 0 <= i < utf8(s).len() ==> #[trigger] utf8(s)[i] != 0,
    decreases s.len(),
{
    if s.len() > 0 {
        let rest = s.drop_first();
        assert forall|i: int| 0 <= i < rest.len() implies #[trigger] rest[i] != '\0' by {
            assert(rest[i] == s[i + 1]);
        }
        lemma_nul_free_bytes(rest);
        lemma_scalar_bytes_nonzero(s[0]);
        let head = vstd::utf8::encode_scalar(s[0] as u32);
        assert forall|i: int| 0 <= i < utf8(s).len() implies #[trigger] utf8(s)[i] != 0 by {
            assert(utf8(s) == head + utf8(rest));
            if i >= head.len() {
                assert(utf8(s)[i] == utf8(rest)[i - head.len()]);
            } else {
                assert(utf8(s)[i] == head[i]);
            }
        }
    }
}

/// A byte string splits at its first zero in one way only.
pub proof fn lemma_first_zero_splits(a: Seq<u8>, x: Seq<u8>, b: Seq<u8>, y: Seq<u8>)
    requires
        a.push(0) + x == b.push(0) + y,
        forall|i: int| 0 <= i < a.len() ==> #[trigger] a[i] != 0,
        forall|i: int| 0 <= i < b.len() ==> #[trigger] b[i] != 0,
    ensures
        a == b,
        x == y,
{
    let l = a.push(0) + x;
    let r = b.push(0) + y;
    if a.len() < b.len() {
        assert(l[a.len() as int] == 0);
        assert(r[a.len() as int] == b[a.len() as int]);
    } else if b.len() < a.len() {
        assert(r[b.len() as int] == 0);
        assert(l[b.len() as int] == a[b.len() as int]);
    }
    assert forall|i: int| 0 <= i < a.len() implies a[i] == b[i] by {
        assert(l[i] == a[i] && r[i] == b[i]);
    }
    assert(a =~= b);
    assert(l.len() == a.len() + 1 + x.len());
    assert(r.len() == b.len() + 1 + y.len());
    assert forall|i: int| 0 <= i < x.len() implies x[i] == y[i] by {
        assert(l[a.len() + 1 + i] == x[i]);
        assert(r[a.len() + 1 + i] == y[i]);
    }
    assert(x =~= y);
}

proof fn lemma_expiry_key_parts(exp: u64, cf: Cf, key: Seq<u8>)
    ensures
        expiry_key_spec(exp, cf, key).len() > 9,
        expiry_key_spec(exp, cf, key).take(8) == be64(exp),
        expiry_key_spec(exp, cf, key)[8] == 0,
        expiry_key_spec(exp, cf, key).skip(9) == utf8(cf_name(cf)).push(0) + key,
        forall|i: int|
            0 <= i < utf8(cf_name(cf)).len() ==> #[trigger] utf8(cf_name(cf))[i] != 0,
{
    let k = expiry_key_spec(exp, cf, key);
    lemma_cf_name_plain(cf);
    lemma_nul_free_bytes(cf_name(cf));
    assert(k.take(8) =~= be64(exp));
    assert(k.skip(9) =~= utf8(cf_name(cf)).push(0) + key);
}

/// An expiry-index key points at one record, with one expiry.
pub proof fn lemma_expiry_key_unique(
    k: Seq<u8>,
    exp1: u64,
    cf1: Cf,
    key1: Seq<u8>,
    exp2: u64,
    cf2: Cf,
    key2: Seq<u8>,
)
    requires
        is_expiry_key(k, exp1, cf1, key1),
        is_expiry_key(k, exp2, cf2, key2),
    ensures
        exp1 == exp2,
        cf1 == cf2,
        key1 == key2,
{
    lemma_expiry_key_parts(exp1, cf1, key1);
    lemma_expiry_key_parts(exp2, cf2, key2);
    lemma_be64_reads_back(exp1);
    lemma_be64_reads_back(exp2);
    lemma_first_zero_splits(utf8(cf_name(cf1)), key1, utf8(cf_name(cf2)), key2);
    lemma_cf_names_differ(cf1, cf2);
}

/// What is written into the expiry index is read back from it: the key of a
/// record's entry decodes to that record and its expiry.
pub proof fn lemma_expiry_key_decodes(exp: u64, cf: Cf, key: Seq<u8>)
    ensures
        decode_expiry_spec(expiry_key_spec(exp, cf, key)) == Some((exp, cf, key)),
{
    let k = expiry_key_spec(exp, cf, key);
    assert(is_expiry_key(k, exp, cf, key));
    let (e, c, p) = choose|exp: u64, cf: Cf, key: Seq<u8>| #[trigger]
        is_expiry_key(k, exp, cf, key);
    lemma_expiry_key_unique(k, e, c, p, exp, cf, key);
}

fn be64_read(k: &[u8]) -> (r: u64)
    requires
        k@.len() >= 8,
    ensures
        r == be64_value(k@.take(8)),
{
    let h2: u64 = k[0] as u64 * 256 + k[1] as u64;
    let h3: u64 = h2 * 256 + k[2] as u64;
    let h4: u64 = h3 * 256 + k[3] as u64;
    let h5: u64 = h4 * 256 + k[4] as u64;
    let h6: u64 = h5 * 256 + k[5] as u64;
    let h7: u64 = h6 * 256 + k[6] as u64;
    h7 * 256 + k[7] as u64
}

proof fn lemma_decode_malformed(k: Seq<u8>)
    requires
        k.len() < 9 || k[8] != 0 || (forall|i: int| 9 <= i < k.len() ==> #[trigger] k[i] != 0),
    ensures
        decode_expiry_spec(k) is None,
{
    if decode_expiry_spec(k) is Some {
        let (e, c, p) = choose|exp: u64, cf: Cf, key: Seq<u8>| #[trigger]
            is_expiry_key(k, exp, cf, key);
        lemma_expiry_key_parts(e, c, p);
        let n = utf8(cf_name(c)).len() as int;
        let tail = utf8(cf_name(c)).push(0) + p;
        assert(tail[n] == 0);
        assert(k.skip(9)[n] == k[9 + n]);
    }
}

proof fn lemma_decode_unknown(k: Seq<u8>, name: Seq<u8>, key: Seq<u8>)
    requires
        k.len() >= 9,
        k.skip(9) == name.push(0) + key,
        forall|i: int| 0 <= i < name.len() ==> #[trigger] name[i] != 0,
        forall|cf: Cf| utf8(#[trigger] cf_name(cf)) != name,
    ensures
        decode_expiry_spec(k) is None,
{
    if decode_expiry_spec(k) is Some {
        let (e, c, p) = choose|exp: u64, cf: Cf, key: Seq<u8>| #[trigger]
            is_expiry_key(k, exp, cf, key);
        lemma_expiry_key_parts(e, c, p);
        lemma_first_zero_splits(name, key, utf8(cf_name(c)), p);
    }
}

proof fn lemma_decode_known(k: Seq<u8>, cf: Cf, key: Seq<u8>)
    requires
        k.len() >= 9,
        k[8] == 0,
        k.skip(9) == utf8(cf_name(cf)).push(0) + key,
    ensures
        0 <= be64_value(k.take(8)) <= u64::MAX,
        decode_expiry_spec(k) == Some((be64_value(k.take(8)) as u64, cf, key)),
{
    let b = k.take(8);
    lemma_be64_of_value(b);
    let exp = be64_value(b) as u64;
    assert(k =~= b + seq![0u8] + k.skip(9));
    assert(k =~= expiry_key_spec(exp, cf, key));
    lemma_expiry_key_decodes(exp, cf, key);
}

/// What an expiry-index key points at: the expiry, the column family and the key
/// of the record.
pub fn decode_expiry_entry(k: &[u8]) -> (r: Option<(u64, Cf, Vec<u8>)>)
    ensures
        match r {
            Some((exp, cf, key)) => decode_expiry_spec(k@) == Some((exp, cf, key@)),
            None => decode_expiry_spec(k@) is None,
        },
{
    if k.len() < 9 || k[8] != 0 {
        proof {
            lemma_decode_malformed(k@);
        }
        return None;
    }
    let mut j: usize = 9;
    while j < k.len() && k[j] != 0
        invariant
            9 <= j <= k@.len(),
            forall|i: int| 9 <= i < j ==> #[trigger] k@[i] != 0,
        decreases k@.len() - j,
    {
        j = j + 1;
    }
    if j == k.len() {
        proof {
            lemma_decode_malformed(k@);
        }
        return None;
    }
    let name = vstd::slice::slice_subrange(k, 9, j);
    let key = vstd::slice::slice_subrange(k, j + 1, k.len());
    assert(k@.skip(9) =~= name@.push(0) + key@);
    assert forall|i: int| 0 <= i < name@.len() implies #[trigger] name@[i] != 0 by {
        assert(name@[i] == k@[9 + i]);
    }
    match Cf::from_name(name) {
        None => {
            proof {
                lemma_decode_unknown(k@, name@, key@);
            }
            None
        },
        Some(cf) => {
            proof {
                lemma_decode_known(k@, cf, key@);
            }
            Some((be64_read(k), cf, vstd::slice::slice_to_vec(key)))
        },
    }
}

// ---------------------------------------------------------------------------
// Lock domains
// ---------------------------------------------------------------------------

/// The lock domain of a path: what stands before the first colon, or the whole path
/// where there is none.
pub open spec fn lock_domain_spec(path: Seq<char>) -> Seq<char> {
    path.take(find_char(path, ':'))
}

/// A path with a colon belongs to the domain that stands before it, whatever follows, and a
/// text without a colon is a domain itself.
pub proof fn law_domain_comes_first(domain: Seq<char>, rest: Seq<char>)
    requires
        !domain.contains(':'),
    ensures
        lock_domain_spec(domain) == domain,
        lock_domain_spec(domain + seq![':'] + rest) == domain,
{
    let path = domain + seq![':'] + rest;
    let n = domain.len() as int;
    assert forall|i: int| 0 <= i < n implies #[trigger] path[i] != ':' && domain[i] != ':' by {
        assert(domain.contains(domain[i]));
    }
    assert(path[n] == ':');
    lemma_find_char(domain, ':', n);
    lemma_find_char(path, ':', n);
    assert(path.take(n) =~= domain);
    assert(domain.take(n) =~= domain);
}

/// The lock domain of a path.
pub fn lock_domain(path: &str) -> (r: String)
    ensures
        r@ == lock_domain_spec(path@),
{
    let chars = to_chars(path);
    let mut colon: usize = 0;
    while colon < chars.len() && chars[colon] != ':'
        invariant
            chars@ == path@,
            colon <= chars@.len(),
            forall|i: int| 0 <= i < colon ==> #[trigger] chars@[i] != ':',
        decreases chars@.len() - colon,
    {
        colon = colon + 1;
    }
    proof {
        lemma_find_char(path@, ':', colon as int);
    }
    let r = from_chars(chars.as_slice(), 0, colon);
    assert(r@ =~= lock_domain_spec(path@));
    r
}

} // verus!
