//! Where locks stand in the store: different locks stand at different places.

use vstd::prelude::*;
use crate::db::{applied, applied_one, lemma_applied_concat, same_at, DbView, OpView};
use crate::engine::path::{ancestors, lemma_parent_shorter, parent};
use crate::engine::steps::{
    delete_index, hold_place, hold_text, lock_index, lock_place, mode_text, put_index, reader_text,
    step_ops, StepView,
};
use crate::engine::types::Mode;
use crate::store_keys::{
    expiry_time, lemma_first_zero_splits, lemma_nul_free_bytes, member_key_spec, nul_free, Cf,
};
use crate::store_laws::lemma_put_text_places;
use crate::store_rocksdb::{put_text, RecordView};
use crate::text::{joined, lemma_utf8_injective, utf8};

verus! {

/// The number of zero bytes.
pub open spec fn zeros(b: Seq<u8>) -> nat
    decreases b.len(),
{
    if b.len() == 0 {
        0
    } else {
        zeros(b.drop_last()) + (if b.last() == 0 {
            1nat
        } else {
            0
        })
    }
}

proof fn lemma_zeros_concat(a: Seq<u8>, b: Seq<u8>)
    ensures
        zeros(a + b) == zeros(a) + zeros(b),
    decreases b.len(),
{
    if b.len() == 0 {
        assert(a + b =~= a);
    } else {
        assert((a + b).drop_last() =~= a + b.drop_last());
        lemma_zeros_concat(a, b.drop_last());
    }
}

proof fn lemma_zeros_none(b: Seq<u8>)
    requires
        forall|i: int| 0 <= i < b.len() ==> #[trigger] b[i] != 0,
    ensures
        zeros(b) == 0,
    decreases b.len(),
{
    if b.len() > 0 {
        let c = b.drop_last();
        assert forall|i: int| 0 <= i < c.len() implies #[trigger] c[i] != 0 by {
            assert(c[i] == b[i]);
        }
        lemma_zeros_none(c);
    }
}

proof fn lemma_zeros_push(a: Seq<u8>)
    ensures
        zeros(a.push(0)) == zeros(a) + 1,
{
    assert(a.push(0).drop_last() =~= a);
}

/// A text has a NUL if and only if its bytes hold a zero.
proof fn lemma_zeros_of_text(s: Seq<char>)
    ensures
        zeros(utf8(s)) == 0 <==> nul_free(s),
    decreases s.len(),
{
    if nul_free(s) {
        lemma_nul_free_bytes(s);
        lemma_zeros_none(utf8(s));
    } else {
        let rest = s.drop_first();
        let head = vstd::utf8::encode_scalar(s[0] as u32);
        assert(utf8(s) == head + utf8(rest));
        lemma_zeros_concat(head, utf8(rest));
        if s[0] == '\0' {
            assert((0u32 & 0x7F) as u8 == 0) by (bit_vector);
            assert(head =~= seq![0u8]);
            assert(head.drop_last() =~= Seq::<u8>::empty());
            assert(zeros(head) == 1) by {
                reveal_with_fuel(zeros, 2);
            }
        } else {
            assert(!nul_free(rest)) by {
                let i = choose|i: int| 0 <= i < s.len() && #[trigger] s[i] == '\0';
                assert(rest[i - 1] == '\0');
            }
            lemma_zeros_of_text(rest);
        }
    }
}

proof fn lemma_zeros_of_member(key: Seq<u8>, member: Seq<char>)
    ensures
        zeros(member_key_spec(key, member)) == zeros(key) + 1 + zeros(utf8(member)),
{
    lemma_zeros_push(key);
    lemma_zeros_concat(key.push(0), utf8(member));
}

/// A member key of two texts without NUL is the key of no other pair of texts.
pub proof fn lemma_member_key_unique(
    a: Seq<char>,
    m: Seq<char>,
    b: Seq<char>,
    n: Seq<char>,
)
    requires
        nul_free(b),
        nul_free(n),
        member_key_spec(utf8(a), m) == member_key_spec(utf8(b), n),
    ensures
        a == b,
        m == n,
{
    lemma_zeros_of_member(utf8(a), m);
    lemma_zeros_of_member(utf8(b), n);
    lemma_zeros_of_text(a);
    lemma_zeros_of_text(m);
    lemma_zeros_of_text(b);
    lemma_zeros_of_text(n);
    lemma_nul_free_bytes(a);
    lemma_nul_free_bytes(b);
    lemma_first_zero_splits(utf8(a), utf8(m), utf8(b), utf8(n));
    lemma_utf8_injective(a, b);
    lemma_utf8_injective(m, n);
}

/// The UTF-8 bytes of two texts one after the other.
pub proof fn lemma_utf8_concat(a: Seq<char>, b: Seq<char>)
    ensures
        utf8(a + b) == utf8(a) + utf8(b),
    decreases a.len(),
{
    if a.len() == 0 {
        assert(a + b =~= b);
        assert(utf8(a) + utf8(b) =~= utf8(b));
    } else {
        let rest = a.drop_first();
        assert((a + b).drop_first() =~= rest + b);
        lemma_utf8_concat(rest, b);
        let head = vstd::utf8::encode_scalar(a[0] as u32);
        assert(utf8(a + b) == head + utf8(rest + b));
        assert(head + (utf8(rest) + utf8(b)) =~= head + utf8(rest) + utf8(b));
    }
}

proof fn lemma_utf8_joined(p: Seq<char>, x: Seq<char>)
    ensures
        utf8(joined(p, x)) == utf8(p).push(0) + utf8(x),
{
    let nul = seq!['\0'];
    assert(joined(p, x) =~= p + (nul + x));
    lemma_utf8_concat(p, nul + x);
    lemma_utf8_concat(nul, x);
    assert(utf8(nul) =~= seq![0u8]) by {
        assert((0u32 & 0x7F) as u8 == 0) by (bit_vector);
        assert(nul.drop_first() =~= Seq::<char>::empty());
        assert(utf8(nul) == vstd::utf8::encode_scalar('\0' as u32) + utf8(nul.drop_first()));
        assert(vstd::utf8::encode_scalar('\0' as u32) =~= seq![0u8]);
    }
    assert(utf8(p) + (seq![0u8] + utf8(x)) =~= utf8(p).push(0) + utf8(x));
}

/// The entry of a read lock under an ancestor is that of no other read lock.
proof fn lemma_reader_key_unique(
    a: Seq<char>,
    p: Seq<char>,
    x: Seq<char>,
    b: Seq<char>,
    q: Seq<char>,
    y: Seq<char>,
)
    requires
        nul_free(b),
        nul_free(q),
        nul_free(y),
        member_key_spec(utf8(a), reader_text(p, x)) == member_key_spec(utf8(b), reader_text(q, y)),
    ensures
        a == b,
        p == q,
        x == y,
{
    lemma_utf8_joined(p, x);
    lemma_utf8_joined(q, y);
    lemma_zeros_of_member(utf8(a), reader_text(p, x));
    lemma_zeros_of_member(utf8(b), reader_text(q, y));
    lemma_zeros_concat(utf8(p).push(0), utf8(x));
    lemma_zeros_concat(utf8(q).push(0), utf8(y));
    lemma_zeros_push(utf8(p));
    lemma_zeros_push(utf8(q));
    lemma_zeros_of_text(a);
    lemma_zeros_of_text(p);
    lemma_zeros_of_text(x);
    lemma_zeros_of_text(b);
    lemma_zeros_of_text(q);
    lemma_zeros_of_text(y);
    lemma_nul_free_bytes(a);
    lemma_nul_free_bytes(b);
    lemma_nul_free_bytes(p);
    lemma_nul_free_bytes(q);
    lemma_first_zero_splits(
        utf8(a),
        utf8(reader_text(p, x)),
        utf8(b),
        utf8(reader_text(q, y)),
    );
    lemma_first_zero_splits(utf8(p), utf8(x), utf8(q), utf8(y));
    lemma_utf8_injective(a, b);
    lemma_utf8_injective(p, q);
    lemma_utf8_injective(x, y);
}

/// Ancestors of a path without NUL have none.
pub proof fn lemma_ancestors_nul_free(p: Seq<char>, a: Seq<char>)
    requires
        nul_free(p),
        ancestors(p).contains(a),
    ensures
        nul_free(a),
    decreases ancestors(p).len(),
{
    let q = parent(p)->0;
    assert(parent(p) is Some);
    assert(ancestors(p) == seq![q] + ancestors(q));
    lemma_parent_shorter(p);
    assert(nul_free(q)) by {
        assert forall|i: int| 0 <= i < q.len() implies #[trigger] q[i] != '\0' by {
            assert(q[i] == p[i]);
        }
    }
    let i = ancestors(p).index_of(a);
    if i > 0 {
        assert(ancestors(q)[i - 1] == a);
        assert(ancestors(q).contains(a));
        lemma_ancestors_nul_free(q, a);
    }
}

/// A lock of a path and an owner without NUL stands at the place of no other lock,
/// but for the owner of a write lock.
pub proof fn lemma_lock_place_unique(
    m: Mode,
    p: Seq<char>,
    x: Seq<char>,
    n: Mode,
    q: Seq<char>,
    y: Seq<char>,
)
    requires
        nul_free(q),
        nul_free(y),
        lock_place(m, p, x) == lock_place(n, q, y),
    ensures
        m == n,
        p == q,
        m == Mode::Read ==> x == y,
{
    if m == Mode::Write {
        lemma_utf8_injective(p, q);
    } else {
        lemma_member_key_unique(p, x, q, y);
    }
}

/// The place of a lock's entry in the index of an ancestor.
pub open spec fn index_place(m: Mode, p: Seq<char>, x: Seq<char>, a: Seq<char>) -> (Cf, Seq<u8>) {
    (lock_index(m, p, x).0, member_key_spec(utf8(a), lock_index(m, p, x).1))
}

/// An entry in the index of an ancestor is that of one lock only.
pub proof fn lemma_index_place_unique(
    m: Mode,
    p: Seq<char>,
    x: Seq<char>,
    a: Seq<char>,
    n: Mode,
    q: Seq<char>,
    y: Seq<char>,
    b: Seq<char>,
)
    requires
        nul_free(q),
        nul_free(y),
        nul_free(b),
        index_place(m, p, x, a) == index_place(n, q, y, b),
    ensures
        m == n,
        a == b,
        p == q,
        m == Mode::Read ==> x == y,
{
    if m == Mode::Write {
        lemma_member_key_unique(a, p, b, q);
    } else {
        lemma_reader_key_unique(a, p, x, b, q, y);
    }
}

/// The place of a lock in its owner's list of holdings.
pub open spec fn hold_at(m: Mode, p: Seq<char>, x: Seq<char>) -> (Cf, Seq<u8>) {
    (Cf::OwnerHolds, hold_place(m, p, x))
}

/// An entry in a list of holdings is that of one lock only.
pub proof fn lemma_hold_at_unique(
    m: Mode,
    p: Seq<char>,
    x: Seq<char>,
    n: Mode,
    q: Seq<char>,
    y: Seq<char>,
)
    requires
        nul_free(q),
        nul_free(y),
        hold_at(m, p, x) == hold_at(n, q, y),
    ensures
        m == n,
        p == q,
        x == y,
{
    reveal_strlit("read");
    reveal_strlit("write");
    lemma_reader_key_unique(x, mode_text(m), p, y, mode_text(n), q);
    assert("read"@.len() != "write"@.len());
}

// ---------------------------------------------------------------------------
// What steps change
// ---------------------------------------------------------------------------

/// The store holds a text at a place.
pub open spec fn text_at(db: DbView, place: (Cf, Seq<u8>), v: Seq<char>, exp: u64) -> bool {
    db.dom().contains(place) && db[place] == Some(RecordView::Str { v, exp })
}

/// Whether a place is that of an entry under one of the given ancestors.
pub open spec fn in_index(
    cf: Cf,
    ups: Seq<Seq<char>>,
    entry: Seq<char>,
    place: (Cf, Seq<u8>),
) -> bool {
    exists|i: int| 0 <= i < ups.len() && place == (cf, member_key_spec(utf8(#[trigger] ups[i]), entry))
}

pub proof fn lemma_put_index(
    db: DbView,
    now: u64,
    cf: Cf,
    ups: Seq<Seq<char>>,
    entry: Seq<char>,
    ttl: u64,
    p: (Cf, Seq<u8>),
)
    requires
        cf != Cf::Expiry,
        p.0 != Cf::Expiry,
    ensures
        ({
            let after = applied(db, put_index(now, cf, ups, entry, ttl));
            if in_index(cf, ups, entry, p) {
                text_at(after, p, entry, expiry_time(now, ttl))
            } else {
                same_at(after, db, p)
            }
        }),
    decreases ups.len(),
{
    if ups.len() > 0 {
        let front = ups.drop_last();
        let key = member_key_spec(utf8(ups.last()), entry);
        let mid = applied(db, put_index(now, cf, front, entry, ttl));
        lemma_put_index(db, now, cf, front, entry, ttl, p);
        lemma_applied_concat(
            db,
            put_index(now, cf, front, entry, ttl),
            put_text(now, cf, key, entry, ttl),
        );
        lemma_put_text_places(mid, now, cf, key, entry, ttl);
        lemma_in_index_last(cf, ups, entry, p);
    }
}

proof fn lemma_in_index_last(cf: Cf, ups: Seq<Seq<char>>, entry: Seq<char>, p: (Cf, Seq<u8>))
    requires
        ups.len() > 0,
    ensures
        in_index(cf, ups, entry, p) <==> in_index(cf, ups.drop_last(), entry, p) || p == (
            cf,
            member_key_spec(utf8(ups.last()), entry),
        ),
{
    let front = ups.drop_last();
    if in_index(cf, front, entry, p) {
        let i = choose|i: int|
            0 <= i < front.len() && p == (cf, member_key_spec(utf8(#[trigger] front[i]), entry));
        assert(ups[i] == front[i]);
    }
    if p == (cf, member_key_spec(utf8(ups.last()), entry)) {
        assert(ups[ups.len() - 1] == ups.last());
    } else if in_index(cf, ups, entry, p) {
        let i = choose|i: int|
            0 <= i < ups.len() && p == (cf, member_key_spec(utf8(#[trigger] ups[i]), entry));
        assert(front[i] == ups[i]);
    }
}

pub proof fn lemma_delete_index(
    db: DbView,
    cf: Cf,
    ups: Seq<Seq<char>>,
    entry: Seq<char>,
    p: (Cf, Seq<u8>),
)
    ensures
        ({
            let after = applied(db, delete_index(cf, ups, entry));
            if in_index(cf, ups, entry, p) {
                !after.dom().contains(p)
            } else {
                same_at(after, db, p)
            }
        }),
    decreases ups.len(),
{
    if ups.len() > 0 {
        let front = ups.drop_last();
        let key = member_key_spec(utf8(ups.last()), entry);
        lemma_delete_index(db, cf, front, entry, p);
        assert(delete_index(cf, ups, entry).drop_last() =~= delete_index(cf, front, entry));
        lemma_in_index_last(cf, ups, entry, p);
    } else {
        assert(delete_index(cf, ups, entry) =~= Seq::<OpView>::empty());
    }
}

/// The column families of locks, of their indexes and of the lists of holdings.
pub open spec fn is_lock_cf(cf: Cf) -> bool {
    cf == Cf::WriteLocks || cf == Cf::ReadLocks || cf == Cf::DescWrite || cf == Cf::DescRead || cf
        == Cf::OwnerHolds
}

/// Whether a place is one of those that a lock stands at: its own, its entries under
/// its ancestors, and its entry in its owner's list of holdings.
pub open spec fn of_lock(m: Mode, p: Seq<char>, o: Seq<char>, place: (Cf, Seq<u8>)) -> bool {
    ||| place == lock_place(m, p, o)
    ||| place == hold_at(m, p, o)
    ||| in_index(lock_index(m, p, o).0, ancestors(p), lock_index(m, p, o).1, place)
}

/// Holding a lock: what it changes among locks.
pub proof fn lemma_hold(db: DbView, now: u64, o: Seq<char>, m: Mode, p: Seq<char>, ttl: u64)
    ensures
        ({
            let after = applied(
                db,
                step_ops(now, StepView::Hold { owner: o, mode: m, path: p, ttl }),
            );
            let exp = expiry_time(now, ttl);
            &&& text_at(after, lock_place(m, p, o), o, exp)
            &&& text_at(after, hold_at(m, p, o), hold_text(m, p), exp)
            &&& forall|i: int|
                0 <= i < ancestors(p).len() ==> text_at(
                    after,
                    #[trigger] index_place(m, p, o, ancestors(p)[i]),
                    lock_index(m, p, o).1,
                    exp,
                )
            &&& forall|place: (Cf, Seq<u8>)|
                is_lock_cf(place.0) && !of_lock(m, p, o, place) ==> #[trigger] same_at(
                    after,
                    db,
                    place,
                )
        }),
{
    let exp = expiry_time(now, ttl);
    let (cf, key) = lock_place(m, p, o);
    let (index, entry) = lock_index(m, p, o);
    let first = put_text(now, cf, key, o, ttl);
    let second = put_index(now, index, ancestors(p), entry, ttl);
    let third = put_text(now, Cf::OwnerHolds, hold_place(m, p, o), hold_text(m, p), ttl);
    let one = applied(db, first);
    let two = applied(one, second);
    let three = applied(two, third);
    lemma_applied_concat(db, first, second);
    lemma_applied_concat(db, first + second, third);
    lemma_put_text_places(db, now, cf, key, o, ttl);
    lemma_put_text_places(two, now, Cf::OwnerHolds, hold_place(m, p, o), hold_text(m, p), ttl);
    let place = lock_place(m, p, o);
    assert(!in_index(index, ancestors(p), entry, place));
    lemma_put_index(one, now, index, ancestors(p), entry, ttl, place);
    assert forall|i: int| 0 <= i < ancestors(p).len() implies text_at(
        three,
        #[trigger] index_place(m, p, o, ancestors(p)[i]),
        entry,
        exp,
    ) by {
        let q = index_place(m, p, o, ancestors(p)[i]);
        assert(in_index(index, ancestors(p), entry, q));
        lemma_put_index(one, now, index, ancestors(p), entry, ttl, q);
    }
    assert forall|q: (Cf, Seq<u8>)| is_lock_cf(q.0) && !of_lock(m, p, o, q) implies #[trigger] same_at(
        three,
        db,
        q,
    ) by {
        lemma_put_index(one, now, index, ancestors(p), entry, ttl, q);
    }
}

/// Dropping a lock: what it changes among locks.
pub proof fn lemma_drop(db: DbView, now: u64, o: Seq<char>, m: Mode, p: Seq<char>)
    ensures
        ({
            let after = applied(db, step_ops(now, StepView::Drop { owner: o, mode: m, path: p }));
            &&& !after.dom().contains(lock_place(m, p, o))
            &&& forall|place: (Cf, Seq<u8>)|
                is_lock_cf(place.0) && !of_lock(m, p, o, place) ==> #[trigger] same_at(
                    after,
                    db,
                    place,
                )
        }),
{
    let (cf, key) = lock_place(m, p, o);
    let (index, entry) = lock_index(m, p, o);
    let first = seq![OpView::Delete { cf, key }];
    let second = delete_index(index, ancestors(p), entry);
    let third = seq![OpView::Delete { cf: Cf::OwnerHolds, key: hold_place(m, p, o) }];
    let one = applied(db, first);
    let two = applied(one, second);
    let three = applied(two, third);
    lemma_applied_concat(db, first, second);
    lemma_applied_concat(db, first + second, third);
    lemma_single(db, first[0]);
    lemma_single(two, third[0]);
    let place = lock_place(m, p, o);
    assert(!in_index(index, ancestors(p), entry, place));
    lemma_delete_index(one, index, ancestors(p), entry, place);
    assert forall|q: (Cf, Seq<u8>)| is_lock_cf(q.0) && !of_lock(m, p, o, q) implies #[trigger] same_at(
        three,
        db,
        q,
    ) by {
        lemma_delete_index(one, index, ancestors(p), entry, q);
    }
}

pub proof fn lemma_single(db: DbView, op: OpView)
    ensures
        applied(db, seq![op]) == applied_one(db, op),
{
    let ops = seq![op];
    reveal_with_fuel(applied, 2);
    assert(ops.drop_last() =~= Seq::<OpView>::empty());
}

/// Forgetting a lock: what it changes among locks.
pub proof fn lemma_forget(db: DbView, now: u64, o: Seq<char>, m: Mode, p: Seq<char>)
    ensures
        ({
            let after = applied(db, step_ops(now, StepView::Forget { owner: o, mode: m, path: p }));
            forall|place: (Cf, Seq<u8>)|
                place != hold_at(m, p, o) ==> #[trigger] same_at(after, db, place)
        }),
{
    lemma_single(db, OpView::Delete { cf: Cf::OwnerHolds, key: hold_place(m, p, o) });
}

/// Every other step leaves locks alone.
pub proof fn lemma_other_step(db: DbView, now: u64, step: StepView)
    requires
        !(step is Hold),
        !(step is Drop),
        !(step is Forget),
    ensures
        forall|place: (Cf, Seq<u8>)|
            is_lock_cf(place.0) ==> #[trigger] same_at(
                applied(db, step_ops(now, step)),
                db,
                place,
            ),
{
    match step {
        StepView::Alive { owner, ttl } => {
            lemma_put_text_places(db, now, Cf::OwnerAlive, utf8(owner), "1"@, ttl);
        },
        StepView::NotAlive { owner } => {
            lemma_single(db, OpView::Delete { cf: Cf::OwnerAlive, key: utf8(owner) });
        },
        StepView::Fence { path, token, ttl } => {
            lemma_put_text_places(
                db,
                now,
                Cf::Fences,
                utf8(path),
                token,
                crate::engine::steps::fence_ttl(ttl),
            );
        },
        StepView::Claim { path, claimant, ttl } => {
            let first = put_text(now, Cf::Claims, utf8(path), claimant, ttl);
            let second = put_index(now, Cf::DescClaim, ancestors(path), path, ttl);
            let one = applied(db, first);
            lemma_applied_concat(db, first, second);
            lemma_put_text_places(db, now, Cf::Claims, utf8(path), claimant, ttl);
            assert forall|p: (Cf, Seq<u8>)| is_lock_cf(p.0) implies #[trigger] same_at(
                applied(db, step_ops(now, step)),
                db,
                p,
            ) by {
                assert(!in_index(Cf::DescClaim, ancestors(path), path, p));
                lemma_put_index(one, now, Cf::DescClaim, ancestors(path), path, ttl, p);
            }
        },
        StepView::DropClaim { path } => {
            let first = seq![OpView::Delete { cf: Cf::Claims, key: utf8(path) }];
            let second = delete_index(Cf::DescClaim, ancestors(path), path);
            let one = applied(db, first);
            lemma_applied_concat(db, first, second);
            lemma_single(db, first[0]);
            assert forall|p: (Cf, Seq<u8>)| is_lock_cf(p.0) implies #[trigger] same_at(
                applied(db, step_ops(now, step)),
                db,
                p,
            ) by {
                assert(!in_index(Cf::DescClaim, ancestors(path), path, p));
                lemma_delete_index(one, Cf::DescClaim, ancestors(path), path, p);
            }
        },
        StepView::Wait { owner, edge, ttl } => {
            lemma_put_text_places(db, now, Cf::WaitEdges, utf8(owner), edge, ttl);
        },
        StepView::NoWait { owner } => {
            lemma_single(db, OpView::Delete { cf: Cf::WaitEdges, key: utf8(owner) });
        },
        _ => {},
    }
}

} // verus!
