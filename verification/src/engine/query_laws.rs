//! What the operations that only read lock state tell: who blocks, who waits for whom,
//! who holds what under which token.

use vstd::prelude::*;
use crate::db::{lemma_scan_exists, DbView};
use crate::engine::conflict::is_alive;
use crate::engine::deadlock_laws::{is_chain, law_reported_cycle_is_real, lemma_chain_grows};
use crate::engine::edge::{edge_text, law_edge_reads_back, parse_edge};
use crate::engine::laws::{holding, lemma_live_texts_has};
use crate::engine::ops::{fence_of, held_locks};
use crate::engine::places::text_at;
use crate::engine::query::{
    awaited, blocking, fencing_check, fencing_fault, only_live, owner_locks, path_info, walk,
};
use crate::engine::refusal_laws::{claimed_by, lemma_text_has_row};
use crate::engine::steps::parse_hold;
use crate::engine::success_laws::lemma_live_texts_len;
use crate::engine::types::{AssertView, CycleView, MetaView, Mode, Reason, RelView};
use crate::store_keys::{member_prefix_spec, Cf, MAX_SET_ENUM_MEMBERS};
use crate::store_rocksdb::{live_text, member_rows, read_members, read_text, ErrorView};
use crate::text::utf8;

verus! {

// ---------------------------------------------------------------------------
// Blocking
// ---------------------------------------------------------------------------

/// Whether an owner has on a path what a reason speaks of: a read lock, a claim, or
/// else a write lock.
pub open spec fn has_there(
    db: DbView,
    now: u64,
    path: Seq<char>,
    owner: Seq<char>,
    reason: Seq<char>,
) -> bool {
    if reason == "read_locked"@ || reason == "descendant_read_locked"@ {
        holding(db, now, Mode::Read, path, owner)
    } else if reason == "preempt_claimed"@ {
        claimed_by(db, now, path, owner)
    } else {
        holding(db, now, Mode::Write, path, owner)
    }
}

/// An owner blocks if and only if its lease is live and it has on the path what the
/// reason speaks of; that is never found out wrongly, only not at all.
pub proof fn law_blocking_tells(
    db: DbView,
    now: u64,
    path: Seq<char>,
    owner: Seq<char>,
    reason: Seq<char>,
)
    ensures
        blocking(db, now, path, owner, reason) matches Ok(b) ==> b == (is_alive(db, now, owner)
            == Ok::<bool, ErrorView>(true) && has_there(db, now, path, owner, reason)),
        is_alive(db, now, owner) == Ok::<bool, ErrorView>(true) && has_there(
            db,
            now,
            path,
            owner,
            reason,
        ) ==> blocking(db, now, path, owner, reason) is Ok,
{
}

// ---------------------------------------------------------------------------
// Waiting
// ---------------------------------------------------------------------------

/// Whether an owner waits for another: a live wait-for edge leads to it, its lease is
/// live, and, where the edge says what it blocks on, it has that there.
pub open spec fn waits_for(db: DbView, now: u64, owner: Seq<char>, other: Seq<char>) -> bool {
    &&& is_alive(db, now, other) == Ok::<bool, ErrorView>(true)
    &&& read_text(db, now, Cf::WaitEdges, utf8(owner)) matches Ok(Some(text)) && (parse_edge(
        text,
    ) matches Some((next, meta)) && next == other && (meta matches Some(m) ==> has_there(
        db,
        now,
        m.path,
        other,
        m.reason,
    )))
}

/// An owner is followed to another if and only if it waits for it.
pub proof fn law_awaited_tells(db: DbView, now: u64, owner: Seq<char>, other: Seq<char>)
    ensures
        awaited(db, now, owner) == Ok::<Option<Seq<char>>, ErrorView>(Some(other)) <==> waits_for(
            db,
            now,
            owner,
            other,
        ),
{
    if let Ok(Some(text)) = read_text(db, now, Cf::WaitEdges, utf8(owner)) {
        if let Some((next, meta)) = parse_edge(text) {
            if let Some(m) = meta {
                law_blocking_tells(db, now, m.path, next, m.reason);
            }
        }
    }
}

/// A stale edge is not followed: an owner whose edge says what it blocks on waits for
/// nobody once the other's lock or claim there is gone, or its lease is over.
pub proof fn law_stale_edge_is_not_followed(
    db: DbView,
    now: u64,
    owner: Seq<char>,
    other: Seq<char>,
    meta: MetaView,
    exp: u64,
)
    requires
        other.len() <= u64::MAX,
        meta.path.len() <= u64::MAX,
        text_at(db, (Cf::WaitEdges, utf8(owner)), edge_text(other, Some(meta)), exp),
        !has_there(db, now, meta.path, other, meta.reason) || is_alive(db, now, other) == Ok::<
            bool,
            ErrorView,
        >(false),
    ensures
        awaited(db, now, owner) matches Ok(next) ==> next is None,
{
    law_edge_reads_back(other, Some(meta));
    law_blocking_tells(db, now, meta.path, other, meta.reason);
}

/// A reported cycle consists of owners each of which waits for the next, and the last for
/// the first: every edge leads to a live owner that has what the edge says that it blocks
/// on.
pub proof fn law_cycle_blocks_all_round(db: DbView, now: u64, start: Seq<char>, depth: nat, i: int)
    ensures
        walk(db, now, seq![start], depth) matches Ok(CycleView::Cycle(c)) ==> (0 <= i < c.len()
            ==> waits_for(
            db,
            now,
            c[i],
            if i + 1 < c.len() {
                c[i + 1]
            } else {
                start
            },
        )),
{
    law_reported_cycle_is_real(db, now, start, depth);
    if let Ok(CycleView::Cycle(c)) = walk(db, now, seq![start], depth) {
        if 0 <= i < c.len() - 1 {
            assert(awaited(db, now, c[i]) == Ok::<Option<Seq<char>>, ErrorView>(Some(c[i + 1])));
            law_awaited_tells(db, now, c[i], c[i + 1]);
        } else if i == c.len() - 1 {
            law_awaited_tells(db, now, c[i], start);
        }
    }
}

proof fn lemma_clear_ends(db: DbView, now: u64, chain: Seq<Seq<char>>, depth: nat)
    requires
        chain.len() > 0,
        is_chain(db, now, chain),
        walk(db, now, chain, depth) == Ok::<CycleView, ErrorView>(CycleView::Clear),
    ensures
        exists|c: Seq<Seq<char>>|
            {
                &&& 0 < c.len() < chain.len() + depth
                &&& c[0] == chain[0]
                &&& #[trigger] is_chain(db, now, c)
                &&& awaited(db, now, c.last()) == Ok::<Option<Seq<char>>, ErrorView>(None)
            },
    decreases depth,
{
    match awaited(db, now, chain.last()) {
        Ok(Some(next)) => {
            let longer = chain.push(next);
            lemma_chain_grows(db, now, chain, next);
            lemma_clear_ends(db, now, longer, (depth - 1) as nat);
        },
        _ => {},
    }
}

/// A walk that finds nothing has come to an end: the owners along it, no more than the depth
/// of the walk, wait for each other in a row, and the last for nobody.
pub proof fn law_clear_walk_ends(db: DbView, now: u64, start: Seq<char>, depth: nat)
    requires
        walk(db, now, seq![start], depth) == Ok::<CycleView, ErrorView>(CycleView::Clear),
    ensures
        exists|c: Seq<Seq<char>>|
            {
                &&& 0 < c.len() <= depth
                &&& c[0] == start
                &&& #[trigger] is_chain(db, now, c)
                &&& awaited(db, now, c.last()) == Ok::<Option<Seq<char>>, ErrorView>(None)
            },
{
    lemma_clear_ends(db, now, seq![start], depth);
}

proof fn lemma_walk_goes_on(db: DbView, now: u64, c: Seq<Seq<char>>, n: int, depth: nat)
    requires
        1 <= n <= c.len(),
        is_chain(db, now, c),
        forall|i: int| 0 < i < c.len() ==> #[trigger] c[i] != c[0],
        c.len() < n + depth ==> awaited(db, now, c.last()) == Ok::<
            Option<Seq<char>>,
            ErrorView,
        >(None),
    ensures
        walk(db, now, c.take(n), depth) == (if c.len() < n + depth {
            Ok::<CycleView, ErrorView>(CycleView::Clear)
        } else {
            Ok(CycleView::Truncated(c.take(n + depth)))
        }),
    decreases depth,
{
    let part = c.take(n);
    if depth > 0 {
        assert(part.last() == c[n - 1]);
        if n < c.len() {
            assert(awaited(db, now, c[n - 1]) == Ok::<Option<Seq<char>>, ErrorView>(
                Some(c[n - 1 + 1]),
            ));
            assert(c[n] != c[0]);
            assert(part.push(c[n]) =~= c.take(n + 1));
            lemma_walk_goes_on(db, now, c, n + 1, (depth - 1) as nat);
        } else {
            assert(part =~= c);
        }
    }
}

/// Owners that wait for each other in a row, and do not come back to the first, are no cycle: a
/// walk that is allowed as many steps as they are finds nothing if the last of them waits for
/// nobody; one that is allowed fewer tells as many as it has come to.
pub proof fn law_row_is_no_cycle(db: DbView, now: u64, c: Seq<Seq<char>>, depth: nat)
    requires
        c.len() > 0,
        is_chain(db, now, c),
        forall|i: int| 0 < i < c.len() ==> #[trigger] c[i] != c[0],
    ensures
        depth >= c.len() && awaited(db, now, c.last()) == Ok::<Option<Seq<char>>, ErrorView>(None)
            ==> walk(db, now, seq![c[0]], depth) == Ok::<CycleView, ErrorView>(CycleView::Clear),
        depth < c.len() ==> walk(db, now, seq![c[0]], depth) == Ok::<CycleView, ErrorView>(
            CycleView::Truncated(c.take(depth as int + 1)),
        ),
{
    assert(seq![c[0]] =~= c.take(1));
    if depth < c.len() || awaited(db, now, c.last()) == Ok::<Option<Seq<char>>, ErrorView>(None) {
        lemma_walk_goes_on(db, now, c, 1, depth);
    }
}

// ---------------------------------------------------------------------------
// Fencing
// ---------------------------------------------------------------------------

/// Whether an owner has the write lock on a path under a token: its lease is live, the
/// lock is its own, and the path has no newer token.
pub open spec fn fenced_by(
    db: DbView,
    now: u64,
    owner: Seq<char>,
    token: i64,
    path: Seq<char>,
) -> bool {
    &&& is_alive(db, now, owner) == Ok::<bool, ErrorView>(true)
    &&& holding(db, now, Mode::Write, path, owner)
    &&& fence_of(db, now, path) matches Ok(f) && (f matches Some(n) ==> n <= token)
}

/// Fenced ownership is confirmed if and only if the owner has every one of the locks under
/// the token. What fails is the first path that it does not have: for a stale token if the
/// lock is its own, and else as a stale owner.
pub proof fn law_fencing_tells(
    db: DbView,
    now: u64,
    owner: Seq<char>,
    token: i64,
    paths: Seq<Seq<char>>,
)
    ensures
        (forall|i: int| 0 <= i < paths.len() ==> fenced_by(db, now, owner, token, #[trigger] paths[i]))
            <==> fencing_check(db, now, owner, token, paths) == Ok::<AssertView, ErrorView>(
            AssertView::Held,
        ),
        fencing_check(db, now, owner, token, paths) matches Ok(AssertView::Fail { path, reason })
            ==> exists|i: int|
            {
                &&& 0 <= i < paths.len()
                &&& #[trigger] paths[i] == path
                &&& !fenced_by(db, now, owner, token, path)
                &&& forall|j: int|
                    0 <= j < i ==> fenced_by(db, now, owner, token, #[trigger] paths[j])
                &&& reason == (if holding(db, now, Mode::Write, path, owner) && is_alive(
                    db,
                    now,
                    owner,
                ) == Ok::<bool, ErrorView>(true) {
                    "stale_fencing_token"@
                } else {
                    "stale_owner"@
                })
            },
    decreases paths.len(),
{
    if paths.len() > 0 {
        let rest = paths.drop_first();
        law_fencing_tells(db, now, owner, token, rest);
        let all = forall|i: int|
            0 <= i < paths.len() ==> fenced_by(db, now, owner, token, #[trigger] paths[i]);
        let those = forall|i: int|
            0 <= i < rest.len() ==> fenced_by(db, now, owner, token, #[trigger] rest[i]);
        if all {
            assert forall|i: int| 0 <= i < rest.len() implies fenced_by(
                db,
                now,
                owner,
                token,
                #[trigger] rest[i],
            ) by {
                assert(rest[i] == paths[i + 1]);
            }
            assert(fenced_by(db, now, owner, token, paths[0]));
        }
        if those && fenced_by(db, now, owner, token, paths[0]) {
            assert forall|i: int| 0 <= i < paths.len() implies fenced_by(
                db,
                now,
                owner,
                token,
                #[trigger] paths[i],
            ) by {
                if i > 0 {
                    assert(rest[i - 1] == paths[i]);
                }
            }
        }
        if let Ok(AssertView::Fail { path, reason }) = fencing_check(db, now, owner, token, paths) {
            if fencing_fault(db, now, owner, token, paths[0]) == Ok::<Option<Reason>, ErrorView>(
                None,
            ) {
                let i = choose|i: int|
                    {
                        &&& 0 <= i < rest.len()
                        &&& #[trigger] rest[i] == path
                        &&& !fenced_by(db, now, owner, token, path)
                        &&& forall|j: int|
                            0 <= j < i ==> fenced_by(db, now, owner, token, #[trigger] rest[j])
                    };
                assert(paths[i + 1] == path);
                assert forall|j: int| 0 <= j < i + 1 implies fenced_by(
                    db,
                    now,
                    owner,
                    token,
                    #[trigger] paths[j],
                ) by {
                    if j > 0 {
                        assert(rest[j - 1] == paths[j]);
                    }
                }
            } else {
                assert(paths[0] == path);
            }
        }
    }
}

// ---------------------------------------------------------------------------
// Inspection
// ---------------------------------------------------------------------------

proof fn lemma_only_live(db: DbView, now: u64, owners: Seq<Seq<char>>, y: Seq<char>)
    requires
        only_live(db, now, owners) is Ok,
    ensures
        only_live(db, now, owners)->Ok_0.contains(y) <==> owners.contains(y) && is_alive(
            db,
            now,
            y,
        ) == Ok::<bool, ErrorView>(true),
        only_live(db, now, owners)->Ok_0.len() <= owners.len(),
    decreases owners.len(),
{
    if owners.len() > 0 {
        let front = owners.drop_last();
        let rest = only_live(db, now, front)->Ok_0;
        let all = only_live(db, now, owners)->Ok_0;
        lemma_only_live(db, now, front, y);
        assert(owners[owners.len() - 1] == owners.last());
        if owners.contains(y) {
            let i = owners.index_of(y);
            if i < front.len() {
                assert(front[i] == y);
            }
        }
        if front.contains(y) {
            let i = front.index_of(y);
            assert(owners[i] == y);
        }
        if rest.contains(y) {
            let i = rest.index_of(y);
            assert(all[i] == y);
        }
        if all.contains(y) {
            let i = all.index_of(y);
            if i < rest.len() {
                assert(rest[i] == y);
            }
        }
        if is_alive(db, now, owners.last()) == Ok::<bool, ErrorView>(true) {
            assert(all[all.len() - 1] == owners.last());
        }
    }
}

/// What is told of a path: its writer and its claimant are those recorded there whose
/// leases are live, its readers are the live ones among those recorded, and its fence is
/// the recorded token.
pub proof fn law_inspection_tells(
    db: DbView,
    now: u64,
    path: Seq<char>,
    y: Seq<char>,
)
    requires
        path_info(db, now, path) is Ok,
    ensures
        ({
            let info = path_info(db, now, path)->Ok_0;
            let lives = is_alive(db, now, y) == Ok::<bool, ErrorView>(true);
            &&& info.writer == Some(y) <==> lives && holding(db, now, Mode::Write, path, y)
            &&& info.claimant == Some(y) <==> lives && claimed_by(db, now, path, y)
            &&& info.readers.contains(y) <==> lives && (read_members(
                db,
                now,
                Cf::ReadLocks,
                utf8(path),
                MAX_SET_ENUM_MEMBERS,
            ) matches Ok(owners) && owners.contains(y))
            &&& fence_of(db, now, path) == Ok::<Option<i64>, ErrorView>(info.fence)
        }),
{
    let owners = read_members(db, now, Cf::ReadLocks, utf8(path), MAX_SET_ENUM_MEMBERS)->Ok_0;
    lemma_only_live(db, now, owners, y);
}

pub proof fn lemma_listed_both_ways(entries: Seq<Seq<char>>, lock: RelView)
    ensures
        held_locks(entries).contains(lock) <==> exists|i: int|
            0 <= i < entries.len() && parse_hold(#[trigger] entries[i]) == Some(
                (lock.mode, lock.path),
            ),
    decreases entries.len(),
{
    if entries.len() > 0 {
        let front = entries.drop_last();
        let rest = held_locks(front);
        let all = held_locks(entries);
        lemma_listed_both_ways(front, lock);
        assert(entries[entries.len() - 1] == entries.last());
        if rest.contains(lock) {
            let i = choose|i: int|
                0 <= i < front.len() && parse_hold(#[trigger] front[i]) == Some(
                    (lock.mode, lock.path),
                );
            assert(entries[i] == front[i]);
            let j = rest.index_of(lock);
            assert(all[j] == lock);
        }
        if parse_hold(entries.last()) == Some((lock.mode, lock.path)) {
            assert(all[all.len() - 1] == lock);
        }
        if all.contains(lock) {
            let j = all.index_of(lock);
            if j < rest.len() {
                assert(rest[j] == lock);
                let i = choose|i: int|
                    0 <= i < front.len() && parse_hold(#[trigger] front[i]) == Some(
                        (lock.mode, lock.path),
                    );
                assert(entries[i] == front[i]);
            }
        }
        if exists|i: int|
            0 <= i < entries.len() && parse_hold(#[trigger] entries[i]) == Some(
                (lock.mode, lock.path),
            ) {
            let i = choose|i: int|
                0 <= i < entries.len() && parse_hold(#[trigger] entries[i]) == Some(
                    (lock.mode, lock.path),
                );
            if i < front.len() {
                assert(front[i] == entries[i]);
            }
        }
    }
}

/// What is told of an owner: whether its lease is live, and of locks exactly those whose
/// entries are live in its list of holdings.
pub proof fn law_listing_tells(db: DbView, now: u64, owner: Seq<char>, lock: RelView)
    requires
        owner_locks(db, now, owner) is Ok,
    ensures
        ({
            let (alive, locks) = owner_locks(db, now, owner)->Ok_0;
            &&& is_alive(db, now, owner) == Ok::<bool, ErrorView>(alive)
            &&& locks.contains(lock) <==> (read_members(
                db,
                now,
                Cf::OwnerHolds,
                utf8(owner),
                MAX_SET_ENUM_MEMBERS,
            ) matches Ok(entries) && exists|i: int|
                0 <= i < entries.len() && parse_hold(#[trigger] entries[i]) == Some(
                    (lock.mode, lock.path),
                ))
        }),
{
    lemma_listed_both_ways(
        read_members(db, now, Cf::OwnerHolds, utf8(owner), MAX_SET_ENUM_MEMBERS)->Ok_0,
        lock,
    );
}

// ---------------------------------------------------------------------------
// Sets
// ---------------------------------------------------------------------------

/// A set is listed as it is: what is told of it are the texts of its live rows, all of them
/// and nothing else. It is not listed at all if it has more live rows than allowed, or more
/// than four rows for each one allowed.
pub proof fn law_sets_are_listed(
    db: DbView,
    now: u64,
    cf: Cf,
    key: Seq<u8>,
    limit: usize,
    v: Seq<char>,
)
    requires
        db.dom().finite(),
    ensures
        read_members(db, now, cf, key, limit) matches Ok(vs) ==> vs.len() <= limit && (vs.contains(v)
            <==> exists|k: Seq<u8>|
            db.dom().contains((cf, k)) && member_prefix_spec(key).is_prefix_of(k) && live_text(
                #[trigger] db[(cf, k)],
                now,
            ) == Some(v)),
        member_rows(db, cf, key).len() > 4 * limit ==> read_members(db, now, cf, key, limit) is Err,
        member_rows(db, cf, key).len() <= limit ==> read_members(db, now, cf, key, limit) is Ok,
        read_members(db, now, cf, key, limit) matches Err(e) ==> e is ScanLimit,
{
    let ks = member_rows(db, cf, key);
    lemma_scan_exists(db, cf, member_prefix_spec(key));
    lemma_live_texts_len(db, now, cf, ks);
    if let Ok(vs) = read_members(db, now, cf, key, limit) {
        if vs.contains(v) {
            lemma_text_has_row(db, now, cf, ks, v);
            let k = choose|k: Seq<u8>|
                ks.contains(k) && live_text(#[trigger] db[(cf, k)], now) == Some(v);
            assert(db.dom().contains((cf, k)));
        }
        if exists|k: Seq<u8>|
            db.dom().contains((cf, k)) && member_prefix_spec(key).is_prefix_of(k) && live_text(
                #[trigger] db[(cf, k)],
                now,
            ) == Some(v) {
            let k = choose|k: Seq<u8>|
                db.dom().contains((cf, k)) && member_prefix_spec(key).is_prefix_of(k) && live_text(
                    #[trigger] db[(cf, k)],
                    now,
                ) == Some(v);
            assert(ks.contains(k));
            lemma_live_texts_has(db, now, cf, ks, k, v);
        }
    }
}

} // verus!
