//! The operations that only read lock state.

use vstd::prelude::*;
use crate::db::DbView;
use crate::engine::conflict::{is_alive, is_owner_alive_inner};
use crate::engine::edge::{decode_edge, parse_edge};
use crate::engine::ops::{fence_of, get_fence, holdings, holds, holds_lock, list_holdings};
use crate::engine::types::{
    reason_text, rels_view, AssertOutcome, AssertView, CycleOutcome, CycleView, Mode, OwnedLock,
    PathInfo, PathView, Reason, RelView,
};
use crate::store_keys::{Cf, MAX_SET_ENUM_MEMBERS};
use crate::store_rocksdb::{
    is_bool, is_text, is_texts, read_member, read_members, read_text, ErrorView, StoreError,
    StoreTxn,
};
use crate::text::{str_eq, texts, utf8};

verus! {

// ---------------------------------------------------------------------------
// Fencing
// ---------------------------------------------------------------------------

/// What is wrong with an owner's claim to hold the write lock on a path under a
/// token: a lease that is over or a lock that is not its own, or a token below the
/// recorded one.
pub open spec fn fencing_fault(
    db: DbView,
    now: u64,
    owner: Seq<char>,
    token: i64,
    path: Seq<char>,
) -> Result<Option<Reason>, ErrorView> {
    match holds(db, now, owner, Mode::Write, path) {
        Err(e) => Err(e),
        Ok(false) => Ok(Some(Reason::StaleOwner)),
        Ok(true) => match is_alive(db, now, owner) {
            Err(e) => Err(e),
            Ok(false) => Ok(Some(Reason::StaleOwner)),
            Ok(true) => match fence_of(db, now, path) {
                Err(e) => Err(e),
                Ok(Some(f)) => if token < f {
                    Ok(Some(Reason::StaleFencingToken))
                } else {
                    Ok(None)
                },
                Ok(None) => Ok(None),
            },
        },
    }
}

/// Whether an owner holds the write locks on all the given paths under a token;
/// the first fault decides.
pub open spec fn fencing_check(
    db: DbView,
    now: u64,
    owner: Seq<char>,
    token: i64,
    paths: Seq<Seq<char>>,
) -> Result<AssertView, ErrorView>
    decreases paths.len(),
{
    if paths.len() == 0 {
        Ok(AssertView::Held)
    } else {
        match fencing_fault(db, now, owner, token, paths[0]) {
            Err(e) => Err(e),
            Ok(Some(reason)) => Ok(
                AssertView::Fail { path: paths[0], reason: reason_text(reason) },
            ),
            Ok(None) => fencing_check(db, now, owner, token, paths.drop_first()),
        }
    }
}

fn find_fencing_fault<T: StoreTxn>(tx: &mut T, owner: &str, token: i64, path: &str) -> (r: Result<
    Option<Reason>,
    StoreError,
>)
    ensures
        final(tx).state() == old(tx).state(),
        match (r, fencing_fault(old(tx).state().db, old(tx).state().now, owner@, token, path@)) {
            (Ok(a), Ok(b)) => a == b,
            (Err(e), Err(f)) => e@ == f,
            _ => false,
        },
{
    match holds_lock(tx, owner, Mode::Write, path) {
        Err(e) => Err(e),
        Ok(false) => Ok(Some(Reason::StaleOwner)),
        Ok(true) => match is_owner_alive_inner(tx, owner) {
            Err(e) => Err(e),
            Ok(false) => Ok(Some(Reason::StaleOwner)),
            Ok(true) => match get_fence(tx, path) {
                Err(e) => Err(e),
                Ok(Some(f)) => if token < f {
                    Ok(Some(Reason::StaleFencingToken))
                } else {
                    Ok(None)
                },
                Ok(None) => Ok(None),
            },
        },
    }
}

/// Whether an owner holds the write locks on all the given paths under a token.
pub fn assert_fencing_inner<T: StoreTxn>(tx: &mut T, owner: &str, token: i64, paths: &Vec<String>) -> (r:
    Result<AssertOutcome, StoreError>)
    ensures
        final(tx).state() == old(tx).state(),
        match (
            r,
            fencing_check(
                old(tx).state().db,
                old(tx).state().now,
                owner@,
                token,
                texts(paths@),
            ),
        ) {
            (Ok(a), Ok(b)) => a@ == b,
            (Err(e), Err(f)) => e@ == f,
            _ => false,
        },
{
    let ghost t = tx.state();
    let ghost all = texts(paths@);
    let mut i: usize = 0;
    assert(all.skip(0) =~= all);
    while i < paths.len()
        invariant
            i <= paths@.len(),
            all == texts(paths@),
            t == old(tx).state(),
            tx.state() == t,
            fencing_check(t.db, t.now, owner@, token, all) == fencing_check(
                t.db,
                t.now,
                owner@,
                token,
                all.skip(i as int),
            ),
        decreases paths@.len() - i,
    {
        assert(all.skip(i as int).drop_first() =~= all.skip(i + 1));
        assert(all.skip(i as int)[0] == paths@[i as int]@);
        match find_fencing_fault(tx, owner, token, paths[i].as_str()) {
            Err(e) => {
                return Err(e);
            },
            Ok(Some(reason)) => {
                return Ok(
                    AssertOutcome::Fail {
                        path: paths[i].clone(),
                        reason: reason.text().to_owned(),
                    },
                );
            },
            Ok(None) => {},
        }
        i = i + 1;
    }
    Ok(AssertOutcome::Held)
}

// ---------------------------------------------------------------------------
// Blocking and deadlock
// ---------------------------------------------------------------------------

/// Whether an owner still stands in the way on a path, for the given reason: a
/// reason of a read lock is checked against its read lock, that of a claim against
/// its claim, any other against its write lock. An owner whose lease is over
/// stands in nobody's way.
pub open spec fn blocking(
    db: DbView,
    now: u64,
    path: Seq<char>,
    owner: Seq<char>,
    reason: Seq<char>,
) -> Result<bool, ErrorView> {
    match is_alive(db, now, owner) {
        Err(e) => Err(e),
        Ok(false) => Ok(false),
        Ok(true) => if reason == reason_text(Reason::ReadLocked) || reason == reason_text(
            Reason::DescendantReadLocked,
        ) {
            read_member(db, now, Cf::ReadLocks, utf8(path), owner)
        } else if reason == reason_text(Reason::PreemptClaimed) {
            match read_text(db, now, Cf::Claims, utf8(path)) {
                Err(e) => Err(e),
                Ok(c) => Ok(c == Some(owner)),
            }
        } else {
            holds(db, now, owner, Mode::Write, path)
        },
    }
}

/// Whether an owner still stands in the way on a path, for the given reason.
pub fn is_blocking_inner<T: StoreTxn>(tx: &mut T, path: &str, owner: &str, reason: &str) -> (r: Result<
    bool,
    StoreError,
>)
    ensures
        final(tx).state() == old(tx).state(),
        is_bool(r, blocking(old(tx).state().db, old(tx).state().now, path@, owner@, reason@)),
{
    match is_owner_alive_inner(tx, owner) {
        Err(e) => Err(e),
        Ok(false) => Ok(false),
        Ok(true) => {
            if str_eq(reason, Reason::ReadLocked.text()) || str_eq(
                reason,
                Reason::DescendantReadLocked.text(),
            ) {
                tx.sismember(Cf::ReadLocks, path.as_bytes(), owner)
            } else if str_eq(reason, Reason::PreemptClaimed.text()) {
                match tx.get_str(Cf::Claims, path.as_bytes()) {
                    Err(e) => Err(e),
                    Ok(None) => Ok(false),
                    Ok(Some(c)) => Ok(str_eq(c.as_str(), owner)),
                }
            } else {
                holds_lock(tx, owner, Mode::Write, path)
            }
        },
    }
}

/// The owner that an owner waits for: that of its edge, if its lease is live and,
/// where the edge says what it blocks on, it still blocks there. A text that is no
/// edge is an error.
pub open spec fn awaited(db: DbView, now: u64, owner: Seq<char>) -> Result<
    Option<Seq<char>>,
    ErrorView,
> {
    match read_text(db, now, Cf::WaitEdges, utf8(owner)) {
        Err(e) => Err(e),
        Ok(None) => Ok(None),
        Ok(Some(t)) => match parse_edge(t) {
            None => Err(ErrorView::Undecodable),
            Some((next, meta)) => match is_alive(db, now, next) {
                Err(e) => Err(e),
                Ok(false) => Ok(None),
                Ok(true) => match meta {
                    None => Ok(Some(next)),
                    Some(m) => match blocking(db, now, m.path, next, m.reason) {
                        Err(e) => Err(e),
                        Ok(true) => Ok(Some(next)),
                        Ok(false) => Ok(None),
                    },
                },
            },
        },
    }
}

/// The walk along wait-for edges from the end of `chain`, of at most `depth` steps.
pub open spec fn walk(db: DbView, now: u64, chain: Seq<Seq<char>>, depth: nat) -> Result<
    CycleView,
    ErrorView,
>
    decreases depth,
{
    if depth == 0 {
        Ok(CycleView::Truncated(chain))
    } else {
        match awaited(db, now, chain.last()) {
            Err(e) => Err(e),
            Ok(None) => Ok(CycleView::Clear),
            Ok(Some(next)) => if next == chain[0] {
                Ok(CycleView::Cycle(chain))
            } else {
                walk(db, now, chain.push(next), (depth - 1) as nat)
            },
        }
    }
}

fn find_awaited<T: StoreTxn>(tx: &mut T, owner: &str) -> (r: Result<Option<String>, StoreError>)
    ensures
        final(tx).state() == old(tx).state(),
        is_text(r, awaited(old(tx).state().db, old(tx).state().now, owner@)),
{
    match tx.get_str(Cf::WaitEdges, owner.as_bytes()) {
        Err(e) => Err(e),
        Ok(None) => Ok(None),
        Ok(Some(t)) => match decode_edge(t.as_str()) {
            None => Err(StoreError::Undecodable),
            Some((next, meta)) => match is_owner_alive_inner(tx, next.as_str()) {
                Err(e) => Err(e),
                Ok(false) => Ok(None),
                Ok(true) => match meta {
                    None => Ok(Some(next)),
                    Some(m) => match is_blocking_inner(
                        tx,
                        m.conflict_path.as_str(),
                        next.as_str(),
                        m.reason.as_str(),
                    ) {
                        Err(e) => Err(e),
                        Ok(true) => Ok(Some(next)),
                        Ok(false) => Ok(None),
                    },
                },
            },
        },
    }
}

/// Walks along wait-for edges from `start`, at most `max_depth` steps: the chain of
/// a cycle through `start`, the chain walked so far, or neither.
pub fn detect_cycle_inner<T: StoreTxn>(tx: &mut T, start: &str, max_depth: u32) -> (r: Result<
    CycleOutcome,
    StoreError,
>)
    ensures
        final(tx).state() == old(tx).state(),
        match (
            r,
            walk(old(tx).state().db, old(tx).state().now, seq![start@], max_depth as nat),
        ) {
            (Ok(a), Ok(b)) => a@ == b,
            (Err(e), Err(f)) => e@ == f,
            _ => false,
        },
{
    let ghost t = tx.state();
    let mut chain: Vec<String> = Vec::new();
    chain.push(start.to_owned());
    let mut left: u32 = max_depth;
    assert(texts(chain@) =~= seq![start@]);
    while left > 0
        invariant
            t == old(tx).state(),
            tx.state() == t,
            chain@.len() > 0,
            texts(chain@)[0] == start@,
            walk(t.db, t.now, seq![start@], max_depth as nat) == walk(
                t.db,
                t.now,
                texts(chain@),
                left as nat,
            ),
        decreases left,
    {
        let ghost before = texts(chain@);
        let last: usize = chain.len() - 1;
        assert(before.last() == chain@[last as int]@);
        match find_awaited(tx, chain[last].as_str()) {
            Err(e) => {
                return Err(e);
            },
            Ok(None) => {
                return Ok(CycleOutcome::Clear);
            },
            Ok(Some(next)) => {
                if str_eq(next.as_str(), start) {
                    return Ok(CycleOutcome::Cycle(chain));
                }
                chain.push(next);
                assert(texts(chain@) =~= before.push(next@));
            },
        }
        left = left - 1;
    }
    Ok(CycleOutcome::Truncated(chain))
}

// ---------------------------------------------------------------------------
// Inspection
// ---------------------------------------------------------------------------

/// The owners whose leases are live.
pub open spec fn only_live(db: DbView, now: u64, owners: Seq<Seq<char>>) -> Result<
    Seq<Seq<char>>,
    ErrorView,
>
    decreases owners.len(),
{
    if owners.len() == 0 {
        Ok(Seq::empty())
    } else {
        match only_live(db, now, owners.drop_last()) {
            Err(e) => Err(e),
            Ok(rest) => match is_alive(db, now, owners.last()) {
                Err(e) => Err(e),
                Ok(true) => Ok(rest.push(owners.last())),
                Ok(false) => Ok(rest),
            },
        }
    }
}

/// The owner recorded on a path, if its lease is live.
pub open spec fn live_owner(db: DbView, now: u64, cf: Cf, path: Seq<char>) -> Result<
    Option<Seq<char>>,
    ErrorView,
> {
    match read_text(db, now, cf, utf8(path)) {
        Err(e) => Err(e),
        Ok(None) => Ok(None),
        Ok(Some(o)) => match is_alive(db, now, o) {
            Err(e) => Err(e),
            Ok(true) => Ok(Some(o)),
            Ok(false) => Ok(None),
        },
    }
}

/// The owners of live read locks on a path.
pub open spec fn live_readers(db: DbView, now: u64, path: Seq<char>) -> Result<
    Seq<Seq<char>>,
    ErrorView,
> {
    match read_members(db, now, Cf::ReadLocks, utf8(path), MAX_SET_ENUM_MEMBERS) {
        Err(e) => Err(e),
        Ok(owners) => only_live(db, now, owners),
    }
}

fn find_live_owner<T: StoreTxn>(tx: &mut T, cf: Cf, path: &str) -> (r: Result<
    Option<String>,
    StoreError,
>)
    ensures
        final(tx).state() == old(tx).state(),
        is_text(r, live_owner(old(tx).state().db, old(tx).state().now, cf, path@)),
{
    match tx.get_str(cf, path.as_bytes()) {
        Err(e) => Err(e),
        Ok(None) => Ok(None),
        Ok(Some(o)) => match is_owner_alive_inner(tx, o.as_str()) {
            Err(e) => Err(e),
            Ok(true) => Ok(Some(o)),
            Ok(false) => Ok(None),
        },
    }
}

proof fn lemma_only_live_stops(db: DbView, now: u64, owners: Seq<Seq<char>>, n: int)
    requires
        0 <= n <= owners.len(),
        only_live(db, now, owners.take(n)) is Err,
    ensures
        only_live(db, now, owners) == only_live(db, now, owners.take(n)),
    decreases owners.len() - n,
{
    if n == owners.len() {
        assert(owners.take(n) =~= owners);
    } else {
        assert(owners.take(n + 1).drop_last() =~= owners.take(n));
        lemma_only_live_stops(db, now, owners, n + 1);
    }
}

fn find_live_readers<T: StoreTxn>(tx: &mut T, path: &str) -> (r: Result<Vec<String>, StoreError>)
    ensures
        final(tx).state() == old(tx).state(),
        is_texts(r, live_readers(old(tx).state().db, old(tx).state().now, path@)),
{
    let ghost t = tx.state();
    let owners = match tx.smembers_limited(Cf::ReadLocks, path.as_bytes(), MAX_SET_ENUM_MEMBERS) {
        Err(e) => {
            return Err(e);
        },
        Ok(owners) => owners,
    };
    let ghost all = texts(owners@);
    let mut out: Vec<String> = Vec::new();
    let mut i: usize = 0;
    assert(all.take(0) =~= Seq::<Seq<char>>::empty());
    assert(texts(out@) =~= Seq::<Seq<char>>::empty());
    while i < owners.len()
        invariant
            i <= owners@.len(),
            all == texts(owners@),
            t == old(tx).state(),
            tx.state() == t,
            live_readers(t.db, t.now, path@) == only_live(t.db, t.now, all),
            only_live(t.db, t.now, all.take(i as int)) == Ok::<Seq<Seq<char>>, ErrorView>(
                texts(out@),
            ),
        decreases owners@.len() - i,
    {
        let ghost before = texts(out@);
        assert(all.take(i + 1).drop_last() =~= all.take(i as int));
        assert(all.take(i + 1).last() == owners@[i as int]@);
        match is_owner_alive_inner(tx, owners[i].as_str()) {
            Err(e) => {
                proof {
                    lemma_only_live_stops(t.db, t.now, all, i + 1);
                }
                return Err(e);
            },
            Ok(alive) => {
                if alive {
                    out.push(owners[i].clone());
                    assert(texts(out@) =~= before.push(owners@[i as int]@));
                }
            },
        }
        i = i + 1;
    }
    assert(all.take(all.len() as int) =~= all);
    Ok(out)
}

/// The live locks and claim on one path, and its fence.
pub open spec fn path_info(db: DbView, now: u64, path: Seq<char>) -> Result<PathView, ErrorView> {
    match live_owner(db, now, Cf::WriteLocks, path) {
        Err(e) => Err(e),
        Ok(writer) => match live_readers(db, now, path) {
            Err(e) => Err(e),
            Ok(readers) => match fence_of(db, now, path) {
                Err(e) => Err(e),
                Ok(fence) => match live_owner(db, now, Cf::Claims, path) {
                    Err(e) => Err(e),
                    Ok(claimant) => Ok(PathView { writer, readers, fence, claimant }),
                },
            },
        },
    }
}

/// The live locks and claim on one path, and its fence.
pub fn inspect_path_inner<T: StoreTxn>(tx: &mut T, path: &str) -> (r: Result<PathInfo, StoreError>)
    ensures
        final(tx).state() == old(tx).state(),
        match (r, path_info(old(tx).state().db, old(tx).state().now, path@)) {
            (Ok(info), Ok(v)) => info@ == v,
            (Err(e), Err(f)) => e@ == f,
            _ => false,
        },
{
    let write_owner = match find_live_owner(tx, Cf::WriteLocks, path) {
        Err(e) => {
            return Err(e);
        },
        Ok(o) => o,
    };
    let read_owners = match find_live_readers(tx, path) {
        Err(e) => {
            return Err(e);
        },
        Ok(v) => v,
    };
    let fence = match get_fence(tx, path) {
        Err(e) => {
            return Err(e);
        },
        Ok(f) => f,
    };
    let claim_owner = match find_live_owner(tx, Cf::Claims, path) {
        Err(e) => {
            return Err(e);
        },
        Ok(o) => o,
    };
    Ok(PathInfo { write_owner, read_owners, fence, claim_owner })
}

pub open spec fn owned_view(v: Seq<OwnedLock>) -> Seq<RelView> {
    Seq::new(v.len(), |i: int| RelView { path: v[i].path@, mode: v[i].mode })
}

/// Whether an owner's lease is live, and the locks in its list of holdings.
pub open spec fn owner_locks(db: DbView, now: u64, owner: Seq<char>) -> Result<
    (bool, Seq<RelView>),
    ErrorView,
> {
    match is_alive(db, now, owner) {
        Err(e) => Err(e),
        Ok(alive) => match holdings(db, now, owner) {
            Err(e) => Err(e),
            Ok(locks) => Ok((alive, locks)),
        },
    }
}

/// Whether an owner's lease is live, and the locks in its list of holdings.
pub fn list_owner_locks_inner<T: StoreTxn>(tx: &mut T, owner: &str) -> (r: Result<
    (bool, Vec<OwnedLock>),
    StoreError,
>)
    ensures
        final(tx).state() == old(tx).state(),
        match (r, owner_locks(old(tx).state().db, old(tx).state().now, owner@)) {
            (Ok((a, v)), Ok((alive, locks))) => a == alive && owned_view(v@) == locks,
            (Err(e), Err(f)) => e@ == f,
            _ => false,
        },
{
    let alive = match is_owner_alive_inner(tx, owner) {
        Err(e) => {
            return Err(e);
        },
        Ok(alive) => alive,
    };
    let rels = match list_holdings(tx, owner) {
        Err(e) => {
            return Err(e);
        },
        Ok(rels) => rels,
    };
    let mut out: Vec<OwnedLock> = Vec::new();
    let mut i: usize = 0;
    while i < rels.len()
        invariant
            i <= rels@.len(),
            out@.len() == i,
            forall|j: int|
                0 <= j < i ==> (#[trigger] out@[j]).path@ == rels@[j].path@ && out@[j].mode
                    == rels@[j].mode,
        decreases rels@.len() - i,
    {
        out.push(OwnedLock { path: rels[i].path.clone(), mode: rels[i].mode });
        i = i + 1;
    }
    assert(owned_view(out@) =~= rels_view(rels@));
    Ok((alive, out))
}

} // verus!
