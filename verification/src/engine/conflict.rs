//! What stands in the way of a lock: the locks and claims of other owners that
//! overlap it.

use vstd::prelude::*;
use crate::db::DbView;
use crate::engine::path::{ancestors, get_ancestors};
use crate::engine::steps::{steps_view, Step, StepView};
use crate::engine::types::{Mode, Reason};
use crate::store_keys::{Cf, MAX_SET_ENUM_MEMBERS};
use crate::store_rocksdb::{
    is_bool, read_member, read_members, read_text, ErrorView, StoreError, StoreTxn,
};
use crate::text::{split_at_nul, split_nul, str_eq, texts, utf8};

verus! {

/// A lock or claim that overlaps a requested lock.
pub struct Blocker {
    pub path: String,
    pub owner: String,
    pub reason: Reason,
}

/// A lock or claim that overlaps a requested lock.
pub struct BlockerView {
    pub path: Seq<char>,
    pub owner: Seq<char>,
    pub reason: Reason,
}

impl Blocker {
    pub open spec fn view(&self) -> BlockerView {
        BlockerView { path: self.path@, owner: self.owner@, reason: self.reason }
    }
}

pub open spec fn blockers_view(v: Seq<Blocker>) -> Seq<BlockerView> {
    Seq::new(v.len(), |i: int| v[i]@)
}

pub type Found = Result<Seq<BlockerView>, ErrorView>;

/// Whether a result is the given one, by the view of what it holds.
pub open spec fn is_found(r: Result<Vec<Blocker>, StoreError>, s: Found) -> bool {
    match (r, s) {
        (Ok(a), Ok(b)) => blockers_view(a@) == b,
        (Err(e), Err(f)) => e@ == f,
        _ => false,
    }
}

/// The mode of the lock that a blocker is, if it is a lock.
pub open spec fn lock_of(reason: Reason) -> Option<Mode> {
    match reason {
        Reason::AncestorLocked => Some(Mode::Write),
        Reason::WriteLocked => Some(Mode::Write),
        Reason::DescendantWriteLocked => Some(Mode::Write),
        Reason::ReadLocked => Some(Mode::Read),
        Reason::DescendantReadLocked => Some(Mode::Read),
        _ => None,
    }
}

/// The first list and then the second, or the first error.
pub open spec fn both(a: Found, b: Found) -> Found {
    match a {
        Err(e) => Err(e),
        Ok(x) => match b {
            Err(e) => Err(e),
            Ok(y) => Ok(x + y),
        },
    }
}

/// The write locks (or claims) on the given paths.
pub open spec fn on_paths(
    db: DbView,
    now: u64,
    cf: Cf,
    paths: Seq<Seq<char>>,
    reason: Reason,
) -> Found
    decreases paths.len(),
{
    if paths.len() == 0 {
        Ok(Seq::empty())
    } else {
        match on_paths(db, now, cf, paths.drop_last(), reason) {
            Err(e) => Err(e),
            Ok(rest) => match read_text(db, now, cf, utf8(paths.last())) {
                Err(e) => Err(e),
                Ok(None) => Ok(rest),
                Ok(Some(owner)) => Ok(rest.push(BlockerView { path: paths.last(), owner, reason })),
            },
        }
    }
}

/// The read locks on a path.
pub open spec fn readers_of(path: Seq<char>, owners: Seq<Seq<char>>) -> Seq<BlockerView> {
    Seq::new(
        owners.len(),
        |i: int| BlockerView { path, owner: owners[i], reason: Reason::ReadLocked },
    )
}

/// The read locks that the given entries of the index stand for, without those
/// that are gone.
pub open spec fn readers_below(db: DbView, now: u64, entries: Seq<Seq<char>>) -> Found
    decreases entries.len(),
{
    if entries.len() == 0 {
        Ok(Seq::empty())
    } else {
        match readers_below(db, now, entries.drop_last()) {
            Err(e) => Err(e),
            Ok(rest) => match split_nul(entries.last()) {
                None => Ok(rest),
                Some((path, owner)) => match read_member(
                    db,
                    now,
                    Cf::ReadLocks,
                    utf8(path),
                    owner,
                ) {
                    Err(e) => Err(e),
                    Ok(false) => Ok(rest),
                    Ok(true) => Ok(
                        rest.push(
                            BlockerView { path, owner, reason: Reason::DescendantReadLocked },
                        ),
                    ),
                },
            },
        }
    }
}

/// What a lookup of a set of paths finds.
pub open spec fn on_indexed(
    db: DbView,
    now: u64,
    index: Cf,
    path: Seq<char>,
    cf: Cf,
    reason: Reason,
) -> Found {
    match read_members(db, now, index, utf8(path), MAX_SET_ENUM_MEMBERS) {
        Err(e) => Err(e),
        Ok(paths) => on_paths(db, now, cf, paths, reason),
    }
}

/// The read locks on a path.
pub open spec fn readers_on(db: DbView, now: u64, path: Seq<char>) -> Found {
    match read_members(db, now, Cf::ReadLocks, utf8(path), MAX_SET_ENUM_MEMBERS) {
        Err(e) => Err(e),
        Ok(owners) => Ok(readers_of(path, owners)),
    }
}

/// The read locks below a path.
pub open spec fn readers_under(db: DbView, now: u64, path: Seq<char>) -> Found {
    match read_members(db, now, Cf::DescRead, utf8(path), MAX_SET_ENUM_MEMBERS) {
        Err(e) => Err(e),
        Ok(entries) => readers_below(db, now, entries),
    }
}

/// What only a write lock on the path overlaps: the read locks on it and the
/// locks below it.
pub open spec fn inside(db: DbView, now: u64, path: Seq<char>) -> Found {
    both(
        readers_on(db, now, path),
        both(
            on_indexed(
                db,
                now,
                Cf::DescWrite,
                path,
                Cf::WriteLocks,
                Reason::DescendantWriteLocked,
            ),
            readers_under(db, now, path),
        ),
    )
}

/// The claims that overlap a lock.
pub open spec fn claims_on(db: DbView, now: u64, path: Seq<char>, mode: Mode) -> Found {
    both(
        on_paths(db, now, Cf::Claims, seq![path], Reason::PreemptClaimed),
        both(
            on_paths(db, now, Cf::Claims, ancestors(path), Reason::PreemptClaimedAbove),
            match mode {
                Mode::Read => Ok(Seq::empty()),
                Mode::Write => on_indexed(
                    db,
                    now,
                    Cf::DescClaim,
                    path,
                    Cf::Claims,
                    Reason::PreemptClaimed,
                ),
            },
        ),
    )
}

/// The locks and claims that overlap a lock, whoever owns them: write locks above
/// and on the path; for a write lock, read locks on the path and all locks below
/// it; then claims.
pub open spec fn overlapping(db: DbView, now: u64, path: Seq<char>, mode: Mode) -> Found {
    both(
        on_paths(db, now, Cf::WriteLocks, ancestors(path), Reason::AncestorLocked),
        both(
            on_paths(db, now, Cf::WriteLocks, seq![path], Reason::WriteLocked),
            both(
                match mode {
                    Mode::Read => Ok(Seq::empty()),
                    Mode::Write => inside(db, now, path),
                },
                claims_on(db, now, path, mode),
            ),
        ),
    )
}

/// Whether an owner's lease is live.
pub open spec fn is_alive(db: DbView, now: u64, owner: Seq<char>) -> Result<bool, ErrorView> {
    match read_text(db, now, Cf::OwnerAlive, utf8(owner)) {
        Ok(t) => Ok(t is Some),
        Err(e) => Err(e),
    }
}

/// The first blocker of another owner whose lease is live.
pub open spec fn first_live(
    db: DbView,
    now: u64,
    owner: Seq<char>,
    found: Seq<BlockerView>,
) -> Result<Option<BlockerView>, ErrorView>
    decreases found.len(),
{
    if found.len() == 0 {
        Ok(None)
    } else if found[0].owner == owner {
        first_live(db, now, owner, found.drop_first())
    } else {
        match is_alive(db, now, found[0].owner) {
            Err(e) => Err(e),
            Ok(true) => Ok(Some(found[0])),
            Ok(false) => first_live(db, now, owner, found.drop_first()),
        }
    }
}

/// What taking a lock clears away once no live owner is in its way: the locks of
/// other owners that overlap it, and the owner's own claims on it and below it.
pub open spec fn clearing(owner: Seq<char>, found: Seq<BlockerView>) -> Seq<StepView>
    decreases found.len(),
{
    if found.len() == 0 {
        Seq::empty()
    } else {
        let rest = clearing(owner, found.drop_last());
        let b = found.last();
        match lock_of(b.reason) {
            Some(mode) => if b.owner != owner {
                rest.push(StepView::Drop { owner: b.owner, mode, path: b.path })
            } else {
                rest
            },
            None => if b.reason == Reason::PreemptClaimed && b.owner == owner {
                rest.push(StepView::DropClaim { path: b.path })
            } else {
                rest
            },
        }
    }
}

// ---------------------------------------------------------------------------
// Execution
// ---------------------------------------------------------------------------

/// Whether an owner's lease is live.
pub fn is_owner_alive_inner<T: StoreTxn>(tx: &mut T, owner: &str) -> (r: Result<bool, StoreError>)
    ensures
        final(tx).state() == old(tx).state(),
        is_bool(r, is_alive(old(tx).state().db, old(tx).state().now, owner@)),
{
    match tx.get_str(Cf::OwnerAlive, owner.as_bytes()) {
        Ok(t) => Ok(t.is_some()),
        Err(e) => Err(e),
    }
}

fn find_on_paths<T: StoreTxn>(tx: &mut T, cf: Cf, paths: &Vec<String>, reason: Reason) -> (r: Result<
    Vec<Blocker>,
    StoreError,
>)
    ensures
        final(tx).state() == old(tx).state(),
        is_found(
            r,
            on_paths(old(tx).state().db, old(tx).state().now, cf, texts(paths@), reason),
        ),
{
    let ghost t = tx.state();
    let ghost all = texts(paths@);
    let mut out: Vec<Blocker> = Vec::new();
    let mut i: usize = 0;
    assert(all.take(0) =~= Seq::<Seq<char>>::empty());
    assert(blockers_view(out@) =~= Seq::<BlockerView>::empty());
    while i < paths.len()
        invariant
            i <= paths@.len(),
            all == texts(paths@),
            t == old(tx).state(),
            tx.state() == t,
            on_paths(t.db, t.now, cf, all.take(i as int), reason) == Ok::<
                Seq<BlockerView>,
                ErrorView,
            >(blockers_view(out@)),
        decreases paths@.len() - i,
    {
        let ghost before = blockers_view(out@);
        assert(all.take(i + 1).drop_last() =~= all.take(i as int));
        match tx.get_str(cf, paths[i].as_str().as_bytes()) {
            Err(e) => {
                proof {
                    lemma_on_paths_error(t.db, t.now, cf, all, reason, i + 1);
                }
                return Err(e);
            },
            Ok(None) => {},
            Ok(Some(owner)) => {
                out.push(Blocker { path: paths[i].clone(), owner, reason });
                assert(blockers_view(out@) =~= before.push(out@.last()@));
            },
        }
        i = i + 1;
    }
    assert(all.take(all.len() as int) =~= all);
    Ok(out)
}

proof fn lemma_on_paths_error(
    db: DbView,
    now: u64,
    cf: Cf,
    paths: Seq<Seq<char>>,
    reason: Reason,
    n: int,
)
    requires
        0 <= n <= paths.len(),
        on_paths(db, now, cf, paths.take(n), reason) is Err,
    ensures
        on_paths(db, now, cf, paths, reason) == on_paths(db, now, cf, paths.take(n), reason),
    decreases paths.len() - n,
{
    if n == paths.len() {
        assert(paths.take(n) =~= paths);
    } else {
        assert(paths.take(n + 1).drop_last() =~= paths.take(n));
        lemma_on_paths_error(db, now, cf, paths, reason, n + 1);
    }
}

fn find_on_path<T: StoreTxn>(tx: &mut T, cf: Cf, path: &str, reason: Reason) -> (r: Result<
    Vec<Blocker>,
    StoreError,
>)
    ensures
        final(tx).state() == old(tx).state(),
        is_found(
            r,
            on_paths(old(tx).state().db, old(tx).state().now, cf, seq![path@], reason),
        ),
{
    let mut one: Vec<String> = Vec::new();
    one.push(path.to_owned());
    assert(texts(one@) =~= seq![path@]);
    find_on_paths(tx, cf, &one, reason)
}

fn find_on_indexed<T: StoreTxn>(
    tx: &mut T,
    index: Cf,
    path: &str,
    cf: Cf,
    reason: Reason,
) -> (r: Result<Vec<Blocker>, StoreError>)
    ensures
        final(tx).state() == old(tx).state(),
        is_found(
            r,
            on_indexed(old(tx).state().db, old(tx).state().now, index, path@, cf, reason),
        ),
{
    match tx.smembers_limited(index, path.as_bytes(), MAX_SET_ENUM_MEMBERS) {
        Err(e) => Err(e),
        Ok(paths) => find_on_paths(tx, cf, &paths, reason),
    }
}

fn find_readers_on<T: StoreTxn>(tx: &mut T, path: &str) -> (r: Result<Vec<Blocker>, StoreError>)
    ensures
        final(tx).state() == old(tx).state(),
        is_found(r, readers_on(old(tx).state().db, old(tx).state().now, path@)),
{
    match tx.smembers_limited(Cf::ReadLocks, path.as_bytes(), MAX_SET_ENUM_MEMBERS) {
        Err(e) => Err(e),
        Ok(owners) => {
            let mut out: Vec<Blocker> = Vec::new();
            let mut i: usize = 0;
            while i < owners.len()
                invariant
                    i <= owners@.len(),
                    out@.len() == i,
                    forall|j: int|
                        0 <= j < i ==> (#[trigger] out@[j])@ == (BlockerView {
                            path: path@,
                            owner: owners@[j]@,
                            reason: Reason::ReadLocked,
                        }),
                decreases owners@.len() - i,
            {
                out.push(
                    Blocker {
                        path: path.to_owned(),
                        owner: owners[i].clone(),
                        reason: Reason::ReadLocked,
                    },
                );
                i = i + 1;
            }
            assert(blockers_view(out@) =~= readers_of(path@, texts(owners@)));
            Ok(out)
        },
    }
}

fn find_readers_under<T: StoreTxn>(tx: &mut T, path: &str) -> (r: Result<Vec<Blocker>, StoreError>)
    ensures
        final(tx).state() == old(tx).state(),
        is_found(r, readers_under(old(tx).state().db, old(tx).state().now, path@)),
{
    let ghost t = tx.state();
    let entries = match tx.smembers_limited(Cf::DescRead, path.as_bytes(), MAX_SET_ENUM_MEMBERS) {
        Err(e) => {
            return Err(e);
        },
        Ok(entries) => entries,
    };
    let ghost all = texts(entries@);
    let mut out: Vec<Blocker> = Vec::new();
    let mut i: usize = 0;
    assert(all.take(0) =~= Seq::<Seq<char>>::empty());
    assert(blockers_view(out@) =~= Seq::<BlockerView>::empty());
    while i < entries.len()
        invariant
            i <= entries@.len(),
            all == texts(entries@),
            t == old(tx).state(),
            tx.state() == t,
            readers_under(t.db, t.now, path@) == readers_below(t.db, t.now, all),
            readers_below(t.db, t.now, all.take(i as int)) == Ok::<Seq<BlockerView>, ErrorView>(
                blockers_view(out@),
            ),
        decreases entries@.len() - i,
    {
        let ghost before = blockers_view(out@);
        assert(all.take(i + 1).drop_last() =~= all.take(i as int));
        assert(all.take(i + 1).last() == entries@[i as int]@);
        if let Some((q, owner)) = split_at_nul(entries[i].as_str()) {
            match tx.sismember(Cf::ReadLocks, q.as_str().as_bytes(), owner.as_str()) {
                Err(e) => {
                    proof {
                        lemma_readers_below_error(t.db, t.now, all, i + 1);
                    }
                    return Err(e);
                },
                Ok(held) => {
                    if held {
                        out.push(
                            Blocker { path: q, owner, reason: Reason::DescendantReadLocked },
                        );
                        assert(blockers_view(out@) =~= before.push(out@.last()@));
                    }
                },
            }
        }
        i = i + 1;
    }
    assert(all.take(all.len() as int) =~= all);
    Ok(out)
}

proof fn lemma_readers_below_error(db: DbView, now: u64, entries: Seq<Seq<char>>, n: int)
    requires
        0 <= n <= entries.len(),
        readers_below(db, now, entries.take(n)) is Err,
    ensures
        readers_below(db, now, entries) == readers_below(db, now, entries.take(n)),
    decreases entries.len() - n,
{
    if n == entries.len() {
        assert(entries.take(n) =~= entries);
    } else {
        assert(entries.take(n + 1).drop_last() =~= entries.take(n));
        lemma_readers_below_error(db, now, entries, n + 1);
    }
}

fn append(a: &mut Vec<Blocker>, b: Vec<Blocker>)
    ensures
        blockers_view(final(a)@) == blockers_view(old(a)@) + blockers_view(b@),
{
    let ghost added = b@;
    let mut rest = b;
    a.append(&mut rest);
    assert(blockers_view(a@) =~= blockers_view(old(a)@) + blockers_view(added));
}

proof fn lemma_sum5(
    a: Seq<BlockerView>,
    b: Seq<BlockerView>,
    c: Seq<BlockerView>,
    d: Seq<BlockerView>,
    e: Seq<BlockerView>,
)
    ensures
        a + (b + (c + (d + e))) == a + b + c + d + e,
        a + (b + (c + d)) == a + b + c + d,
        a + (b + c) == a + b + c,
{
    assert(a + (b + (c + (d + e))) =~= a + b + c + d + e);
    assert(a + (b + (c + d)) =~= a + b + c + d);
    assert(a + (b + c) =~= a + b + c);
}

fn find_inside<T: StoreTxn>(tx: &mut T, path: &str) -> (r: Result<Vec<Blocker>, StoreError>)
    ensures
        final(tx).state() == old(tx).state(),
        is_found(r, inside(old(tx).state().db, old(tx).state().now, path@)),
{
    let mut out = match find_readers_on(tx, path) {
        Err(e) => {
            return Err(e);
        },
        Ok(v) => v,
    };
    let ghost a = blockers_view(out@);
    let writes = match find_on_indexed(
        tx,
        Cf::DescWrite,
        path,
        Cf::WriteLocks,
        Reason::DescendantWriteLocked,
    ) {
        Err(e) => {
            return Err(e);
        },
        Ok(v) => v,
    };
    let reads = match find_readers_under(tx, path) {
        Err(e) => {
            return Err(e);
        },
        Ok(v) => v,
    };
    proof {
        lemma_sum5(a, blockers_view(writes@), blockers_view(reads@), Seq::empty(), Seq::empty());
    }
    append(&mut out, writes);
    append(&mut out, reads);
    Ok(out)
}

fn find_claims<T: StoreTxn>(tx: &mut T, path: &str, ups: &Vec<String>, mode: Mode) -> (r: Result<
    Vec<Blocker>,
    StoreError,
>)
    requires
        texts(ups@) == ancestors(path@),
    ensures
        final(tx).state() == old(tx).state(),
        is_found(r, claims_on(old(tx).state().db, old(tx).state().now, path@, mode)),
{
    let mut out = match find_on_path(tx, Cf::Claims, path, Reason::PreemptClaimed) {
        Err(e) => {
            return Err(e);
        },
        Ok(v) => v,
    };
    let ghost a = blockers_view(out@);
    let above = match find_on_paths(tx, Cf::Claims, ups, Reason::PreemptClaimedAbove) {
        Err(e) => {
            return Err(e);
        },
        Ok(v) => v,
    };
    let below = match mode {
        Mode::Read => Vec::new(),
        Mode::Write => match find_on_indexed(
            tx,
            Cf::DescClaim,
            path,
            Cf::Claims,
            Reason::PreemptClaimed,
        ) {
            Err(e) => {
                return Err(e);
            },
            Ok(v) => v,
        },
    };
    proof {
        assert(mode == Mode::Read ==> blockers_view(below@) =~= Seq::<BlockerView>::empty());
        lemma_sum5(a, blockers_view(above@), blockers_view(below@), Seq::empty(), Seq::empty());
    }
    append(&mut out, above);
    append(&mut out, below);
    Ok(out)
}

/// The locks and claims that overlap a lock, whoever owns them.
pub fn find_overlapping<T: StoreTxn>(tx: &mut T, path: &str, mode: Mode) -> (r: Result<
    Vec<Blocker>,
    StoreError,
>)
    ensures
        final(tx).state() == old(tx).state(),
        is_found(r, overlapping(old(tx).state().db, old(tx).state().now, path@, mode)),
{
    let ups = get_ancestors(path);
    let mut out = match find_on_paths(tx, Cf::WriteLocks, &ups, Reason::AncestorLocked) {
        Err(e) => {
            return Err(e);
        },
        Ok(v) => v,
    };
    let ghost a = blockers_view(out@);
    let here = match find_on_path(tx, Cf::WriteLocks, path, Reason::WriteLocked) {
        Err(e) => {
            return Err(e);
        },
        Ok(v) => v,
    };
    let within = match mode {
        Mode::Read => Vec::new(),
        Mode::Write => match find_inside(tx, path) {
            Err(e) => {
                return Err(e);
            },
            Ok(v) => v,
        },
    };
    let claims = match find_claims(tx, path, &ups, mode) {
        Err(e) => {
            return Err(e);
        },
        Ok(v) => v,
    };
    proof {
        assert(mode == Mode::Read ==> blockers_view(within@) =~= Seq::<BlockerView>::empty());
        lemma_sum5(
            a,
            blockers_view(here@),
            blockers_view(within@),
            blockers_view(claims@),
            Seq::empty(),
        );
    }
    append(&mut out, here);
    append(&mut out, within);
    append(&mut out, claims);
    Ok(out)
}

/// The position of the first blocker of another owner whose lease is live.
pub fn find_first_live<T: StoreTxn>(tx: &mut T, owner: &str, found: &Vec<Blocker>) -> (r: Result<
    Option<usize>,
    StoreError,
>)
    ensures
        final(tx).state() == old(tx).state(),
        match (
            r,
            first_live(
                old(tx).state().db,
                old(tx).state().now,
                owner@,
                blockers_view(found@),
            ),
        ) {
            (Ok(Some(i)), Ok(Some(b))) => i < found@.len() && found@[i as int]@ == b,
            (Ok(None), Ok(None)) => true,
            (Err(e), Err(f)) => e@ == f,
            _ => false,
        },
{
    let ghost t = tx.state();
    let ghost all = blockers_view(found@);
    let mut i: usize = 0;
    assert(all.skip(0) =~= all);
    while i < found.len()
        invariant
            i <= found@.len(),
            all == blockers_view(found@),
            t == old(tx).state(),
            tx.state() == t,
            first_live(t.db, t.now, owner@, all) == first_live(
                t.db,
                t.now,
                owner@,
                all.skip(i as int),
            ),
        decreases found@.len() - i,
    {
        assert(all.skip(i as int).drop_first() =~= all.skip(i + 1));
        if !str_eq(found[i].owner.as_str(), owner) {
            match is_owner_alive_inner(tx, found[i].owner.as_str()) {
                Err(e) => {
                    return Err(e);
                },
                Ok(alive) => {
                    if alive {
                        return Ok(Some(i));
                    }
                },
            }
        }
        i = i + 1;
    }
    Ok(None)
}

/// What taking a lock clears away once no live owner is in its way.
pub fn clear_away(owner: &str, found: &Vec<Blocker>, out: &mut Vec<Step>)
    ensures
        steps_view(final(out)@) == steps_view(old(out)@) + clearing(owner@, blockers_view(found@)),
{
    let ghost all = blockers_view(found@);
    let ghost start = steps_view(out@);
    let mut i: usize = 0;
    assert(all.take(0) =~= Seq::<BlockerView>::empty());
    assert(start + Seq::<StepView>::empty() =~= start);
    while i < found.len()
        invariant
            i <= found@.len(),
            all == blockers_view(found@),
            steps_view(out@) == start + clearing(owner@, all.take(i as int)),
        decreases found@.len() - i,
    {
        let b = &found[i];
        let ghost before = steps_view(out@);
        assert(all.take(i + 1).drop_last() =~= all.take(i as int));
        assert(all.take(i + 1).last() == b@);
        let own = str_eq(b.owner.as_str(), owner);
        let mode = match b.reason {
            Reason::AncestorLocked => Some(Mode::Write),
            Reason::WriteLocked => Some(Mode::Write),
            Reason::DescendantWriteLocked => Some(Mode::Write),
            Reason::ReadLocked => Some(Mode::Read),
            Reason::DescendantReadLocked => Some(Mode::Read),
            _ => None,
        };
        match mode {
            Some(mode) => {
                if !own {
                    out.push(
                        Step::Drop { owner: b.owner.clone(), mode, path: b.path.clone() },
                    );
                    assert(steps_view(out@) =~= before.push(out@.last()@));
                }
            },
            None => {
                if b.reason == Reason::PreemptClaimed && own {
                    out.push(Step::DropClaim { path: b.path.clone() });
                    assert(steps_view(out@) =~= before.push(out@.last()@));
                }
            },
        }
        assert(steps_view(out@) =~= start + clearing(owner@, all.take(i + 1)));
        i = i + 1;
    }
    assert(all.take(all.len() as int) =~= all);
}

} // verus!
