//! The operations that change lock state. Each reads the state, decides what becomes
//! of it, and writes the steps that it decided on, all or none.

use vstd::prelude::*;
use crate::db::{applied, DbView};
use crate::engine::conflict::{
    clear_away, clearing, find_first_live, find_overlapping, first_live, is_alive,
    is_owner_alive_inner, overlapping,
};
use crate::engine::edge::{edge_text, encode_edge};
use crate::engine::steps::{
    after_steps, lemma_steps_concat, parse_hold, read_hold, refuses, run_steps, step_puts,
    steps_ops, steps_view, wrote, Step, StepView,
};
use crate::engine::types::{
    opt_meta, reason_text, rels_view, reqs_view, AcquireArgs, AcquireOutcome, AcquireView, ArgsView,
    LockReq, Mode, Reason, RelReq, RelView, RenewOutcome, RenewView, ReqView, State,
    WaitEdgeMetadata,
};
use crate::store_keys::{Cf, MAX_SET_ENUM_MEMBERS};
use crate::store_rocksdb::{
    has_live, lemma_with_ops, live_texts, member_rows, opt_text, page_of, read_member, read_members,
    read_text, ErrorView, StoreError, StoreTxn, TxnView,
};
use crate::text::{
    decimal_int, decimal_of_i64, parse_signed, parse_signed_spec, str_eq, texts, utf8,
};

verus! {

/// The lifetime of a claim for which none is given.
pub const DEFAULT_CLAIM_TTL_MS: u64 = 5_000;

// ---------------------------------------------------------------------------
// Fences
// ---------------------------------------------------------------------------

/// The fencing token of a path, if one is recorded.
pub open spec fn fence_of(db: DbView, now: u64, path: Seq<char>) -> Result<Option<i64>, ErrorView> {
    match read_text(db, now, Cf::Fences, utf8(path)) {
        Err(e) => Err(e),
        Ok(None) => Ok(None),
        Ok(Some(t)) => match parse_signed_spec(t) {
            Some(v) => Ok(Some(v)),
            None => Err(ErrorView::Undecodable),
        },
    }
}

/// The fencing token of a path, if one is recorded.
pub fn get_fence<T: StoreTxn>(tx: &mut T, path: &str) -> (r: Result<Option<i64>, StoreError>)
    ensures
        final(tx).state() == old(tx).state(),
        match (r, fence_of(old(tx).state().db, old(tx).state().now, path@)) {
            (Ok(a), Ok(b)) => a == b,
            (Err(e), Err(f)) => e@ == f,
            _ => false,
        },
{
    match tx.get_str(Cf::Fences, path.as_bytes()) {
        Err(e) => Err(e),
        Ok(None) => Ok(None),
        Ok(Some(t)) => match parse_signed(t.as_str()) {
            Some(v) => Ok(Some(v)),
            None => Err(StoreError::Undecodable),
        },
    }
}

// ---------------------------------------------------------------------------
// Acquire
// ---------------------------------------------------------------------------

/// What a check decided: the steps to clear the way, or the outcome of a refusal.
pub type Verdict = Result<Seq<StepView>, AcquireView>;

/// Whether the owner holds the lock.
pub open spec fn holds(db: DbView, now: u64, owner: Seq<char>, mode: Mode, path: Seq<char>) -> Result<
    bool,
    ErrorView,
> {
    match mode {
        Mode::Write => match read_text(db, now, Cf::WriteLocks, utf8(path)) {
            Err(e) => Err(e),
            Ok(o) => Ok(o == Some(owner)),
        },
        Mode::Read => read_member(db, now, Cf::ReadLocks, utf8(path), owner),
    }
}

/// The reason given for a lock that should be held and is not.
pub open spec fn missing(mode: Mode) -> Reason {
    match mode {
        Mode::Write => Reason::MissingWrite,
        Mode::Read => Reason::MissingRead,
    }
}

/// Whether the token may take a lock: a write lock needs a token that is not
/// below the recorded one.
pub open spec fn token_is_stale(db: DbView, now: u64, token: i64, req: ReqView) -> Result<
    bool,
    ErrorView,
> {
    match req.mode {
        Mode::Read => Ok(false),
        Mode::Write => match fence_of(db, now, req.path) {
            Err(e) => Err(e),
            Ok(Some(f)) => Ok(token < f),
            Ok(None) => Ok(false),
        },
    }
}

/// Whether one requested lock can be taken.
pub open spec fn check_request(
    db: DbView,
    now: u64,
    owner: Seq<char>,
    token: i64,
    req: ReqView,
) -> Result<Verdict, ErrorView> {
    match token_is_stale(db, now, token, req) {
        Err(e) => Err(e),
        Ok(true) => Ok(
            Err(
                AcquireView::Conflict {
                    path: req.path,
                    owner: Seq::empty(),
                    reason: reason_text(Reason::StaleFencingToken),
                },
            ),
        ),
        Ok(false) => match req.state {
            State::Held => match holds(db, now, owner, req.mode, req.path) {
                Err(e) => Err(e),
                Ok(true) => Ok(Ok(Seq::empty())),
                Ok(false) => Ok(
                    Err(
                        AcquireView::Lost {
                            path: req.path,
                            reason: reason_text(missing(req.mode)),
                        },
                    ),
                ),
            },
            State::New => match overlapping(db, now, req.path, req.mode) {
                Err(e) => Err(e),
                Ok(found) => match first_live(db, now, owner, found) {
                    Err(e) => Err(e),
                    Ok(Some(b)) => Ok(
                        Err(
                            AcquireView::Conflict {
                                path: b.path,
                                owner: b.owner,
                                reason: reason_text(b.reason),
                            },
                        ),
                    ),
                    Ok(None) => Ok(Ok(clearing(owner, found))),
                },
            },
        },
    }
}

/// Whether all the requested locks can be taken; the first that cannot decides.
pub open spec fn check_requests(
    db: DbView,
    now: u64,
    owner: Seq<char>,
    token: i64,
    reqs: Seq<ReqView>,
) -> Result<Verdict, ErrorView>
    decreases reqs.len(),
{
    if reqs.len() == 0 {
        Ok(Ok(Seq::empty()))
    } else {
        match check_requests(db, now, owner, token, reqs.drop_last()) {
            Err(e) => Err(e),
            Ok(Err(refusal)) => Ok(Err(refusal)),
            Ok(Ok(steps)) => match check_request(db, now, owner, token, reqs.last()) {
                Err(e) => Err(e),
                Ok(Err(refusal)) => Ok(Err(refusal)),
                Ok(Ok(more)) => Ok(Ok(steps + more)),
            },
        }
    }
}

/// The path of the first lock that is said to be held.
pub open spec fn first_held(reqs: Seq<ReqView>) -> Option<Seq<char>>
    decreases reqs.len(),
{
    if reqs.len() == 0 {
        None
    } else if reqs[0].state == State::Held {
        Some(reqs[0].path)
    } else {
        first_held(reqs.drop_first())
    }
}

/// The steps that give up locks. A write lock that another owner has taken
/// meanwhile is left to it.
pub open spec fn release_steps(
    db: DbView,
    now: u64,
    owner: Seq<char>,
    rels: Seq<RelView>,
) -> Result<Seq<StepView>, ErrorView>
    decreases rels.len(),
{
    if rels.len() == 0 {
        Ok(Seq::empty())
    } else {
        let rel = rels.last();
        match release_steps(db, now, owner, rels.drop_last()) {
            Err(e) => Err(e),
            Ok(steps) => match rel.mode {
                Mode::Read => Ok(
                    steps.push(StepView::Drop { owner, mode: Mode::Read, path: rel.path }),
                ),
                Mode::Write => match holds(db, now, owner, Mode::Write, rel.path) {
                    Err(e) => Err(e),
                    Ok(true) => Ok(
                        steps.push(StepView::Drop { owner, mode: Mode::Write, path: rel.path }),
                    ),
                    Ok(false) => Ok(
                        steps.push(StepView::Forget { owner, mode: Mode::Write, path: rel.path }),
                    ),
                },
            },
        }
    }
}

/// The steps that take one lock.
pub open spec fn grant(owner: Seq<char>, ttl: u64, token: i64, req: ReqView) -> Seq<StepView> {
    let hold = StepView::Hold { owner, mode: req.mode, path: req.path, ttl };
    match req.mode {
        Mode::Read => seq![hold],
        Mode::Write => seq![
            hold,
            StepView::Fence { path: req.path, token: decimal_int(token as int), ttl },
        ],
    }
}

/// The steps that take the requested locks.
pub open spec fn grants(owner: Seq<char>, ttl: u64, token: i64, reqs: Seq<ReqView>) -> Seq<StepView>
    decreases reqs.len(),
{
    if reqs.len() == 0 {
        Seq::empty()
    } else {
        grants(owner, ttl, token, reqs.drop_last()) + grant(owner, ttl, token, reqs.last())
    }
}

/// An owner that takes a lock is alive for the lease.
pub open spec fn alive_steps(owner: Seq<char>, ttl: u64, reqs: Seq<ReqView>) -> Seq<StepView> {
    if reqs.len() > 0 {
        seq![StepView::Alive { owner, ttl }]
    } else {
        Seq::empty()
    }
}

/// The outcome and the steps of an acquire. A refused one has no steps.
pub open spec fn acquire_plan(db: DbView, now: u64, args: ArgsView) -> Result<
    (AcquireView, Seq<StepView>),
    ErrorView,
> {
    let lease = if first_held(args.requests) is Some {
        is_alive(db, now, args.owner)
    } else {
        Ok(true)
    };
    match lease {
        Err(e) => Err(e),
        Ok(false) => Ok(
            (
                AcquireView::Lost {
                    path: first_held(args.requests)->0,
                    reason: reason_text(Reason::OwnerExpired),
                },
                Seq::empty(),
            ),
        ),
        Ok(true) => match check_requests(db, now, args.owner, args.token, args.requests) {
            Err(e) => Err(e),
            Ok(Err(refusal)) => Ok((refusal, Seq::empty())),
            Ok(Ok(clear)) => match release_steps(db, now, args.owner, args.releases) {
                Err(e) => Err(e),
                Ok(released) => Ok(
                    (
                        AcquireView::Granted,
                        clear + alive_steps(args.owner, args.ttl, args.requests) + released
                            + grants(args.owner, args.ttl, args.token, args.requests),
                    ),
                ),
            },
        },
    }
}

/// Whether the owner holds the lock.
pub fn holds_lock<T: StoreTxn>(tx: &mut T, owner: &str, mode: Mode, path: &str) -> (r: Result<
    bool,
    StoreError,
>)
    ensures
        final(tx).state() == old(tx).state(),
        crate::store_rocksdb::is_bool(
            r,
            holds(old(tx).state().db, old(tx).state().now, owner@, mode, path@),
        ),
{
    match mode {
        Mode::Write => match tx.get_str(Cf::WriteLocks, path.as_bytes()) {
            Err(e) => Err(e),
            Ok(None) => Ok(false),
            Ok(Some(o)) => Ok(str_eq(o.as_str(), owner)),
        },
        Mode::Read => tx.sismember(Cf::ReadLocks, path.as_bytes(), owner),
    }
}

fn missing_reason(mode: Mode) -> (r: Reason)
    ensures
        r == missing(mode),
{
    match mode {
        Mode::Write => Reason::MissingWrite,
        Mode::Read => Reason::MissingRead,
    }
}

/// Checks one requested lock; appends the steps that clear its way.
fn check_one<T: StoreTxn>(
    tx: &mut T,
    owner: &str,
    token: i64,
    req: &LockReq,
    out: &mut Vec<Step>,
) -> (r: Result<Option<AcquireOutcome>, StoreError>)
    ensures
        final(tx).state() == old(tx).state(),
        match (
            r,
            check_request(old(tx).state().db, old(tx).state().now, owner@, token, req@),
        ) {
            (Ok(None), Ok(Ok(steps))) => steps_view(final(out)@) == steps_view(old(out)@) + steps,
            (Ok(Some(o)), Ok(Err(refusal))) => o@ == refusal,
            (Err(e), Err(f)) => e@ == f,
            _ => false,
        },
{
    if req.mode == Mode::Write {
        match get_fence(tx, req.path.as_str()) {
            Err(e) => {
                return Err(e);
            },
            Ok(Some(f)) => {
                if token < f {
                    return Ok(
                        Some(
                            AcquireOutcome::Conflict {
                                path: req.path.clone(),
                                owner: String::new(),
                                reason: Reason::StaleFencingToken.text().to_owned(),
                            },
                        ),
                    );
                }
            },
            Ok(None) => {},
        }
    }
    match req.state {
        State::Held => match holds_lock(tx, owner, req.mode, req.path.as_str()) {
            Err(e) => Err(e),
            Ok(true) => {
                assert(steps_view(out@) + Seq::<StepView>::empty() =~= steps_view(out@));
                Ok(None)
            },
            Ok(false) => Ok(
                Some(
                    AcquireOutcome::Lost {
                        path: req.path.clone(),
                        reason: missing_reason(req.mode).text().to_owned(),
                    },
                ),
            ),
        },
        State::New => match find_overlapping(tx, req.path.as_str(), req.mode) {
            Err(e) => Err(e),
            Ok(found) => match find_first_live(tx, owner, &found) {
                Err(e) => Err(e),
                Ok(Some(i)) => {
                    let b = &found[i];
                    Ok(
                        Some(
                            AcquireOutcome::Conflict {
                                path: b.path.clone(),
                                owner: b.owner.clone(),
                                reason: b.reason.text().to_owned(),
                            },
                        ),
                    )
                },
                Ok(None) => {
                    clear_away(owner, &found, out);
                    Ok(None)
                },
            },
        },
    }
}

proof fn lemma_check_stops(
    db: DbView,
    now: u64,
    owner: Seq<char>,
    token: i64,
    reqs: Seq<ReqView>,
    n: int,
)
    requires
        0 <= n <= reqs.len(),
        !(check_requests(db, now, owner, token, reqs.take(n)) matches Ok(Ok(_))),
    ensures
        check_requests(db, now, owner, token, reqs) == check_requests(
            db,
            now,
            owner,
            token,
            reqs.take(n),
        ),
    decreases reqs.len() - n,
{
    if n == reqs.len() {
        assert(reqs.take(n) =~= reqs);
    } else {
        assert(reqs.take(n + 1).drop_last() =~= reqs.take(n));
        lemma_check_stops(db, now, owner, token, reqs, n + 1);
    }
}

/// Checks all the requested locks; gives the steps that clear their way.
fn check_all<T: StoreTxn>(tx: &mut T, owner: &str, token: i64, reqs: &Vec<LockReq>) -> (r: Result<
    Result<Vec<Step>, AcquireOutcome>,
    StoreError,
>)
    ensures
        final(tx).state() == old(tx).state(),
        match (
            r,
            check_requests(
                old(tx).state().db,
                old(tx).state().now,
                owner@,
                token,
                reqs_view(reqs@),
            ),
        ) {
            (Ok(Ok(v)), Ok(Ok(steps))) => steps_view(v@) == steps,
            (Ok(Err(o)), Ok(Err(refusal))) => o@ == refusal,
            (Err(e), Err(f)) => e@ == f,
            _ => false,
        },
{
    let ghost t = tx.state();
    let ghost all = reqs_view(reqs@);
    let mut out: Vec<Step> = Vec::new();
    let mut i: usize = 0;
    assert(all.take(0) =~= Seq::<ReqView>::empty());
    assert(steps_view(out@) =~= Seq::<StepView>::empty());
    while i < reqs.len()
        invariant
            i <= reqs@.len(),
            all == reqs_view(reqs@),
            t == old(tx).state(),
            tx.state() == t,
            check_requests(t.db, t.now, owner@, token, all.take(i as int)) == Ok::<
                Verdict,
                ErrorView,
            >(Ok(steps_view(out@))),
        decreases reqs@.len() - i,
    {
        assert(all.take(i + 1).drop_last() =~= all.take(i as int));
        assert(all.take(i + 1).last() == reqs@[i as int]@);
        match check_one(tx, owner, token, &reqs[i], &mut out) {
            Err(e) => {
                proof {
                    lemma_check_stops(t.db, t.now, owner@, token, all, i + 1);
                }
                return Err(e);
            },
            Ok(Some(refusal)) => {
                proof {
                    lemma_check_stops(t.db, t.now, owner@, token, all, i + 1);
                }
                return Ok(Err(refusal));
            },
            Ok(None) => {},
        }
        i = i + 1;
    }
    assert(all.take(all.len() as int) =~= all);
    Ok(Ok(out))
}

fn held_path(reqs: &Vec<LockReq>) -> (r: Option<String>)
    ensures
        opt_text(r) == first_held(reqs_view(reqs@)),
{
    let ghost all = reqs_view(reqs@);
    let mut i: usize = 0;
    assert(all.skip(0) =~= all);
    while i < reqs.len()
        invariant
            i <= reqs@.len(),
            all == reqs_view(reqs@),
            first_held(all) == first_held(all.skip(i as int)),
        decreases reqs@.len() - i,
    {
        assert(all.skip(i as int).drop_first() =~= all.skip(i + 1));
        assert(all.skip(i as int)[0] == reqs@[i as int]@);
        if reqs[i].state == State::Held {
            return Some(reqs[i].path.clone());
        }
        i = i + 1;
    }
    None
}

proof fn lemma_release_stops(
    db: DbView,
    now: u64,
    owner: Seq<char>,
    rels: Seq<RelView>,
    n: int,
)
    requires
        0 <= n <= rels.len(),
        release_steps(db, now, owner, rels.take(n)) is Err,
    ensures
        release_steps(db, now, owner, rels) == release_steps(db, now, owner, rels.take(n)),
    decreases rels.len() - n,
{
    if n == rels.len() {
        assert(rels.take(n) =~= rels);
    } else {
        assert(rels.take(n + 1).drop_last() =~= rels.take(n));
        lemma_release_stops(db, now, owner, rels, n + 1);
    }
}

/// The steps that give up locks.
fn plan_release<T: StoreTxn>(tx: &mut T, owner: &str, rels: &Vec<RelReq>) -> (r: Result<
    Vec<Step>,
    StoreError,
>)
    ensures
        final(tx).state() == old(tx).state(),
        match (
            r,
            release_steps(old(tx).state().db, old(tx).state().now, owner@, rels_view(rels@)),
        ) {
            (Ok(v), Ok(steps)) => steps_view(v@) == steps,
            (Err(e), Err(f)) => e@ == f,
            _ => false,
        },
{
    let ghost t = tx.state();
    let ghost all = rels_view(rels@);
    let mut out: Vec<Step> = Vec::new();
    let mut i: usize = 0;
    assert(all.take(0) =~= Seq::<RelView>::empty());
    assert(steps_view(out@) =~= Seq::<StepView>::empty());
    while i < rels.len()
        invariant
            i <= rels@.len(),
            all == rels_view(rels@),
            t == old(tx).state(),
            tx.state() == t,
            release_steps(t.db, t.now, owner@, all.take(i as int)) == Ok::<
                Seq<StepView>,
                ErrorView,
            >(steps_view(out@)),
        decreases rels@.len() - i,
    {
        let rel = &rels[i];
        let ghost before = steps_view(out@);
        assert(all.take(i + 1).drop_last() =~= all.take(i as int));
        assert(all.take(i + 1).last() == rel@);
        let held = match rel.mode {
            Mode::Read => true,
            Mode::Write => match holds_lock(tx, owner, Mode::Write, rel.path.as_str()) {
                Err(e) => {
                    proof {
                        lemma_release_stops(t.db, t.now, owner@, all, i + 1);
                    }
                    return Err(e);
                },
                Ok(held) => held,
            },
        };
        if held {
            out.push(
                Step::Drop { owner: owner.to_owned(), mode: rel.mode, path: rel.path.clone() },
            );
        } else {
            out.push(
                Step::Forget { owner: owner.to_owned(), mode: rel.mode, path: rel.path.clone() },
            );
        }
        assert(steps_view(out@) =~= before.push(out@.last()@));
        i = i + 1;
    }
    assert(all.take(all.len() as int) =~= all);
    Ok(out)
}

fn push_grants(owner: &str, ttl: u64, token: i64, reqs: &Vec<LockReq>, out: &mut Vec<Step>)
    ensures
        steps_view(final(out)@) == steps_view(old(out)@) + grants(
            owner@,
            ttl,
            token,
            reqs_view(reqs@),
        ),
{
    let ghost all = reqs_view(reqs@);
    let ghost start = steps_view(out@);
    let mut i: usize = 0;
    assert(all.take(0) =~= Seq::<ReqView>::empty());
    assert(start + Seq::<StepView>::empty() =~= start);
    while i < reqs.len()
        invariant
            i <= reqs@.len(),
            all == reqs_view(reqs@),
            steps_view(out@) == start + grants(owner@, ttl, token, all.take(i as int)),
        decreases reqs@.len() - i,
    {
        let req = &reqs[i];
        let ghost before = steps_view(out@);
        assert(all.take(i + 1).drop_last() =~= all.take(i as int));
        assert(all.take(i + 1).last() == req@);
        out.push(
            Step::Hold { owner: owner.to_owned(), mode: req.mode, path: req.path.clone(), ttl },
        );
        let ghost mid = steps_view(out@);
        assert(mid =~= before.push(out@.last()@));
        if req.mode == Mode::Write {
            out.push(Step::Fence { path: req.path.clone(), token: decimal_of_i64(token), ttl });
            assert(steps_view(out@) =~= mid.push(out@.last()@));
        }
        assert(steps_view(out@) =~= before + grant(owner@, ttl, token, req@));
        assert(steps_view(out@) =~= start + grants(owner@, ttl, token, all.take(i + 1)));
        i = i + 1;
    }
    assert(all.take(all.len() as int) =~= all);
}

fn append_steps(a: &mut Vec<Step>, b: Vec<Step>)
    ensures
        steps_view(final(a)@) == steps_view(old(a)@) + steps_view(b@),
{
    let ghost added = b@;
    let mut rest = b;
    a.append(&mut rest);
    assert(steps_view(a@) =~= steps_view(old(a)@) + steps_view(added));
}

/// Decides an acquire: its outcome, and its steps.
fn plan_acquire<T: StoreTxn>(tx: &mut T, args: &AcquireArgs) -> (r: Result<
    (AcquireOutcome, Vec<Step>),
    StoreError,
>)
    ensures
        final(tx).state() == old(tx).state(),
        match (r, acquire_plan(old(tx).state().db, old(tx).state().now, args@)) {
            (Ok((o, v)), Ok((outcome, steps))) => o@ == outcome && steps_view(v@) == steps,
            (Err(e), Err(f)) => e@ == f,
            _ => false,
        },
{
    let owner = args.owner_id.as_str();
    let none: Vec<Step> = Vec::new();
    assert(steps_view(none@) =~= Seq::<StepView>::empty());
    if let Some(path) = held_path(&args.requests) {
        match is_owner_alive_inner(tx, owner) {
            Err(e) => {
                return Err(e);
            },
            Ok(alive) => {
                if !alive {
                    let lost = AcquireOutcome::Lost {
                        path,
                        reason: Reason::OwnerExpired.text().to_owned(),
                    };
                    return Ok((lost, none));
                }
            },
        }
    }
    let mut steps = match check_all(tx, owner, args.fencing_token, &args.requests) {
        Err(e) => {
            return Err(e);
        },
        Ok(Err(refusal)) => {
            return Ok((refusal, none));
        },
        Ok(Ok(steps)) => steps,
    };
    let released = match plan_release(tx, owner, &args.release_requests) {
        Err(e) => {
            return Err(e);
        },
        Ok(steps) => steps,
    };
    let ghost clear = steps_view(steps@);
    if args.requests.len() > 0 {
        steps.push(Step::Alive { owner: owner.to_owned(), ttl: args.ttl_ms });
        assert(steps_view(steps@) =~= clear.push(steps@.last()@));
    }
    assert(steps_view(steps@) =~= clear + alive_steps(args@.owner, args@.ttl, args@.requests));
    append_steps(&mut steps, released);
    push_grants(owner, args.ttl_ms, args.fencing_token, &args.requests, &mut steps);
    Ok((AcquireOutcome::Granted, steps))
}

/// Takes and gives up locks as one: all the requested locks are taken and all the
/// named ones given up, or nothing changes.
pub fn acquire_inner<T: StoreTxn>(tx: &mut T, args: &AcquireArgs) -> (r: Result<
    AcquireOutcome,
    StoreError,
>)
    ensures
        match (r, acquire_plan(old(tx).state().db, old(tx).state().now, args@)) {
            (Ok(o), Ok((outcome, steps))) => o@ == outcome && !refuses(old(tx).state(), steps)
                && final(tx).state() == after_steps(old(tx).state(), steps),
            (Err(e), Ok((_, steps))) => e@ == ErrorView::ReadOnly && refuses(
                old(tx).state(),
                steps,
            ) && final(tx).state() == old(tx).state(),
            (Err(e), Err(f)) => e@ == f && final(tx).state() == old(tx).state(),
            (Ok(_), Err(_)) => false,
        },
{
    match plan_acquire(tx, args) {
        Err(e) => Err(e),
        Ok((outcome, steps)) => match run_steps(tx, &steps) {
            Err(e) => Err(e),
            Ok(_) => Ok(outcome),
        },
    }
}

// ---------------------------------------------------------------------------
// Release
// ---------------------------------------------------------------------------

/// The steps of a release: the locks are given up; an owner that has no live
/// holding once they are gone is no longer alive; the wait-for edge goes if asked
/// for.
pub open spec fn release_plan(
    db: DbView,
    now: u64,
    owner: Seq<char>,
    rels: Seq<RelView>,
    del_wait: bool,
) -> Result<Seq<StepView>, ErrorView> {
    match release_steps(db, now, owner, rels) {
        Err(e) => Err(e),
        Ok(steps) => Ok(
            steps + (if rels.len() > 0 && !has_live(
                applied(db, steps_ops(now, steps)),
                now,
                Cf::OwnerHolds,
                utf8(owner),
            ) {
                seq![StepView::NotAlive { owner }]
            } else {
                Seq::empty()
            }) + (if del_wait {
                seq![StepView::NoWait { owner }]
            } else {
                Seq::empty()
            }),
        ),
    }
}

/// Whether an operation without an outcome of its own did what its plan says. A
/// read-only transaction refuses a plan that writes something.
pub open spec fn did(
    before: TxnView,
    after: TxnView,
    r: Result<(), StoreError>,
    plan: Result<Seq<StepView>, ErrorView>,
) -> bool {
    match plan {
        Ok(steps) => wrote(before, after, r, steps),
        Err(f) => (r matches Err(e) && e@ == f) && after == before,
    }
}

/// Gives up the named locks of an owner.
pub fn release_inner<T: StoreTxn>(tx: &mut T, owner: &str, reqs: &Vec<RelReq>, del_wait: bool) -> (r:
    Result<(), StoreError>)
    ensures
        did(
            old(tx).state(),
            final(tx).state(),
            r,
            release_plan(
                old(tx).state().db,
                old(tx).state().now,
                owner@,
                rels_view(reqs@),
                del_wait,
            ),
        ),
{
    let ghost t = tx.state();
    let ghost plan = release_plan(t.db, t.now, owner@, rels_view(reqs@), del_wait);
    let steps = match plan_release(tx, owner, reqs) {
        Err(e) => {
            return Err(e);
        },
        Ok(steps) => steps,
    };
    let ghost released = steps_view(steps@);
    proof {
        lemma_release_only_removes(t.db, t.now, owner@, rels_view(reqs@));
    }
    if let Err(e) = run_steps(tx, &steps) {
        return Err(e);
    }
    let mut rest: Vec<Step> = Vec::new();
    if reqs.len() > 0 {
        match tx.has_live_member(Cf::OwnerHolds, owner.as_bytes()) {
            Err(e) => {
                return Err(e);
            },
            Ok(any) => {
                if !any {
                    rest.push(Step::NotAlive { owner: owner.to_owned() });
                }
            },
        }
    }
    if del_wait {
        rest.push(Step::NoWait { owner: owner.to_owned() });
    }
    proof {
        let more = steps_view(rest@);
        lemma_steps_concat(t.now, released, more);
        lemma_with_ops(t, steps_ops(t.now, released), steps_ops(t.now, more));
        if t.writable {
            assert(plan->Ok_0 =~= released + more);
        }
        assert forall|i: int| 0 <= i < plan->Ok_0.len() implies !step_puts(
            #[trigger] plan->Ok_0[i],
        ) by {
            if i < released.len() {
                assert(plan->Ok_0[i] == released[i]);
            }
        }
    }
    run_steps(tx, &rest)
}

/// Giving up locks only removes.
proof fn lemma_release_only_removes(db: DbView, now: u64, owner: Seq<char>, rels: Seq<RelView>)
    ensures
        release_steps(db, now, owner, rels) matches Ok(steps) ==> forall|i: int|
            0 <= i < steps.len() ==> !step_puts(#[trigger] steps[i]),
    decreases rels.len(),
{
    if rels.len() > 0 {
        let front = rels.drop_last();
        lemma_release_only_removes(db, now, owner, front);
        if let Ok(steps) = release_steps(db, now, owner, rels) {
            let rest = release_steps(db, now, owner, front)->Ok_0;
            assert forall|i: int| 0 <= i < steps.len() implies !step_puts(#[trigger] steps[i]) by {
                if i < rest.len() {
                    assert(steps[i] == rest[i]);
                }
            }
        }
    }
}

/// The locks in an owner's list of holdings.
pub open spec fn held_locks(entries: Seq<Seq<char>>) -> Seq<RelView>
    decreases entries.len(),
{
    if entries.len() == 0 {
        Seq::empty()
    } else {
        let rest = held_locks(entries.drop_last());
        match parse_hold(entries.last()) {
            Some((mode, path)) => rest.push(RelView { path, mode }),
            None => rest,
        }
    }
}

/// The locks in an owner's list of holdings.
pub open spec fn holdings(db: DbView, now: u64, owner: Seq<char>) -> Result<
    Seq<RelView>,
    ErrorView,
> {
    match read_members(db, now, Cf::OwnerHolds, utf8(owner), MAX_SET_ENUM_MEMBERS) {
        Err(e) => Err(e),
        Ok(entries) => Ok(held_locks(entries)),
    }
}

/// All the locks in an owner's list of holdings, however many.
pub open spec fn all_holdings(db: DbView, now: u64, owner: Seq<char>) -> Seq<RelView> {
    held_locks(
        live_texts(db, now, Cf::OwnerHolds, member_rows(db, Cf::OwnerHolds, utf8(owner))),
    )
}

/// The number of rows on a page of an owner's list of holdings.
pub const HOLDINGS_PAGE: usize = 4096;

fn read_holds(entries: &Vec<String>) -> (r: Vec<RelReq>)
    ensures
        rels_view(r@) == held_locks(texts(entries@)),
{
    let ghost all = texts(entries@);
    let mut out: Vec<RelReq> = Vec::new();
    let mut i: usize = 0;
    assert(all.take(0) =~= Seq::<Seq<char>>::empty());
    assert(rels_view(out@) =~= Seq::<RelView>::empty());
    while i < entries.len()
        invariant
            i <= entries@.len(),
            all == texts(entries@),
            rels_view(out@) == held_locks(all.take(i as int)),
        decreases entries@.len() - i,
    {
        let ghost before = rels_view(out@);
        assert(all.take(i + 1).drop_last() =~= all.take(i as int));
        assert(all.take(i + 1).last() == entries@[i as int]@);
        if let Some((mode, path)) = read_hold(entries[i].as_str()) {
            out.push(RelReq { path, mode });
            assert(rels_view(out@) =~= before.push(out@.last()@));
        }
        i = i + 1;
    }
    assert(all.take(all.len() as int) =~= all);
    out
}

/// The locks in an owner's list of holdings.
pub fn list_holdings<T: StoreTxn>(tx: &mut T, owner: &str) -> (r: Result<Vec<RelReq>, StoreError>)
    ensures
        final(tx).state() == old(tx).state(),
        match (r, holdings(old(tx).state().db, old(tx).state().now, owner@)) {
            (Ok(v), Ok(locks)) => rels_view(v@) == locks,
            (Err(e), Err(f)) => e@ == f,
            _ => false,
        },
{
    match tx.smembers_limited(Cf::OwnerHolds, owner.as_bytes(), MAX_SET_ENUM_MEMBERS) {
        Err(e) => Err(e),
        Ok(entries) => Ok(read_holds(&entries)),
    }
}

proof fn lemma_live_texts_concat(
    db: DbView,
    now: u64,
    cf: Cf,
    a: Seq<Seq<u8>>,
    b: Seq<Seq<u8>>,
)
    ensures
        live_texts(db, now, cf, a + b) == live_texts(db, now, cf, a) + live_texts(db, now, cf, b),
    decreases b.len(),
{
    if b.len() == 0 {
        assert(a + b =~= a);
    } else {
        assert((a + b).drop_last() =~= a + b.drop_last());
        lemma_live_texts_concat(db, now, cf, a, b.drop_last());
    }
    assert(live_texts(db, now, cf, a + b) =~= live_texts(db, now, cf, a) + live_texts(
        db,
        now,
        cf,
        b,
    ));
}

fn append_texts(out: &mut Vec<String>, more: Vec<String>)
    ensures
        texts(final(out)@) == texts(old(out)@) + texts(more@),
{
    let mut more = more;
    let ghost all = more@;
    out.append(&mut more);
    assert(texts(out@) =~= texts(old(out)@) + texts(all));
}

/// All the locks in an owner's list of holdings, read page by page.
pub fn list_all_holdings<T: StoreTxn>(tx: &mut T, owner: &str) -> (r: Vec<RelReq>)
    ensures
        final(tx).state() == old(tx).state(),
        rels_view(r@) == all_holdings(old(tx).state().db, old(tx).state().now, owner@),
{
    let ghost t = tx.state();
    let ghost rows = member_rows(t.db, Cf::OwnerHolds, utf8(owner@));
    let mut entries: Vec<String> = Vec::new();
    let mut from: usize = 0;
    let mut more = true;
    assert(rows.take(0) =~= Seq::<Seq<u8>>::empty());
    assert(texts(entries@) =~= Seq::<Seq<char>>::empty());
    while more
        invariant
            t == old(tx).state(),
            tx.state() == t,
            rows == member_rows(t.db, Cf::OwnerHolds, utf8(owner@)),
            more ==> from <= rows.len() && texts(entries@) == live_texts(
                t.db,
                t.now,
                Cf::OwnerHolds,
                rows.take(from as int),
            ),
            !more ==> texts(entries@) == live_texts(t.db, t.now, Cf::OwnerHolds, rows),
        decreases
                (if more {
                    rows.len() - from + 1
                } else {
                    0
                }),
    {
        let (page, rest) = tx.smembers_page(Cf::OwnerHolds, owner.as_bytes(), from, HOLDINGS_PAGE);
        proof {
            let part = page_of(rows, from as int, HOLDINGS_PAGE as int);
            lemma_live_texts_concat(t.db, t.now, Cf::OwnerHolds, rows.take(from as int), part);
            if rest {
                assert(rows.take(from as int) + part =~= rows.take(from + HOLDINGS_PAGE));
            } else {
                assert(rows.take(from as int) + part =~= rows);
            }
        }
        append_texts(&mut entries, page);
        if rest {
            from = from + HOLDINGS_PAGE;
        }
        more = rest;
    }
    read_holds(&entries)
}

/// The steps that give up all locks of an owner, and end its lease.
pub open spec fn release_all_plan(
    db: DbView,
    now: u64,
    owner: Seq<char>,
    del_wait: bool,
) -> Result<Seq<StepView>, ErrorView> {
    match release_steps(db, now, owner, all_holdings(db, now, owner)) {
        Err(e) => Err(e),
        Ok(steps) => Ok(
            steps.push(StepView::NotAlive { owner }) + (if del_wait {
                seq![StepView::NoWait { owner }]
            } else {
                Seq::empty()
            }),
        ),
    }
}

/// Gives up all locks of an owner and ends its lease.
pub fn release_all_inner<T: StoreTxn>(tx: &mut T, owner: &str, del_wait: bool) -> (r: Result<
    (),
    StoreError,
>)
    ensures
        did(
            old(tx).state(),
            final(tx).state(),
            r,
            release_all_plan(old(tx).state().db, old(tx).state().now, owner@, del_wait),
        ),
{
    let ghost t = tx.state();
    let rels = list_all_holdings(tx, owner);
    let mut steps = match plan_release(tx, owner, &rels) {
        Err(e) => {
            return Err(e);
        },
        Ok(steps) => steps,
    };
    let ghost released = steps_view(steps@);
    steps.push(Step::NotAlive { owner: owner.to_owned() });
    let ghost mid = steps_view(steps@);
    assert(mid =~= released.push(steps@.last()@));
    if del_wait {
        steps.push(Step::NoWait { owner: owner.to_owned() });
        assert(steps_view(steps@) =~= mid.push(steps@.last()@));
    }
    assert(release_all_plan(t.db, t.now, owner@, del_wait) matches Ok(s) && s =~= steps_view(
        steps@,
    ));
    run_steps(tx, &steps)
}

/// Takes all locks from an owner, ends its lease and removes its wait-for edge.
pub fn force_release_inner<T: StoreTxn>(tx: &mut T, victim: &str) -> (r: Result<(), StoreError>)
    ensures
        did(
            old(tx).state(),
            final(tx).state(),
            r,
            release_all_plan(old(tx).state().db, old(tx).state().now, victim@, true),
        ),
{
    release_all_inner(tx, victim, true)
}

// ---------------------------------------------------------------------------
// Renew
// ---------------------------------------------------------------------------

/// The step that keeps the fence of a write lock.
pub open spec fn keep_fence(db: DbView, now: u64, ttl: u64, lock: RelView) -> Result<
    Seq<StepView>,
    ErrorView,
> {
    match lock.mode {
        Mode::Read => Ok(Seq::empty()),
        Mode::Write => match read_text(db, now, Cf::Fences, utf8(lock.path)) {
            Err(e) => Err(e),
            Ok(None) => Ok(Seq::empty()),
            Ok(Some(token)) => Ok(seq![StepView::Fence { path: lock.path, token, ttl }]),
        },
    }
}

/// The steps that renew the given locks, or the first that is lost.
pub open spec fn renew_steps(
    db: DbView,
    now: u64,
    owner: Seq<char>,
    ttl: u64,
    locks: Seq<RelView>,
) -> Result<Result<Seq<StepView>, RenewView>, ErrorView>
    decreases locks.len(),
{
    if locks.len() == 0 {
        Ok(Ok(Seq::empty()))
    } else {
        let lock = locks.last();
        match renew_steps(db, now, owner, ttl, locks.drop_last()) {
            Err(e) => Err(e),
            Ok(Err(lost)) => Ok(Err(lost)),
            Ok(Ok(steps)) => match holds(db, now, owner, lock.mode, lock.path) {
                Err(e) => Err(e),
                Ok(false) => Ok(
                    Err(
                        RenewView::Lost {
                            path: lock.path,
                            reason: reason_text(missing(lock.mode)),
                        },
                    ),
                ),
                Ok(true) => match keep_fence(db, now, ttl, lock) {
                    Err(e) => Err(e),
                    Ok(fence) => Ok(
                        Ok(
                            steps.push(
                                StepView::Hold { owner, mode: lock.mode, path: lock.path, ttl },
                            ) + fence,
                        ),
                    ),
                },
            },
        }
    }
}

/// The outcome and the steps of a renewal.
pub open spec fn renew_plan(db: DbView, now: u64, owner: Seq<char>, ttl: u64) -> Result<
    (RenewView, Seq<StepView>),
    ErrorView,
> {
    match is_alive(db, now, owner) {
        Err(e) => Err(e),
        Ok(false) => Ok(
            (
                RenewView::Lost {
                    path: Seq::empty(),
                    reason: reason_text(Reason::OwnerExpired),
                },
                Seq::empty(),
            ),
        ),
        Ok(true) => match holdings(db, now, owner) {
            Err(e) => Err(e),
            Ok(locks) => match renew_steps(db, now, owner, ttl, locks) {
                Err(e) => Err(e),
                Ok(Err(lost)) => Ok((lost, Seq::empty())),
                Ok(Ok(steps)) => Ok(
                    (RenewView::Renewed, steps.push(StepView::Alive { owner, ttl })),
                ),
            },
        },
    }
}

proof fn lemma_renew_stops(
    db: DbView,
    now: u64,
    owner: Seq<char>,
    ttl: u64,
    locks: Seq<RelView>,
    n: int,
)
    requires
        0 <= n <= locks.len(),
        !(renew_steps(db, now, owner, ttl, locks.take(n)) matches Ok(Ok(_))),
    ensures
        renew_steps(db, now, owner, ttl, locks) == renew_steps(db, now, owner, ttl, locks.take(n)),
    decreases locks.len() - n,
{
    if n == locks.len() {
        assert(locks.take(n) =~= locks);
    } else {
        assert(locks.take(n + 1).drop_last() =~= locks.take(n));
        lemma_renew_stops(db, now, owner, ttl, locks, n + 1);
    }
}

/// Decides a renewal: its outcome, and its steps.
fn plan_renew<T: StoreTxn>(tx: &mut T, owner: &str, ttl_ms: u64) -> (r: Result<
    (RenewOutcome, Vec<Step>),
    StoreError,
>)
    ensures
        final(tx).state() == old(tx).state(),
        match (r, renew_plan(old(tx).state().db, old(tx).state().now, owner@, ttl_ms)) {
            (Ok((o, v)), Ok((outcome, steps))) => o@ == outcome && steps_view(v@) == steps,
            (Err(e), Err(f)) => e@ == f,
            _ => false,
        },
{
    let ghost t = tx.state();
    let mut steps: Vec<Step> = Vec::new();
    assert(steps_view(steps@) =~= Seq::<StepView>::empty());
    match is_owner_alive_inner(tx, owner) {
        Err(e) => {
            return Err(e);
        },
        Ok(alive) => {
            if !alive {
                let lost = RenewOutcome::Lost {
                    path: String::new(),
                    reason: Reason::OwnerExpired.text().to_owned(),
                };
                return Ok((lost, steps));
            }
        },
    }
    let locks = match list_holdings(tx, owner) {
        Err(e) => {
            return Err(e);
        },
        Ok(locks) => locks,
    };
    let ghost all = rels_view(locks@);
    let mut i: usize = 0;
    assert(all.take(0) =~= Seq::<RelView>::empty());
    while i < locks.len()
        invariant
            i <= locks@.len(),
            all == rels_view(locks@),
            t == old(tx).state(),
            tx.state() == t,
            is_alive(t.db, t.now, owner@) == Ok::<bool, ErrorView>(true),
            holdings(t.db, t.now, owner@) == Ok::<Seq<RelView>, ErrorView>(all),
            renew_steps(t.db, t.now, owner@, ttl_ms, all.take(i as int)) == Ok::<
                Result<Seq<StepView>, RenewView>,
                ErrorView,
            >(Ok(steps_view(steps@))),
        decreases locks@.len() - i,
    {
        let lock = &locks[i];
        let ghost before = steps_view(steps@);
        assert(all.take(i + 1).drop_last() =~= all.take(i as int));
        assert(all.take(i + 1).last() == lock@);
        match holds_lock(tx, owner, lock.mode, lock.path.as_str()) {
            Err(e) => {
                proof {
                    lemma_renew_stops(t.db, t.now, owner@, ttl_ms, all, i + 1);
                }
                return Err(e);
            },
            Ok(held) => {
                if !held {
                    proof {
                        lemma_renew_stops(t.db, t.now, owner@, ttl_ms, all, i + 1);
                    }
                    let lost = RenewOutcome::Lost {
                        path: lock.path.clone(),
                        reason: missing_reason(lock.mode).text().to_owned(),
                    };
                    let none: Vec<Step> = Vec::new();
                    assert(steps_view(none@) =~= Seq::<StepView>::empty());
                    return Ok((lost, none));
                }
            },
        }
        let fence = if lock.mode == Mode::Write {
            match tx.get_str(Cf::Fences, lock.path.as_str().as_bytes()) {
                Err(e) => {
                    proof {
                        lemma_renew_stops(t.db, t.now, owner@, ttl_ms, all, i + 1);
                    }
                    return Err(e);
                },
                Ok(token) => token,
            }
        } else {
            None
        };
        steps.push(
            Step::Hold {
                owner: owner.to_owned(),
                mode: lock.mode,
                path: lock.path.clone(),
                ttl: ttl_ms,
            },
        );
        let ghost mid = steps_view(steps@);
        assert(mid =~= before.push(steps@.last()@));
        if let Some(token) = fence {
            steps.push(Step::Fence { path: lock.path.clone(), token, ttl: ttl_ms });
            assert(steps_view(steps@) =~= mid + seq![steps@.last()@]);
        } else {
            assert(mid + Seq::<StepView>::empty() =~= mid);
        }
        i = i + 1;
    }
    assert(all.take(all.len() as int) =~= all);
    let ghost renewed = steps_view(steps@);
    steps.push(Step::Alive { owner: owner.to_owned(), ttl: ttl_ms });
    assert(steps_view(steps@) =~= renewed.push(steps@.last()@));
    Ok((RenewOutcome::Renewed, steps))
}

/// Gives all locks of a live owner a new lease, or none: a lost lock or lease
/// changes nothing.
pub fn renew_inner<T: StoreTxn>(tx: &mut T, owner: &str, ttl_ms: u64) -> (r: Result<
    RenewOutcome,
    StoreError,
>)
    ensures
        match (r, renew_plan(old(tx).state().db, old(tx).state().now, owner@, ttl_ms)) {
            (Ok(o), Ok((outcome, steps))) => o@ == outcome && !refuses(old(tx).state(), steps)
                && final(tx).state() == after_steps(old(tx).state(), steps),
            (Err(e), Ok((_, steps))) => e@ == ErrorView::ReadOnly && refuses(
                old(tx).state(),
                steps,
            ) && final(tx).state() == old(tx).state(),
            (Err(e), Err(f)) => e@ == f && final(tx).state() == old(tx).state(),
            (Ok(_), Err(_)) => false,
        },
{
    match plan_renew(tx, owner, ttl_ms) {
        Err(e) => Err(e),
        Ok((outcome, steps)) => match run_steps(tx, &steps) {
            Err(e) => Err(e),
            Ok(_) => Ok(outcome),
        },
    }
}

// ---------------------------------------------------------------------------
// Claims and wait-for edges
// ---------------------------------------------------------------------------

/// The lifetime of a claim: the default where none is given.
pub open spec fn claim_ttl(ttl: u64) -> u64 {
    if ttl == 0 {
        DEFAULT_CLAIM_TTL_MS
    } else {
        ttl
    }
}

/// Reserves a path for a claimant.
pub fn set_claim_inner<T: StoreTxn>(tx: &mut T, path: &str, claimant: &str, ttl_ms: u64) -> (r: Result<
    (),
    StoreError,
>)
    ensures
        did(
            old(tx).state(),
            final(tx).state(),
            r,
            Ok(
                seq![
                    StepView::Claim { path: path@, claimant: claimant@, ttl: claim_ttl(ttl_ms) },
                ],
            ),
        ),
{
    let ttl: u64 = if ttl_ms == 0 {
        DEFAULT_CLAIM_TTL_MS
    } else {
        ttl_ms
    };
    let mut steps: Vec<Step> = Vec::new();
    steps.push(Step::Claim { path: path.to_owned(), claimant: claimant.to_owned(), ttl });
    assert(steps_view(steps@) =~= seq![
        StepView::Claim { path: path@, claimant: claimant@, ttl: claim_ttl(ttl_ms) },
    ]);
    run_steps(tx, &steps)
}

/// Records that an owner waits for another.
pub fn set_wait_edge_inner<T: StoreTxn>(
    tx: &mut T,
    owner: &str,
    conflict_owner: &str,
    ttl_ms: u64,
    metadata: &Option<WaitEdgeMetadata>,
) -> (r: Result<(), StoreError>)
    ensures
        did(
            old(tx).state(),
            final(tx).state(),
            r,
            Ok(
                seq![
                    StepView::Wait {
                        owner: owner@,
                        edge: edge_text(conflict_owner@, opt_meta(*metadata)),
                        ttl: ttl_ms,
                    },
                ],
            ),
        ),
{
    let edge = encode_edge(conflict_owner, metadata);
    let mut steps: Vec<Step> = Vec::new();
    steps.push(Step::Wait { owner: owner.to_owned(), edge, ttl: ttl_ms });
    assert(steps_view(steps@) =~= seq![
        StepView::Wait {
            owner: owner@,
            edge: edge_text(conflict_owner@, opt_meta(*metadata)),
            ttl: ttl_ms,
        },
    ]);
    run_steps(tx, &steps)
}

/// Removes an owner's wait-for edge.
pub fn clear_wait_edge_inner<T: StoreTxn>(tx: &mut T, owner: &str) -> (r: Result<(), StoreError>)
    ensures
        did(
            old(tx).state(),
            final(tx).state(),
            r,
            Ok(seq![StepView::NoWait { owner: owner@ }]),
        ),
{
    let mut steps: Vec<Step> = Vec::new();
    steps.push(Step::NoWait { owner: owner.to_owned() });
    assert(steps_view(steps@) =~= seq![StepView::NoWait { owner: owner@ }]);
    run_steps(tx, &steps)
}

} // verus!
