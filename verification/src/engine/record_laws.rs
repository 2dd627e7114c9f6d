//! What a command leaves in the store: of each lock, lease, fence, claim and wait-for edge
//! the record, and how long it lasts.

use vstd::prelude::*;
use crate::db::{applied, lemma_applied_concat, same_at, DbView, OpView};
use crate::engine::conflict::is_alive;
use crate::engine::edge::edge_text;
use crate::engine::effect_laws::{
    leaves, lemma_step_at, lemma_steps_agree, lemma_steps_pass, touches,
};
use crate::engine::laws::{effect_time, holding, lemma_check_only_drops, sound};
use crate::engine::lease_laws::{claimed, law_claim_is_recorded, lemma_renew_never_renews};
use crate::engine::ops::{
    acquire_plan, alive_steps, check_requests, claim_ttl, fence_of, grant, grants, holdings,
    keep_fence, release_all_plan, release_plan, release_steps, renew_plan, renew_steps,
};
use crate::engine::outcome_laws::{
    law_fences_do_not_go_back, law_holdings_are_complete, lemma_check_never_grants, lemma_one_step,
};
use crate::engine::places::{lemma_lock_place_unique, lemma_single, text_at};
use crate::engine::steps::{
    fence_ttl, lemma_steps_concat, lock_place, step_ops, steps_ops, StepView,
};
use crate::engine::tenure_laws::{lemma_release_gives_up, life_at};
use crate::engine::types::{AcquireView, ArgsView, MetaView, Mode, RelView, RenewView, ReqView};
use crate::raft::command::{OpKind, ResponseView};
use crate::raft::state_machine::{
    command_effect, command_writes, fence_counter, holds_expired, lemma_effect, next_token,
    put_counter, swept_rows,
};
use crate::store_keys::{expiry_time, is_expired, member_key_spec, nul_free, Cf};
use crate::store_laws::lemma_sweep_writes;
use crate::store_rocksdb::{read_text, ErrorView, RecordView};
use crate::text::{decimal_int, lemma_parse_decimal_int, lemma_utf8_injective, utf8};

verus! {

/// Where the fence of a path stands.
pub open spec fn fence_at(p: Seq<char>) -> (Cf, Seq<u8>) {
    (Cf::Fences, utf8(p))
}

/// Where the wait-for edge of an owner stands.
pub open spec fn edge_at(o: Seq<char>) -> (Cf, Seq<u8>) {
    (Cf::WaitEdges, utf8(o))
}

/// A lease lasts as long as was asked for, and no longer: what is written at `now` for a
/// lifetime of `ttl` is there up to `now + ttl` and gone from then on, and for ever if the
/// lifetime is `0`.
pub proof fn law_lease_lasts_as_asked(now: u64, ttl: u64, t: u64)
    requires
        now + ttl <= u64::MAX,
    ensures
        is_expired(expiry_time(now, ttl), t) <==> ttl > 0 && t >= now + ttl,
        expiry_time(now, ttl) == (if ttl == 0 {
            0
        } else {
            now + ttl
        }),
{
}

/// A lifetime that goes beyond the last time lasts up to it.
pub proof fn law_lease_ends_with_time(now: u64, ttl: u64, t: u64)
    requires
        now + ttl > u64::MAX,
    ensures
        is_expired(expiry_time(now, ttl), t) <==> t == u64::MAX,
{
}

/// A record is live up to its expiry, and for ever if that is `0`.
pub open spec fn lives(exp: u64, t: u64) -> bool {
    exp == 0 || t < exp
}

/// A text is read if and only if it stands there and lives.
pub proof fn law_live_text_is_read(db: DbView, t: u64, cf: Cf, key: Seq<u8>, v: Seq<char>)
    ensures
        read_text(db, t, cf, key) == Ok::<Option<Seq<char>>, ErrorView>(Some(v)) <==> exists|
            exp: u64,
        | #[trigger]
            text_at(db, (cf, key), v, exp) && lives(exp, t),
{
    if let Ok(Some(_)) = read_text(db, t, cf, key) {
        if let Some(RecordView::Str { v: w, exp }) = db[(cf, key)] {
            assert(text_at(db, (cf, key), w, exp));
        }
    }
}

/// A lock is held if and only if it is recorded as its owner's and the record lives: a write
/// lock under its path, a read lock under its path and its owner.
pub proof fn law_held_is_recorded(db: DbView, t: u64, m: Mode, p: Seq<char>, o: Seq<char>)
    ensures
        holding(db, t, Mode::Write, p, o) <==> exists|exp: u64| #[trigger]
            text_at(db, (Cf::WriteLocks, utf8(p)), o, exp) && lives(exp, t),
        holding(db, t, Mode::Read, p, o) <==> exists|v: Seq<char>, exp: u64| #[trigger]
            text_at(db, (Cf::ReadLocks, member_key_spec(utf8(p), o)), v, exp) && lives(exp, t),
{
    law_live_text_is_read(db, t, Cf::WriteLocks, utf8(p), o);
    let key = member_key_spec(utf8(p), o);
    if let Ok(Some(v)) = read_text(db, t, Cf::ReadLocks, key) {
        law_live_text_is_read(db, t, Cf::ReadLocks, key, v);
    }
    if exists|v: Seq<char>, exp: u64| #[trigger]
        text_at(db, (Cf::ReadLocks, key), v, exp) && lives(exp, t) {
        let (v, exp) = choose|v: Seq<char>, exp: u64| #[trigger]
            text_at(db, (Cf::ReadLocks, key), v, exp) && lives(exp, t);
        law_live_text_is_read(db, t, Cf::ReadLocks, key, v);
    }
}

/// An owner is alive if and only if its life is recorded and the record lives.
pub proof fn law_life_is_recorded(db: DbView, t: u64, o: Seq<char>)
    ensures
        is_alive(db, t, o) == Ok::<bool, ErrorView>(true) <==> exists|v: Seq<char>, exp: u64|
            #[trigger]
            text_at(db, (Cf::OwnerAlive, utf8(o)), v, exp) && lives(exp, t),
{
    let key = utf8(o);
    if let Ok(Some(v)) = read_text(db, t, Cf::OwnerAlive, key) {
        law_live_text_is_read(db, t, Cf::OwnerAlive, key, v);
    }
    if exists|v: Seq<char>, exp: u64| #[trigger]
        text_at(db, (Cf::OwnerAlive, key), v, exp) && lives(exp, t) {
        let (v, exp) = choose|v: Seq<char>, exp: u64| #[trigger]
            text_at(db, (Cf::OwnerAlive, key), v, exp) && lives(exp, t);
        law_live_text_is_read(db, t, Cf::OwnerAlive, key, v);
    }
}

/// The fence of a path is the token whose numeral stands there and lives.
pub proof fn law_fence_is_recorded(db: DbView, t: u64, p: Seq<char>, token: i64)
    ensures
        (exists|exp: u64| #[trigger]
            text_at(db, (Cf::Fences, utf8(p)), decimal_int(token as int), exp) && lives(exp, t))
            ==> fence_of(db, t, p) == Ok::<Option<i64>, ErrorView>(Some(token)),
        fence_of(db, t, p) == Ok::<Option<i64>, ErrorView>(None) <==> read_text(
            db,
            t,
            Cf::Fences,
            utf8(p),
        ) == Ok::<Option<Seq<char>>, ErrorView>(None),
{
    law_live_text_is_read(db, t, Cf::Fences, utf8(p), decimal_int(token as int));
    lemma_parse_decimal_int(token);
}

// ---------------------------------------------------------------------------
// Acquire
// ---------------------------------------------------------------------------

/// The position of the steps that take request `i`.
proof fn lemma_grant_is_there(
    o: Seq<char>,
    ttl: u64,
    token: i64,
    reqs: Seq<ReqView>,
    i: int,
)
    requires
        0 <= i < reqs.len(),
    ensures
        grants(o, ttl, token, reqs).contains(
            StepView::Hold { owner: o, mode: reqs[i].mode, path: reqs[i].path, ttl },
        ),
        reqs[i].mode == Mode::Write ==> grants(o, ttl, token, reqs).contains(
            StepView::Fence { path: reqs[i].path, token: decimal_int(token as int), ttl },
        ),
    decreases reqs.len(),
{
    let front = reqs.drop_last();
    let rest = grants(o, ttl, token, front);
    let more = grant(o, ttl, token, reqs.last());
    let all = grants(o, ttl, token, reqs);
    assert(all == rest + more);
    if i < front.len() {
        lemma_grant_is_there(o, ttl, token, front, i);
        assert(front[i] == reqs[i]);
        let hold = StepView::Hold { owner: o, mode: reqs[i].mode, path: reqs[i].path, ttl };
        let fence = StepView::Fence {
            path: reqs[i].path,
            token: decimal_int(token as int),
            ttl,
        };
        let k = rest.index_of(hold);
        assert(all[k] == hold);
        if reqs[i].mode == Mode::Write {
            let k = rest.index_of(fence);
            assert(all[k] == fence);
        }
    } else {
        assert(all[rest.len() as int] == more[0]);
        if reqs[i].mode == Mode::Write {
            assert(all[rest.len() as int + 1] == more[1]);
        }
    }
}

/// All that taking locks does: each step holds one of them for the lease, or sets the fence
/// of one to the token.
pub proof fn lemma_grants_are(
    o: Seq<char>,
    ttl: u64,
    token: i64,
    reqs: Seq<ReqView>,
    k: int,
)
    requires
        0 <= k < grants(o, ttl, token, reqs).len(),
    ensures
        match grants(o, ttl, token, reqs)[k] {
            StepView::Hold { owner, mode, path, ttl: l } => owner == o && l == ttl && exists|j: int|
                0 <= j < reqs.len() && (#[trigger] reqs[j]).mode == mode && reqs[j].path == path,
            StepView::Fence { path, token: text, ttl: l } => text == decimal_int(token as int) && l
                == ttl && exists|j: int|
                0 <= j < reqs.len() && (#[trigger] reqs[j]).mode == Mode::Write && reqs[j].path
                    == path,
            _ => false,
        },
    decreases reqs.len(),
{
    let front = reqs.drop_last();
    let rest = grants(o, ttl, token, front);
    let more = grant(o, ttl, token, reqs.last());
    let step = grants(o, ttl, token, reqs)[k];
    if k < rest.len() {
        lemma_grants_are(o, ttl, token, front, k);
        assert(step == rest[k]);
        match step {
            StepView::Hold { mode, path, .. } => {
                let j = choose|j: int|
                    0 <= j < front.len() && (#[trigger] front[j]).mode == mode && front[j].path
                        == path;
                assert(reqs[j] == front[j]);
            },
            StepView::Fence { path, .. } => {
                let j = choose|j: int|
                    0 <= j < front.len() && (#[trigger] front[j]).mode == Mode::Write
                        && front[j].path == path;
                assert(reqs[j] == front[j]);
            },
            _ => {},
        }
    } else {
        assert(step == more[k - rest.len()]);
        assert(reqs[reqs.len() - 1] == reqs.last());
    }
}

/// Everything that was asked for is taken: after a granted acquire, each lock is recorded as
/// the owner's for the lease, the owner is alive for the lease, and the fence of each path
/// to write is the token.
pub proof fn law_acquire_records_everything(db: DbView, now: u64, args: ArgsView, i: int)
    requires
        command_effect(db, now, OpKind::Acquire(args)) matches Ok((response, _)) && response
            == ResponseView::Acquire(AcquireView::Granted),
        0 <= i < args.requests.len(),
    ensures
        ({
            let after = applied(db, command_effect(db, now, OpKind::Acquire(args))->Ok_0.1);
            let lease = expiry_time(now, args.ttl);
            let (m, p) = (args.requests[i].mode, args.requests[i].path);
            &&& text_at(after, lock_place(m, p, args.owner), args.owner, lease)
            &&& text_at(after, life_at(args.owner), "1"@, lease)
            &&& m == Mode::Write ==> text_at(
                after,
                fence_at(p),
                decimal_int(args.token as int),
                expiry_time(now, fence_ttl(args.ttl)),
            )
        }),
{
    let o = args.owner;
    let op = OpKind::Acquire(args);
    let (m, p) = (args.requests[i].mode, args.requests[i].path);
    lemma_effect(db, now, op);
    lemma_check_never_grants(db, now, o, args.token, args.requests);
    let clear = check_requests(db, now, o, args.token, args.requests)->Ok_0->Ok_0;
    let alive = alive_steps(o, args.ttl, args.requests);
    let released = release_steps(db, now, o, args.releases)->Ok_0;
    let granted = grants(o, args.ttl, args.token, args.requests);
    let before = clear + alive + released;
    let freed = applied(db, steps_ops(now, before));
    lemma_steps_concat(now, before, granted);
    lemma_applied_concat(db, steps_ops(now, before), steps_ops(now, granted));
    lemma_grant_is_there(o, args.ttl, args.token, args.requests, i);
    let lease = expiry_time(now, args.ttl);
    // The lock.
    let hold = StepView::Hold { owner: o, mode: m, path: p, ttl: args.ttl };
    let place = lock_place(m, p, o);
    assert forall|k: int| 0 <= k < granted.len() && touches(#[trigger] granted[k], place) implies leaves(
        now,
        granted[k],
        place,
    ) == Some((o, lease)) by {
        lemma_grants_are(o, args.ttl, args.token, args.requests, k);
    }
    lemma_steps_agree(
        freed,
        now,
        granted,
        place,
        Some((o, lease)),
        granted.index_of(hold),
    );
    // The fence.
    if m == Mode::Write {
        let text = decimal_int(args.token as int);
        let exp = expiry_time(now, fence_ttl(args.ttl));
        let fence = StepView::Fence { path: p, token: text, ttl: args.ttl };
        assert forall|k: int|
            0 <= k < granted.len() && touches(#[trigger] granted[k], fence_at(p)) implies leaves(
            now,
            granted[k],
            fence_at(p),
        ) == Some((text, exp)) by {
            lemma_grants_are(o, args.ttl, args.token, args.requests, k);
        }
        lemma_steps_agree(
            freed,
            now,
            granted,
            fence_at(p),
            Some((text, exp)),
            granted.index_of(fence),
        );
    }
    // The life.
    let living = applied(db, steps_ops(now, clear + alive));
    let cleared = applied(db, steps_ops(now, clear));
    let life = life_at(o);
    lemma_steps_concat(now, clear, alive);
    lemma_applied_concat(db, steps_ops(now, clear), steps_ops(now, alive));
    lemma_steps_concat(now, clear + alive, released);
    lemma_applied_concat(db, steps_ops(now, clear + alive), steps_ops(now, released));
    lemma_steps_agree(cleared, now, alive, life, Some(("1"@, lease)), 0);
    assert forall|k: int| 0 <= k < released.len() implies !touches(#[trigger] released[k], life) by {
        lemma_release_gives_up(db, now, o, args.releases, k);
    }
    lemma_steps_pass(living, now, released, life);
    assert forall|k: int| 0 <= k < granted.len() implies !touches(#[trigger] granted[k], life) by {
        lemma_grants_are(o, args.ttl, args.token, args.requests, k);
    }
    lemma_steps_pass(freed, now, granted, life);
}

/// A fence outlives its lock: after a granted acquire, the fence of each path to write is
/// the token of the acquire, for as long as the lease and for a day at least.
pub proof fn law_granted_is_fenced(db: DbView, now: u64, args: ArgsView, i: int, t: u64)
    requires
        command_effect(db, now, OpKind::Acquire(args)) matches Ok((response, _)) && response
            == ResponseView::Acquire(AcquireView::Granted),
        0 <= i < args.requests.len(),
        args.requests[i].mode == Mode::Write,
        t < u64::MAX,
        t < now + args.ttl || t < now + 86_400_000,
    ensures
        fence_of(
            applied(db, command_effect(db, now, OpKind::Acquire(args))->Ok_0.1),
            t,
            args.requests[i].path,
        ) == Ok::<Option<i64>, ErrorView>(Some(args.token)),
{
    law_acquire_records_everything(db, now, args, i);
    lemma_parse_decimal_int(args.token);
}

/// A fence does not last for ever: once the lease is over and a day has passed, it is gone.
pub proof fn law_fence_ends(db: DbView, now: u64, args: ArgsView, i: int, t: u64)
    requires
        command_effect(db, now, OpKind::Acquire(args)) matches Ok((response, _)) && response
            == ResponseView::Acquire(AcquireView::Granted),
        0 <= i < args.requests.len(),
        args.requests[i].mode == Mode::Write,
        now + args.ttl <= t,
        now + 86_400_000 <= t,
    ensures
        fence_of(
            applied(db, command_effect(db, now, OpKind::Acquire(args))->Ok_0.1),
            t,
            args.requests[i].path,
        ) == Ok::<Option<i64>, ErrorView>(None),
{
    law_acquire_records_everything(db, now, args, i);
}

/// Whether the fence at a place is as it was, or was written at `now` for the lifetime of a
/// fence.
spec fn fence_kept(before: DbView, after: DbView, now: u64, place: (Cf, Seq<u8>)) -> bool {
    ||| same_at(after, before, place)
    ||| exists|token: Seq<char>, ttl: u64| #[trigger]
        text_at(after, place, token, expiry_time(now, fence_ttl(ttl)))
}

proof fn lemma_steps_keep_fence_record(
    db: DbView,
    now: u64,
    steps: Seq<StepView>,
    place: (Cf, Seq<u8>),
)
    requires
        place.0 == Cf::Fences,
    ensures
        fence_kept(db, applied(db, steps_ops(now, steps)), now, place),
    decreases steps.len(),
{
    if steps.len() == 0 {
        assert(steps_ops(now, steps) =~= Seq::<OpView>::empty());
    } else {
        let front = steps.drop_last();
        let step = steps.last();
        let mid = applied(db, steps_ops(now, front));
        let after = applied(db, steps_ops(now, steps));
        lemma_steps_keep_fence_record(db, now, front, place);
        lemma_applied_concat(db, steps_ops(now, front), step_ops(now, step));
        lemma_step_at(mid, now, step, place);
        if !touches(step, place) {
            if !same_at(mid, db, place) {
                let (token, ttl) = choose|token: Seq<char>, ttl: u64| #[trigger]
                    text_at(mid, place, token, expiry_time(now, fence_ttl(ttl)));
                assert(text_at(after, place, token, expiry_time(now, fence_ttl(ttl))));
            }
        } else if let StepView::Fence { token, ttl, .. } = step {
            assert(text_at(after, place, token, expiry_time(now, fence_ttl(ttl))));
        }
    }
}

/// A fence stands: no command takes it back while it lives, nor shortens its life to less than
/// a day. Up to then the path has that token or a higher one, whatever is done.
pub proof fn law_fence_stands(db: DbView, now: u64, op: OpKind, p: Seq<char>, f: i64, t: u64)
    requires
        command_effect(db, now, op) is Ok,
        effect_time(now, op) <= t < u64::MAX,
        t < now + 86_400_000,
        fence_of(db, t, p) == Ok::<Option<i64>, ErrorView>(Some(f)),
    ensures
        fence_of(applied(db, command_effect(db, now, op)->Ok_0.1), t, p) matches Ok(Some(g)) && g
            >= f,
{
    let place = fence_at(p);
    let after = applied(db, command_effect(db, now, op)->Ok_0.1);
    let own = applied(db, command_writes(db, now, op)->Ok_0.1);
    assert(fence_of(db, effect_time(now, op), p) == Ok::<Option<i64>, ErrorView>(Some(f)));
    law_fences_do_not_go_back(db, now, op, p, f);
    lemma_effect(db, now, op);
    assert(fence_kept(db, own, now, place)) by {
        match op {
            OpKind::Acquire(args) => {
                lemma_steps_keep_fence_record(db, now, acquire_plan(db, now, args)->Ok_0.1, place);
            },
            OpKind::Release { owner, reqs, del_wait } => {
                let steps = release_plan(db, now, owner, reqs, del_wait)->Ok_0;
                lemma_steps_keep_fence_record(db, now, steps, place);
            },
            OpKind::ReleaseAll { owner, del_wait } => {
                let steps = release_all_plan(db, now, owner, del_wait)->Ok_0;
                lemma_steps_keep_fence_record(db, now, steps, place);
            },
            OpKind::ForceRelease { victim } => {
                let steps = release_all_plan(db, now, victim, true)->Ok_0;
                lemma_steps_keep_fence_record(db, now, steps, place);
            },
            OpKind::Renew { owner, ttl_ms } => {
                let steps = renew_plan(db, now, owner, ttl_ms)->Ok_0.1;
                lemma_steps_keep_fence_record(db, now, steps, place);
            },
            OpKind::SetClaim { path, claimant, ttl_ms } => {
                let step = StepView::Claim { path, claimant, ttl: claim_ttl(ttl_ms) };
                lemma_steps_keep_fence_record(db, now, seq![step], place);
            },
            OpKind::SetWaitEdge { owner, conflict_owner, metadata, ttl_ms } => {
                let edge = edge_text(conflict_owner, metadata);
                let step = StepView::Wait { owner, edge, ttl: ttl_ms };
                lemma_steps_keep_fence_record(db, now, seq![step], place);
            },
            OpKind::ClearWaitEdge { owner } => {
                lemma_steps_keep_fence_record(db, now, seq![StepView::NoWait { owner }], place);
            },
            OpKind::GcSweep { now_ms, batch } => {
                lemma_sweep_writes(db, swept_rows(db, now_ms, batch as nat), now_ms);
                assert(!holds_expired(db, place.0, place.1, now_ms));
            },
            OpKind::IncrFence => {
                lemma_single(db, put_counter(next_token(fence_counter(db)->Ok_0)));
            },
        }
    }
    assert(same_at(after, own, place));
    if !same_at(own, db, place) {
        let (token, ttl) = choose|token: Seq<char>, ttl: u64| #[trigger]
            text_at(own, place, token, expiry_time(now, fence_ttl(ttl)));
        assert(text_at(after, place, token, expiry_time(now, fence_ttl(ttl))));
    }
}

/// What an acquire gives up is given up: unless it asks for it as well, the owner no longer
/// holds it.
pub proof fn law_acquire_releases(db: DbView, now: u64, args: ArgsView, i: int, t: u64)
    requires
        command_effect(db, now, OpKind::Acquire(args)) matches Ok((response, _)) && response
            == ResponseView::Acquire(AcquireView::Granted),
        0 <= i < args.releases.len(),
        nul_free(args.owner),
        nul_free(args.releases[i].path),
        now <= t,
        forall|j: int|
            0 <= j < args.requests.len() ==> !((#[trigger] args.requests[j]).mode
                == args.releases[i].mode && args.requests[j].path == args.releases[i].path),
    ensures
        !holding(
            applied(db, command_effect(db, now, OpKind::Acquire(args))->Ok_0.1),
            t,
            args.releases[i].mode,
            args.releases[i].path,
            args.owner,
        ),
{
    let o = args.owner;
    let op = OpKind::Acquire(args);
    let (m, p) = (args.releases[i].mode, args.releases[i].path);
    lemma_effect(db, now, op);
    lemma_check_never_grants(db, now, o, args.token, args.requests);
    let steps = acquire_plan(db, now, args)->Ok_0.1;
    let clear = check_requests(db, now, o, args.token, args.requests)->Ok_0->Ok_0;
    let alive = alive_steps(o, args.ttl, args.requests);
    let released = release_steps(db, now, o, args.releases)->Ok_0;
    let granted = grants(o, args.ttl, args.token, args.requests);
    let place = lock_place(m, p, o);
    lemma_check_only_drops(db, now, o, args.token, args.requests);
    assert(steps == clear + alive + released + granted);
    assert forall|k: int| 0 <= k < steps.len() && touches(#[trigger] steps[k], place) implies leaves(
        now,
        steps[k],
        place,
    ) is None by {
        if k < clear.len() {
            assert(steps[k] == clear[k]);
        } else if k < clear.len() + alive.len() {
            assert(steps[k] == alive[k - clear.len()]);
        } else if k < clear.len() + alive.len() + released.len() {
            assert(steps[k] == released[k - clear.len() - alive.len()]);
            lemma_release_gives_up(
                db,
                now,
                o,
                args.releases,
                k - clear.len() - alive.len(),
            );
        } else {
            let n = k - clear.len() - alive.len() - released.len();
            assert(steps[k] == granted[n]);
            lemma_grants_are(o, args.ttl, args.token, args.requests, n);
            if let StepView::Hold { owner, mode, path, .. } = granted[n] {
                if lock_place(mode, path, owner) == place {
                    lemma_lock_place_unique(mode, path, owner, m, p, o);
                }
            }
        }
    }
    crate::engine::outcome_laws::lemma_release_drops(db, now, o, args.releases, i);
    let d = StepView::Drop { owner: o, mode: m, path: p };
    if released.contains(d) {
        let k = released.index_of(d);
        let at = clear.len() + alive.len() + k;
        assert(steps[at] == d);
        lemma_steps_agree(db, now, steps, place, None, at as int);
    } else if exists|k: int| 0 <= k < steps.len() && touches(#[trigger] steps[k], place) {
        let k = choose|k: int| 0 <= k < steps.len() && touches(#[trigger] steps[k], place);
        lemma_steps_agree(db, now, steps, place, None, k);
    } else {
        lemma_steps_pass(db, now, steps, place);
    }
}

// ---------------------------------------------------------------------------
// Renew
// ---------------------------------------------------------------------------

/// All that renewing locks does: each step holds one of the listed locks, which is held,
/// for the new lifetime, or writes the fence of one again as it is.
proof fn lemma_renewals_are(
    db: DbView,
    now: u64,
    o: Seq<char>,
    ttl: u64,
    locks: Seq<RelView>,
    k: int,
)
    requires
        renew_steps(db, now, o, ttl, locks) matches Ok(Ok(_)),
        0 <= k < renew_steps(db, now, o, ttl, locks)->Ok_0->Ok_0.len(),
    ensures
        match renew_steps(db, now, o, ttl, locks)->Ok_0->Ok_0[k] {
            StepView::Hold { owner, mode, path, ttl: l } => owner == o && l == ttl && holding(
                db,
                now,
                mode,
                path,
                o,
            ),
            StepView::Fence { path, token, ttl: l } => l == ttl && holding(
                db,
                now,
                Mode::Write,
                path,
                o,
            ) && read_text(db, now, Cf::Fences, utf8(path)) == Ok::<Option<Seq<char>>, ErrorView>(
                Some(token),
            ),
            _ => false,
        },
    decreases locks.len(),
{
    let front = locks.drop_last();
    let lock = locks.last();
    let all = renew_steps(db, now, o, ttl, locks)->Ok_0->Ok_0;
    let rest = renew_steps(db, now, o, ttl, front)->Ok_0->Ok_0;
    let fence = keep_fence(db, now, ttl, lock)->Ok_0;
    if k < rest.len() {
        lemma_renewals_are(db, now, o, ttl, front, k);
        assert(all[k] == rest[k]);
    } else {
        assert(holding(db, now, lock.mode, lock.path, o));
        if k > rest.len() {
            assert(all[k] == fence[k - rest.len() - 1]);
        }
    }
}

proof fn lemma_renewal_is_there(
    db: DbView,
    now: u64,
    o: Seq<char>,
    ttl: u64,
    locks: Seq<RelView>,
    lock: RelView,
)
    requires
        renew_steps(db, now, o, ttl, locks) matches Ok(Ok(_)),
        locks.contains(lock),
    ensures
        ({
            let steps = renew_steps(db, now, o, ttl, locks)->Ok_0->Ok_0;
            &&& holding(db, now, lock.mode, lock.path, o)
            &&& steps.contains(
                StepView::Hold { owner: o, mode: lock.mode, path: lock.path, ttl },
            )
            &&& lock.mode == Mode::Write ==> (read_text(
                db,
                now,
                Cf::Fences,
                utf8(lock.path),
            ) matches Ok(Some(token)) ==> steps.contains(
                StepView::Fence { path: lock.path, token, ttl },
            ))
        }),
    decreases locks.len(),
{
    let front = locks.drop_last();
    let all = renew_steps(db, now, o, ttl, locks)->Ok_0->Ok_0;
    let rest = renew_steps(db, now, o, ttl, front)->Ok_0->Ok_0;
    let hold = StepView::Hold { owner: o, mode: lock.mode, path: lock.path, ttl };
    let i = locks.index_of(lock);
    if i < front.len() {
        assert(front[i] == lock);
        lemma_renewal_is_there(db, now, o, ttl, front, lock);
        let k = rest.index_of(hold);
        assert(all[k] == hold);
        if lock.mode == Mode::Write {
            if let Ok(Some(token)) = read_text(db, now, Cf::Fences, utf8(lock.path)) {
                let fence = StepView::Fence { path: lock.path, token, ttl };
                let k = rest.index_of(fence);
                assert(all[k] == fence);
            }
        }
    } else {
        let fence = keep_fence(db, now, ttl, lock)->Ok_0;
        assert(all[rest.len() as int] == hold);
        if fence.len() > 0 {
            assert(all[rest.len() as int + 1] == fence[0]);
        }
    }
}

/// A renewal gives everything one new end: after it, the owner's life and every lock that
/// it held last for the lifetime that was asked for and no longer, and the fences of its
/// write locks stay what they are, for the lifetime of a fence.
pub proof fn law_renewal_records_everything(
    db: DbView,
    now: u64,
    o: Seq<char>,
    ttl: u64,
    m: Mode,
    p: Seq<char>,
)
    requires
        sound(db, now),
        nul_free(o),
        nul_free(p),
        command_effect(db, now, OpKind::Renew { owner: o, ttl_ms: ttl }) matches Ok((response, _))
            && response == ResponseView::Renew(RenewView::Renewed),
    ensures
        ({
            let after = applied(
                db,
                command_effect(db, now, OpKind::Renew { owner: o, ttl_ms: ttl })->Ok_0.1,
            );
            let lease = expiry_time(now, ttl);
            &&& text_at(after, life_at(o), "1"@, lease)
            &&& holding(db, now, m, p, o) ==> text_at(after, lock_place(m, p, o), o, lease)
            &&& holding(db, now, Mode::Write, p, o) ==> (read_text(
                db,
                now,
                Cf::Fences,
                utf8(p),
            ) matches Ok(Some(text)) ==> text_at(
                after,
                fence_at(p),
                text,
                expiry_time(now, fence_ttl(ttl)),
            ))
        }),
{
    let op = OpKind::Renew { owner: o, ttl_ms: ttl };
    lemma_effect(db, now, op);
    let steps = renew_plan(db, now, o, ttl)->Ok_0.1;
    let locks = holdings(db, now, o)->Ok_0;
    lemma_renew_never_renews(db, now, o, ttl, locks);
    let renewed = renew_steps(db, now, o, ttl, locks)->Ok_0->Ok_0;
    let alive = StepView::Alive { owner: o, ttl };
    let lease = expiry_time(now, ttl);
    let life = life_at(o);
    assert(steps == renewed.push(alive));
    assert forall|k: int| 0 <= k < steps.len() && touches(#[trigger] steps[k], life) implies leaves(
        now,
        steps[k],
        life,
    ) == Some(("1"@, lease)) by {
        if k < renewed.len() {
            assert(steps[k] == renewed[k]);
            lemma_renewals_are(db, now, o, ttl, locks, k);
        }
    }
    assert(steps[renewed.len() as int] == alive);
    lemma_steps_agree(db, now, steps, life, Some(("1"@, lease)), renewed.len() as int);
    if holding(db, now, m, p, o) {
        law_holdings_are_complete(db, now, o, m, p);
        let place = lock_place(m, p, o);
        let hold = StepView::Hold { owner: o, mode: m, path: p, ttl };
        lemma_renewal_is_there(db, now, o, ttl, locks, RelView { path: p, mode: m });
        let at = renewed.index_of(hold);
        assert(steps[at] == hold);
        assert forall|k: int| 0 <= k < steps.len() && touches(#[trigger] steps[k], place) implies leaves(
            now,
            steps[k],
            place,
        ) == Some((o, lease)) by {
            if k < renewed.len() {
                assert(steps[k] == renewed[k]);
                lemma_renewals_are(db, now, o, ttl, locks, k);
            }
        }
        lemma_steps_agree(db, now, steps, place, Some((o, lease)), at);
    }
    if holding(db, now, Mode::Write, p, o) {
        if let Ok(Some(text)) = read_text(db, now, Cf::Fences, utf8(p)) {
            law_holdings_are_complete(db, now, o, Mode::Write, p);
            let exp = expiry_time(now, fence_ttl(ttl));
            let fence = StepView::Fence { path: p, token: text, ttl };
            lemma_renewal_is_there(
                db,
                now,
                o,
                ttl,
                locks,
                RelView { path: p, mode: Mode::Write },
            );
            let at = renewed.index_of(fence);
            assert(steps[at] == fence);
            assert forall|k: int|
                0 <= k < steps.len() && touches(#[trigger] steps[k], fence_at(p)) implies leaves(
                now,
                steps[k],
                fence_at(p),
            ) == Some((text, exp)) by {
                if k < renewed.len() {
                    assert(steps[k] == renewed[k]);
                    lemma_renewals_are(db, now, o, ttl, locks, k);
                    if let StepView::Fence { path, .. } = renewed[k] {
                        lemma_utf8_injective(path, p);
                    }
                }
            }
            lemma_steps_agree(db, now, steps, fence_at(p), Some((text, exp)), at);
        }
    }
}

/// After a renewal the owner is alive up to the end of the lifetime that was asked for, and
/// not from then on; and so are the locks that it held its own.
pub proof fn law_renewed_life_ends(
    db: DbView,
    now: u64,
    o: Seq<char>,
    ttl: u64,
    m: Mode,
    p: Seq<char>,
    t: u64,
)
    requires
        sound(db, now),
        nul_free(o),
        nul_free(p),
        command_effect(db, now, OpKind::Renew { owner: o, ttl_ms: ttl }) matches Ok((response, _))
            && response == ResponseView::Renew(RenewView::Renewed),
        0 < ttl,
        now + ttl <= u64::MAX,
    ensures
        ({
            let after = applied(
                db,
                command_effect(db, now, OpKind::Renew { owner: o, ttl_ms: ttl })->Ok_0.1,
            );
            &&& is_alive(after, t, o) == Ok::<bool, ErrorView>(t < now + ttl)
            &&& holding(db, now, m, p, o) ==> (holding(after, t, m, p, o) <==> t < now + ttl)
        }),
{
    law_renewal_records_everything(db, now, o, ttl, m, p);
}

/// After a granted acquire the owner is alive up to the end of the lifetime that was asked
/// for, and not from then on; and so are the locks its own.
pub proof fn law_granted_life_ends(db: DbView, now: u64, args: ArgsView, i: int, t: u64)
    requires
        command_effect(db, now, OpKind::Acquire(args)) matches Ok((response, _)) && response
            == ResponseView::Acquire(AcquireView::Granted),
        0 <= i < args.requests.len(),
        0 < args.ttl,
        now + args.ttl <= u64::MAX,
    ensures
        ({
            let after = applied(db, command_effect(db, now, OpKind::Acquire(args))->Ok_0.1);
            let (m, p) = (args.requests[i].mode, args.requests[i].path);
            &&& is_alive(after, t, args.owner) == Ok::<bool, ErrorView>(t < now + args.ttl)
            &&& holding(after, t, m, p, args.owner) <==> t < now + args.ttl
        }),
{
    law_acquire_records_everything(db, now, args, i);
}

/// Whether a lock is the first of a list that is not held, and is lost for the given reason.
pub open spec fn first_lost(
    db: DbView,
    now: u64,
    o: Seq<char>,
    locks: Seq<RelView>,
    i: int,
    path: Seq<char>,
    reason: Seq<char>,
) -> bool {
    &&& 0 <= i < locks.len()
    &&& locks[i].path == path
    &&& !holding(db, now, locks[i].mode, path, o)
    &&& reason == (if locks[i].mode == Mode::Write {
        "missing_write"@
    } else {
        "missing_read"@
    })
    &&& forall|j: int|
        0 <= j < i ==> holding(db, now, (#[trigger] locks[j]).mode, locks[j].path, o)
}

/// A renewal succeeds if and only if the owner's lease is live and every lock in its list
/// of holdings is held. What is lost is told: the lease, without a path, or the first listed
/// lock that is not held.
pub proof fn law_renewal_tells(db: DbView, now: u64, o: Seq<char>, ttl: u64)
    requires
        renew_plan(db, now, o, ttl) is Ok,
    ensures
        ({
            let outcome = renew_plan(db, now, o, ttl)->Ok_0.0;
            let lives = is_alive(db, now, o) == Ok::<bool, ErrorView>(true);
            let all_held = holdings(db, now, o) matches Ok(locks) && forall|i: int|
                0 <= i < locks.len() ==> holding(
                    db,
                    now,
                    (#[trigger] locks[i]).mode,
                    locks[i].path,
                    o,
                );
            &&& outcome == RenewView::Renewed <==> lives && all_held
            &&& outcome matches RenewView::Lost { path, reason } ==> {
                ||| !lives && path == Seq::<char>::empty() && reason == "owner_expired"@
                ||| lives && (holdings(db, now, o) matches Ok(locks) && exists|i: int| #[trigger]
                    first_lost(db, now, o, locks, i, path, reason))
            }
        }),
{
    if is_alive(db, now, o) == Ok::<bool, ErrorView>(true) {
        let locks = holdings(db, now, o)->Ok_0;
        lemma_renew_never_renews(db, now, o, ttl, locks);
        lemma_renew_outcome(db, now, o, ttl, locks);
    }
}

proof fn lemma_renew_outcome(db: DbView, now: u64, o: Seq<char>, ttl: u64, locks: Seq<RelView>)
    requires
        renew_steps(db, now, o, ttl, locks) is Ok,
    ensures
        match renew_steps(db, now, o, ttl, locks)->Ok_0 {
            Ok(_) => forall|i: int|
                0 <= i < locks.len() ==> holding(
                    db,
                    now,
                    (#[trigger] locks[i]).mode,
                    locks[i].path,
                    o,
                ),
            Err(RenewView::Lost { path, reason }) => exists|i: int| #[trigger]
                first_lost(db, now, o, locks, i, path, reason),
            Err(RenewView::Renewed) => false,
        },
    decreases locks.len(),
{
    if locks.len() > 0 {
        let front = locks.drop_last();
        lemma_renew_outcome(db, now, o, ttl, front);
        let n = locks.len() - 1;
        assert(locks[n] == locks.last());
        match renew_steps(db, now, o, ttl, front)->Ok_0 {
            Ok(_) => {
                assert forall|i: int| 0 <= i < n implies holding(
                    db,
                    now,
                    (#[trigger] locks[i]).mode,
                    locks[i].path,
                    o,
                ) by {
                    assert(front[i] == locks[i]);
                }
                if let Err(RenewView::Lost { path, reason }) = renew_steps(
                    db,
                    now,
                    o,
                    ttl,
                    locks,
                )->Ok_0 {
                    assert(first_lost(db, now, o, locks, n, path, reason));
                }
            },
            Err(RenewView::Lost { path, reason }) => {
                let i = choose|i: int| #[trigger]
                    first_lost(db, now, o, front, i, path, reason);
                assert forall|j: int| 0 <= j < i implies holding(
                    db,
                    now,
                    (#[trigger] locks[j]).mode,
                    locks[j].path,
                    o,
                ) by {
                    assert(front[j] == locks[j]);
                }
                assert(locks[i] == front[i]);
                assert(first_lost(db, now, o, locks, i, path, reason));
            },
            _ => {},
        }
    }
}

// ---------------------------------------------------------------------------
// Claims and wait-for edges
// ---------------------------------------------------------------------------

/// A claim is recorded, and listed under every ancestor of its path, for the lifetime that
/// was asked for, or for five seconds if none was.
pub proof fn law_claim_lasts(
    db: DbView,
    now: u64,
    path: Seq<char>,
    claimant: Seq<char>,
    ttl: u64,
)
    requires
        command_effect(db, now, OpKind::SetClaim { path, claimant, ttl_ms: ttl }) is Ok,
    ensures
        claimed(
            applied(
                db,
                command_effect(db, now, OpKind::SetClaim { path, claimant, ttl_ms: ttl })->Ok_0.1,
            ),
            path,
            claimant,
            expiry_time(
                now,
                if ttl == 0 {
                    5_000
                } else {
                    ttl
                },
            ),
        ),
{
    let op = OpKind::SetClaim { path, claimant, ttl_ms: ttl };
    lemma_effect(db, now, op);
    law_claim_is_recorded(
        db,
        now,
        path,
        claimant,
        if ttl == 0 {
            5_000
        } else {
            ttl
        },
    );
}

/// A wait-for edge is recorded as it was given, for the lifetime that was asked for, in
/// place of the one before it.
pub proof fn law_edge_lasts(
    db: DbView,
    now: u64,
    o: Seq<char>,
    other: Seq<char>,
    meta: Option<MetaView>,
    ttl: u64,
)
    requires
        command_effect(
            db,
            now,
            OpKind::SetWaitEdge { owner: o, conflict_owner: other, metadata: meta, ttl_ms: ttl },
        ) is Ok,
    ensures
        text_at(
            applied(
                db,
                command_effect(
                    db,
                    now,
                    OpKind::SetWaitEdge {
                        owner: o,
                        conflict_owner: other,
                        metadata: meta,
                        ttl_ms: ttl,
                    },
                )->Ok_0.1,
            ),
            edge_at(o),
            edge_text(other, meta),
            expiry_time(now, ttl),
        ),
{
    let op = OpKind::SetWaitEdge { owner: o, conflict_owner: other, metadata: meta, ttl_ms: ttl };
    lemma_effect(db, now, op);
    let step = StepView::Wait { owner: o, edge: edge_text(other, meta), ttl };
    lemma_one_step(now, step);
    lemma_step_at(db, now, step, edge_at(o));
}

/// Whoever clears its wait-for edge, gives up everything, or gives up locks and asks for it,
/// has none.
pub proof fn law_edge_goes(
    db: DbView,
    now: u64,
    o: Seq<char>,
    op: OpKind,
)
    requires
        command_effect(db, now, op) is Ok,
        op == (OpKind::ClearWaitEdge { owner: o }) || op == (OpKind::ForceRelease { victim: o })
            || op == (OpKind::ReleaseAll { owner: o, del_wait: true }) || (op matches OpKind::Release {
            owner,
            del_wait,
            ..
        } && owner == o && del_wait),
    ensures
        !applied(db, command_effect(db, now, op)->Ok_0.1).dom().contains(edge_at(o)),
{
    lemma_effect(db, now, op);
    let none = StepView::NoWait { owner: o };
    match op {
        OpKind::ClearWaitEdge { .. } => {
            lemma_one_step(now, none);
            lemma_step_at(db, now, none, edge_at(o));
        },
        OpKind::Release { reqs, .. } => {
            let steps = release_plan(db, now, o, reqs, true)->Ok_0;
            let front = steps.drop_last();
            assert(steps.last() == none);
            lemma_applied_concat(
                db,
                steps_ops(now, front),
                crate::engine::steps::step_ops(now, none),
            );
            lemma_step_at(applied(db, steps_ops(now, front)), now, none, edge_at(o));
        },
        _ => {
            let steps = release_all_plan(db, now, o, true)->Ok_0;
            let front = steps.drop_last();
            assert(steps.last() == none);
            lemma_applied_concat(
                db,
                steps_ops(now, front),
                crate::engine::steps::step_ops(now, none),
            );
            lemma_step_at(applied(db, steps_ops(now, front)), now, none, edge_at(o));
        },
    }
}

} // verus!
