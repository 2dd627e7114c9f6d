//! What the engine writes: each change of lock state as a step, and the writes
//! that a step stands for.

use vstd::prelude::*;
use crate::db::OpView;
use crate::engine::path::{ancestors, get_ancestors};
use crate::engine::types::Mode;
use crate::store_keys::{member_key_spec, Cf};
use crate::store_rocksdb::{
    is_unit, lemma_with_ops, put_text, with_ops, ErrorView, StoreError, StoreTxn, TxnView,
};
use crate::text::{join_nul, joined, split_at_nul, split_nul, str_eq, texts, utf8};

verus! {

/// A fence outlives its lock: it is kept for at least a day.
pub const MIN_FENCE_TTL_MS: u64 = 86_400_000;

/// The lifetime of a fence for a lease of `ttl`.
pub open spec fn fence_ttl(ttl: u64) -> u64 {
    if ttl < MIN_FENCE_TTL_MS {
        MIN_FENCE_TTL_MS
    } else {
        ttl
    }
}

/// The name of a mode in an owner's list of holdings.
pub open spec fn mode_text(mode: Mode) -> Seq<char> {
    match mode {
        Mode::Read => "read"@,
        Mode::Write => "write"@,
    }
}

/// The entry for a lock in its owner's list of holdings.
pub open spec fn hold_text(mode: Mode, path: Seq<char>) -> Seq<char> {
    joined(mode_text(mode), path)
}

/// The lock that an entry of an owner's list of holdings stands for.
pub open spec fn parse_hold(s: Seq<char>) -> Option<(Mode, Seq<char>)> {
    match split_nul(s) {
        Some((head, path)) => if head == mode_text(Mode::Write) {
            Some((Mode::Write, path))
        } else if head == mode_text(Mode::Read) {
            Some((Mode::Read, path))
        } else {
            None
        },
        None => None,
    }
}

/// An entry of the list of holdings stands for the lock that it was made for.
pub proof fn law_hold_reads_back(mode: Mode, path: Seq<char>)
    ensures
        parse_hold(hold_text(mode, path)) == Some((mode, path)),
{
    reveal_strlit("read");
    reveal_strlit("write");
    crate::text::lemma_split_joined(mode_text(mode), path);
    assert("read"@.len() != "write"@.len());
}

/// The entry for a lock in its owner's list of holdings.
pub fn hold_entry(mode: Mode, path: &str) -> (r: String)
    ensures
        r@ == hold_text(mode, path@),
{
    match mode {
        Mode::Read => join_nul("read", path),
        Mode::Write => join_nul("write", path),
    }
}

/// The lock that an entry of an owner's list of holdings stands for.
pub fn read_hold(s: &str) -> (r: Option<(Mode, String)>)
    ensures
        match r {
            Some((mode, path)) => parse_hold(s@) == Some((mode, path@)),
            None => parse_hold(s@) is None,
        },
{
    match split_at_nul(s) {
        Some((head, path)) => {
            if str_eq(head.as_str(), "write") {
                Some((Mode::Write, path))
            } else if str_eq(head.as_str(), "read") {
                Some((Mode::Read, path))
            } else {
                None
            }
        },
        None => None,
    }
}

/// The entry for a read lock in the index of its ancestors.
pub open spec fn reader_text(path: Seq<char>, owner: Seq<char>) -> Seq<char> {
    joined(path, owner)
}

/// One change of lock state.
pub enum Step {
    /// The owner is alive for a while.
    Alive { owner: String, ttl: u64 },
    /// The owner is no longer known to be alive.
    NotAlive { owner: String },
    /// The owner holds a lock for a while.
    Hold { owner: String, mode: Mode, path: String, ttl: u64 },
    /// The owner no longer holds a lock.
    Drop { owner: String, mode: Mode, path: String },
    /// A lock leaves its owner's list of holdings; the lock itself is not touched.
    Forget { owner: String, mode: Mode, path: String },
    /// The fence of a path is set.
    Fence { path: String, token: String, ttl: u64 },
    /// A claim is set.
    Claim { path: String, claimant: String, ttl: u64 },
    /// A claim is taken back.
    DropClaim { path: String },
    /// A wait-for edge is set.
    Wait { owner: String, edge: String, ttl: u64 },
    /// A wait-for edge is taken back.
    NoWait { owner: String },
}

/// One change of lock state.
pub enum StepView {
    Alive { owner: Seq<char>, ttl: u64 },
    NotAlive { owner: Seq<char> },
    Hold { owner: Seq<char>, mode: Mode, path: Seq<char>, ttl: u64 },
    Drop { owner: Seq<char>, mode: Mode, path: Seq<char> },
    Forget { owner: Seq<char>, mode: Mode, path: Seq<char> },
    Fence { path: Seq<char>, token: Seq<char>, ttl: u64 },
    Claim { path: Seq<char>, claimant: Seq<char>, ttl: u64 },
    DropClaim { path: Seq<char> },
    Wait { owner: Seq<char>, edge: Seq<char>, ttl: u64 },
    NoWait { owner: Seq<char> },
}

impl Step {
    pub open spec fn view(&self) -> StepView {
        match self {
            Step::Alive { owner, ttl } => StepView::Alive { owner: owner@, ttl: *ttl },
            Step::NotAlive { owner } => StepView::NotAlive { owner: owner@ },
            Step::Hold { owner, mode, path, ttl } => StepView::Hold {
                owner: owner@,
                mode: *mode,
                path: path@,
                ttl: *ttl,
            },
            Step::Drop { owner, mode, path } => StepView::Drop {
                owner: owner@,
                mode: *mode,
                path: path@,
            },
            Step::Forget { owner, mode, path } => StepView::Forget {
                owner: owner@,
                mode: *mode,
                path: path@,
            },
            Step::Fence { path, token, ttl } => StepView::Fence {
                path: path@,
                token: token@,
                ttl: *ttl,
            },
            Step::Claim { path, claimant, ttl } => StepView::Claim {
                path: path@,
                claimant: claimant@,
                ttl: *ttl,
            },
            Step::DropClaim { path } => StepView::DropClaim { path: path@ },
            Step::Wait { owner, edge, ttl } => StepView::Wait {
                owner: owner@,
                edge: edge@,
                ttl: *ttl,
            },
            Step::NoWait { owner } => StepView::NoWait { owner: owner@ },
        }
    }
}

pub open spec fn steps_view(v: Seq<Step>) -> Seq<StepView> {
    Seq::new(v.len(), |i: int| v[i]@)
}

/// Adding an entry to the index of each of the given ancestors.
pub open spec fn put_index(now: u64, cf: Cf, ups: Seq<Seq<char>>, entry: Seq<char>, ttl: u64) -> Seq<
    OpView,
>
    decreases ups.len(),
{
    if ups.len() == 0 {
        Seq::empty()
    } else {
        put_index(now, cf, ups.drop_last(), entry, ttl) + put_text(
            now,
            cf,
            member_key_spec(utf8(ups.last()), entry),
            entry,
            ttl,
        )
    }
}

/// Removing an entry from the index of each of the given ancestors.
pub open spec fn delete_index(cf: Cf, ups: Seq<Seq<char>>, entry: Seq<char>) -> Seq<OpView> {
    Seq::new(
        ups.len(),
        |i: int| OpView::Delete { cf, key: member_key_spec(utf8(ups[i]), entry) },
    )
}

/// The place of a lock: the column family and the key of its record.
pub open spec fn lock_place(mode: Mode, path: Seq<char>, owner: Seq<char>) -> (Cf, Seq<u8>) {
    match mode {
        Mode::Write => (Cf::WriteLocks, utf8(path)),
        Mode::Read => (Cf::ReadLocks, member_key_spec(utf8(path), owner)),
    }
}

/// The index of a lock: the column family, and the entry under each ancestor.
pub open spec fn lock_index(mode: Mode, path: Seq<char>, owner: Seq<char>) -> (Cf, Seq<char>) {
    match mode {
        Mode::Write => (Cf::DescWrite, path),
        Mode::Read => (Cf::DescRead, reader_text(path, owner)),
    }
}

/// The entry of a lock in its owner's list of holdings.
pub open spec fn hold_place(mode: Mode, path: Seq<char>, owner: Seq<char>) -> Seq<u8> {
    member_key_spec(utf8(owner), hold_text(mode, path))
}

/// The writes that a step stands for.
pub open spec fn step_ops(now: u64, step: StepView) -> Seq<OpView> {
    match step {
        StepView::Alive { owner, ttl } => put_text(now, Cf::OwnerAlive, utf8(owner), "1"@, ttl),
        StepView::NotAlive { owner } => seq![
            OpView::Delete { cf: Cf::OwnerAlive, key: utf8(owner) },
        ],
        StepView::Hold { owner, mode, path, ttl } => {
            let (cf, key) = lock_place(mode, path, owner);
            let (index, entry) = lock_index(mode, path, owner);
            put_text(now, cf, key, owner, ttl) + put_index(now, index, ancestors(path), entry, ttl)
                + put_text(
                now,
                Cf::OwnerHolds,
                hold_place(mode, path, owner),
                hold_text(mode, path),
                ttl,
            )
        },
        StepView::Drop { owner, mode, path } => {
            let (cf, key) = lock_place(mode, path, owner);
            let (index, entry) = lock_index(mode, path, owner);
            seq![OpView::Delete { cf, key }] + delete_index(index, ancestors(path), entry) + seq![
                OpView::Delete { cf: Cf::OwnerHolds, key: hold_place(mode, path, owner) },
            ]
        },
        StepView::Forget { owner, mode, path } => seq![
            OpView::Delete { cf: Cf::OwnerHolds, key: hold_place(mode, path, owner) },
        ],
        StepView::Fence { path, token, ttl } => put_text(
            now,
            Cf::Fences,
            utf8(path),
            token,
            fence_ttl(ttl),
        ),
        StepView::Claim { path, claimant, ttl } => put_text(
            now,
            Cf::Claims,
            utf8(path),
            claimant,
            ttl,
        ) + put_index(now, Cf::DescClaim, ancestors(path), path, ttl),
        StepView::DropClaim { path } => seq![
            OpView::Delete { cf: Cf::Claims, key: utf8(path) },
        ] + delete_index(Cf::DescClaim, ancestors(path), path),
        StepView::Wait { owner, edge, ttl } => put_text(
            now,
            Cf::WaitEdges,
            utf8(owner),
            edge,
            ttl,
        ),
        StepView::NoWait { owner } => seq![
            OpView::Delete { cf: Cf::WaitEdges, key: utf8(owner) },
        ],
    }
}

/// The writes that a sequence of steps stands for.
pub open spec fn steps_ops(now: u64, steps: Seq<StepView>) -> Seq<OpView>
    decreases steps.len(),
{
    if steps.len() == 0 {
        Seq::empty()
    } else {
        steps_ops(now, steps.drop_last()) + step_ops(now, steps.last())
    }
}

/// Whether a step writes something, rather than only removing.
pub open spec fn step_puts(step: StepView) -> bool {
    step is Alive || step is Hold || step is Fence || step is Claim || step is Wait
}

/// Whether a transaction refuses a sequence of steps: a read-only one refuses every
/// step that writes something, and ignores the others.
pub open spec fn refuses(t: TxnView, steps: Seq<StepView>) -> bool {
    !t.writable && exists|i: int| 0 <= i < steps.len() && step_puts(#[trigger] steps[i])
}

/// The transaction after a sequence of steps that it did not refuse.
pub open spec fn after_steps(t: TxnView, steps: Seq<StepView>) -> TxnView {
    if t.writable {
        with_ops(t, steps_ops(t.now, steps))
    } else {
        t
    }
}

/// Whether a sequence of steps was written, or refused by a read-only transaction.
pub open spec fn wrote(
    before: TxnView,
    after: TxnView,
    r: Result<(), StoreError>,
    steps: Seq<StepView>,
) -> bool {
    if refuses(before, steps) {
        is_unit(r, Err(ErrorView::ReadOnly)) && after == before
    } else {
        r is Ok && after == after_steps(before, steps)
    }
}

/// Whether one step was written, or refused by a read-only transaction.
pub open spec fn wrote_one(
    before: TxnView,
    after: TxnView,
    r: Result<(), StoreError>,
    step: StepView,
) -> bool {
    if before.writable {
        r is Ok && after == with_ops(before, step_ops(before.now, step))
    } else {
        after == before && is_unit(
            r,
            if step_puts(step) {
                Err(ErrorView::ReadOnly)
            } else {
                Ok(())
            },
        )
    }
}

fn add_index<T: StoreTxn>(tx: &mut T, cf: Cf, ups: &Vec<String>, entry: &str, ttl: u64) -> (r:
    Result<(), StoreError>)
    requires
        old(tx).state().writable,
    ensures
        r is Ok,
        final(tx).state() == with_ops(
            old(tx).state(),
            put_index(old(tx).state().now, cf, texts(ups@), entry@, ttl),
        ),
{
    let ghost all = texts(ups@);
    let ghost start = tx.state();
    let mut i: usize = 0;
    assert(all.take(0) =~= Seq::<Seq<char>>::empty());
    assert(start.ops + Seq::<OpView>::empty() =~= start.ops);
    while i < ups.len()
        invariant
            i <= ups@.len(),
            all == texts(ups@),
            start.writable,
            tx.state() == with_ops(
                start,
                put_index(start.now, cf, all.take(i as int), entry@, ttl),
            ),
        decreases ups@.len() - i,
    {
        let done = tx.sadd(cf, ups[i].as_str().as_bytes(), entry, ttl);
        proof {
            assert(all.take(i + 1).drop_last() =~= all.take(i as int));
            lemma_with_ops(
                start,
                put_index(start.now, cf, all.take(i as int), entry@, ttl),
                put_text(
                    start.now,
                    cf,
                    member_key_spec(utf8(all[i as int]), entry@),
                    entry@,
                    ttl,
                ),
            );
        }
        if done.is_err() {
            return done;
        }
        i = i + 1;
    }
    assert(all.take(all.len() as int) =~= all);
    Ok(())
}

fn remove_index<T: StoreTxn>(tx: &mut T, cf: Cf, ups: &Vec<String>, entry: &str) -> (r: Result<
    (),
    StoreError,
>)
    ensures
        r is Ok,
        final(tx).state() == (if old(tx).state().writable {
            with_ops(old(tx).state(), delete_index(cf, texts(ups@), entry@))
        } else {
            old(tx).state()
        }),
{
    let ghost all = delete_index(cf, texts(ups@), entry@);
    let ghost start = tx.state();
    let mut i: usize = 0;
    assert(start.ops + all.take(0) =~= start.ops);
    while i < ups.len()
        invariant
            i <= ups@.len(),
            all == delete_index(cf, texts(ups@), entry@),
            tx.state() == (if start.writable {
                with_ops(start, all.take(i as int))
            } else {
                start
            }),
        decreases ups@.len() - i,
    {
        let done = tx.srem(cf, ups[i].as_str().as_bytes(), entry);
        proof {
            assert(all.take(i + 1) =~= all.take(i as int) + seq![all[i as int]]);
            lemma_with_ops(start, all.take(i as int), seq![all[i as int]]);
        }
        if done.is_err() {
            return done;
        }
        i = i + 1;
    }
    assert(all.take(all.len() as int) =~= all);
    Ok(())
}

fn run_hold<T: StoreTxn>(tx: &mut T, owner: &str, mode: Mode, path: &str, ttl: u64) -> (r: Result<
    (),
    StoreError,
>)
    ensures
        wrote_one(
            old(tx).state(),
            final(tx).state(),
            r,
            StepView::Hold { owner: owner@, mode, path: path@, ttl },
        ),
{
    let ghost start = tx.state();
    let ghost (cf, key) = lock_place(mode, path@, owner@);
    let ghost (index, entry) = lock_index(mode, path@, owner@);
    let ghost first = put_text(start.now, cf, key, owner@, ttl);
    let ghost second = put_index(start.now, index, ancestors(path@), entry, ttl);
    let ghost third = put_text(
        start.now,
        Cf::OwnerHolds,
        hold_place(mode, path@, owner@),
        hold_text(mode, path@),
        ttl,
    );
    let ups = get_ancestors(path);
    let done = match mode {
        Mode::Write => {
            let done = tx.set_str(Cf::WriteLocks, path.as_bytes(), owner, ttl);
            if done.is_err() {
                return done;
            }
            add_index(tx, Cf::DescWrite, &ups, path, ttl)
        },
        Mode::Read => {
            let done = tx.sadd(Cf::ReadLocks, path.as_bytes(), owner, ttl);
            if done.is_err() {
                return done;
            }
            let e = join_nul(path, owner);
            add_index(tx, Cf::DescRead, &ups, e.as_str(), ttl)
        },
    };
    if done.is_err() {
        return done;
    }
    let hold = hold_entry(mode, path);
    let done = tx.sadd(Cf::OwnerHolds, owner.as_bytes(), hold.as_str(), ttl);
    proof {
        lemma_with_ops(start, first, second);
        lemma_with_ops(start, first + second, third);
    }
    done
}

fn run_drop<T: StoreTxn>(tx: &mut T, owner: &str, mode: Mode, path: &str) -> (r: Result<
    (),
    StoreError,
>)
    ensures
        wrote_one(
            old(tx).state(),
            final(tx).state(),
            r,
            StepView::Drop { owner: owner@, mode, path: path@ },
        ),
{
    let ghost start = tx.state();
    let ghost (cf, key) = lock_place(mode, path@, owner@);
    let ghost (index, entry) = lock_index(mode, path@, owner@);
    let ghost first = seq![OpView::Delete { cf, key }];
    let ghost second = delete_index(index, ancestors(path@), entry);
    let ghost third = seq![
        OpView::Delete { cf: Cf::OwnerHolds, key: hold_place(mode, path@, owner@) },
    ];
    let ups = get_ancestors(path);
    let done = match mode {
        Mode::Write => {
            let done = tx.del(Cf::WriteLocks, path.as_bytes());
            if done.is_err() {
                return done;
            }
            remove_index(tx, Cf::DescWrite, &ups, path)
        },
        Mode::Read => {
            let done = tx.srem(Cf::ReadLocks, path.as_bytes(), owner);
            if done.is_err() {
                return done;
            }
            let e = join_nul(path, owner);
            remove_index(tx, Cf::DescRead, &ups, e.as_str())
        },
    };
    if done.is_err() {
        return done;
    }
    let hold = hold_entry(mode, path);
    let done = tx.srem(Cf::OwnerHolds, owner.as_bytes(), hold.as_str());
    proof {
        lemma_with_ops(start, first, second);
        lemma_with_ops(start, first + second, third);
    }
    done
}

/// Writes one step.
pub fn run_step<T: StoreTxn>(tx: &mut T, step: &Step) -> (r: Result<(), StoreError>)
    ensures
        wrote_one(old(tx).state(), final(tx).state(), r, step@),
{
    match step {
        Step::Alive { owner, ttl } => tx.set_str(
            Cf::OwnerAlive,
            owner.as_str().as_bytes(),
            "1",
            *ttl,
        ),
        Step::NotAlive { owner } => tx.del(Cf::OwnerAlive, owner.as_str().as_bytes()),
        Step::Hold { owner, mode, path, ttl } => run_hold(
            tx,
            owner.as_str(),
            *mode,
            path.as_str(),
            *ttl,
        ),
        Step::Drop { owner, mode, path } => run_drop(tx, owner.as_str(), *mode, path.as_str()),
        Step::Forget { owner, mode, path } => {
            let hold = hold_entry(*mode, path.as_str());
            tx.srem(Cf::OwnerHolds, owner.as_str().as_bytes(), hold.as_str())
        },
        Step::Fence { path, token, ttl } => {
            let lifetime: u64 = if *ttl < MIN_FENCE_TTL_MS {
                MIN_FENCE_TTL_MS
            } else {
                *ttl
            };
            tx.set_str(Cf::Fences, path.as_str().as_bytes(), token.as_str(), lifetime)
        },
        Step::Claim { path, claimant, ttl } => {
            let ghost start = tx.state();
            let ups = get_ancestors(path.as_str());
            let done = tx.set_str(Cf::Claims, path.as_str().as_bytes(), claimant.as_str(), *ttl);
            if done.is_err() {
                return done;
            }
            let done = add_index(tx, Cf::DescClaim, &ups, path.as_str(), *ttl);
            proof {
                lemma_with_ops(
                    start,
                    put_text(start.now, Cf::Claims, utf8(path@), claimant@, *ttl),
                    put_index(start.now, Cf::DescClaim, ancestors(path@), path@, *ttl),
                );
            }
            done
        },
        Step::DropClaim { path } => {
            let ghost start = tx.state();
            let ups = get_ancestors(path.as_str());
            let done = tx.del(Cf::Claims, path.as_str().as_bytes());
            if done.is_err() {
                return done;
            }
            let done = remove_index(tx, Cf::DescClaim, &ups, path.as_str());
            proof {
                lemma_with_ops(
                    start,
                    seq![OpView::Delete { cf: Cf::Claims, key: utf8(path@) }],
                    delete_index(Cf::DescClaim, ancestors(path@), path@),
                );
            }
            done
        },
        Step::Wait { owner, edge, ttl } => tx.set_str(
            Cf::WaitEdges,
            owner.as_str().as_bytes(),
            edge.as_str(),
            *ttl,
        ),
        Step::NoWait { owner } => tx.del(Cf::WaitEdges, owner.as_str().as_bytes()),
    }
}

/// Writes a sequence of steps.
pub fn run_steps<T: StoreTxn>(tx: &mut T, steps: &Vec<Step>) -> (r: Result<(), StoreError>)
    ensures
        wrote(old(tx).state(), final(tx).state(), r, steps_view(steps@)),
{
    let ghost all = steps_view(steps@);
    let ghost start = tx.state();
    let mut i: usize = 0;
    assert(all.take(0) =~= Seq::<StepView>::empty());
    assert(start.ops + Seq::<OpView>::empty() =~= start.ops);
    while i < steps.len()
        invariant
            i <= steps@.len(),
            all == steps_view(steps@),
            start == old(tx).state(),
            tx.state() == after_steps(start, all.take(i as int)),
            !start.writable ==> forall|j: int| 0 <= j < i ==> !step_puts(#[trigger] all[j]),
        decreases steps@.len() - i,
    {
        let done = run_step(tx, &steps[i]);
        proof {
            assert(all.take(i + 1).drop_last() =~= all.take(i as int));
            lemma_with_ops(
                start,
                steps_ops(start.now, all.take(i as int)),
                step_ops(start.now, all[i as int]),
            );
            assert(all[i as int] == steps@[i as int]@);
        }
        if done.is_err() {
            return done;
        }
        i = i + 1;
    }
    assert(all.take(all.len() as int) =~= all);
    Ok(())
}

/// The writes of one sequence of steps and then another are the writes of both.
pub proof fn lemma_steps_concat(now: u64, a: Seq<StepView>, b: Seq<StepView>)
    ensures
        steps_ops(now, a + b) == steps_ops(now, a) + steps_ops(now, b),
    decreases b.len(),
{
    if b.len() == 0 {
        assert(a + b =~= a);
        assert(steps_ops(now, a) + Seq::<OpView>::empty() =~= steps_ops(now, a));
    } else {
        assert((a + b).drop_last() =~= a + b.drop_last());
        lemma_steps_concat(now, a, b.drop_last());
        assert(steps_ops(now, a) + steps_ops(now, b.drop_last()) + step_ops(now, b.last())
            =~= steps_ops(now, a) + steps_ops(now, b));
    }
}

} // verus!
