//! What the lock service accepts, and how it puts its answers.

use vstd::prelude::*;
use crate::engine::types::{
    reason_text, rels_view, reqs_view, opt_meta, AcquireArgs, AcquireOutcome, AcquireView, ArgsView,
    AssertOutcome, AssertView, CycleOutcome, CycleView, LockReq, MetaView, Mode, Reason, RelReq,
    RelView, RenewOutcome, RenewView, ReqView, State, WaitEdgeMetadata,
};
use crate::proto;
use crate::proto::{
    acquire_number, assert_number, cycle_number, event_number, mode_number, renew_number,
    state_number, AcquireRequest, AcquireResponse, AcquireStatus, AssertFencingRequest,
    AssertFencingResponse, AssertStatus, CycleKind, DetectCycleResponse, Event, EventType,
    EventView, HealthResponse, IsBlockingRequest, LockRequest, ReleaseLocksRequest, ReleaseRequest,
    RenewResponse, RenewStatus, RequestRevokeRequest, SetWaitEdgeRequest,
};
use crate::status::{either, invalid, is_check, Code, Status, StatusView};
use crate::text::{
    concat2, concat3, decimal_int, decimal_of_i64, find_char, lemma_find_char, split_on,
    split_pieces, str_eq, texts, to_chars, utf8,
};

verus! {

/// Seven days: the longest lease.
pub const MAX_TTL_MS: u64 = 604_800_000;

/// The longest identifier, in bytes.
pub const MAX_ID_LEN: usize = 1024;

/// The longest path, in bytes.
pub const MAX_PATH_LEN: usize = 4096;

/// The most paths in one request.
pub const MAX_PATHS_PER_REQUEST: usize = 1024;

/// The longest lifetime of a claim.
pub const MAX_CLAIM_TTL_MS: u64 = 60_000;

/// The longest walk along wait-for edges.
pub const MAX_CYCLE_DEPTH: u32 = 64;

// ---------------------------------------------------------------------------
// Identifiers and leases
// ---------------------------------------------------------------------------

/// What is wrong with an identifier.
pub open spec fn id_fault(label: Seq<char>, id: Seq<char>) -> Option<StatusView> {
    if id.len() == 0 {
        Some(invalid(label + " must not be empty"@))
    } else if utf8(id).len() > MAX_ID_LEN {
        Some(invalid(label + " too long (max 1024 bytes)"@))
    } else {
        None
    }
}

/// Checks an identifier: neither empty nor too long.
pub fn check_id(label: &str, id: &str) -> (r: Result<(), Status>)
    ensures
        is_check(r, id_fault(label@, id@)),
{
    if id.is_empty() {
        return Err(Status::invalid_argument(concat2(label, " must not be empty")));
    }
    if id.as_bytes().len() > MAX_ID_LEN {
        return Err(Status::invalid_argument(concat2(label, " too long (max 1024 bytes)")));
    }
    Ok(())
}

/// What is wrong with a lease.
pub open spec fn ttl_fault(ttl_ms: u64) -> Option<StatusView> {
    if ttl_ms == 0 {
        Some(invalid("ttl_ms must be > 0 (a 0 TTL would create a lock that never expires)"@))
    } else if ttl_ms > MAX_TTL_MS {
        Some(invalid("ttl_ms too large (max 604800000 ms)"@))
    } else {
        None
    }
}

/// Checks a lease: some time, and not too long.
pub fn check_ttl(ttl_ms: u64) -> (r: Result<(), Status>)
    ensures
        is_check(r, ttl_fault(ttl_ms)),
{
    if ttl_ms == 0 {
        return Err(
            Status::invalid_argument(
                "ttl_ms must be > 0 (a 0 TTL would create a lock that never expires)".to_owned(),
            ),
        );
    }
    if ttl_ms > MAX_TTL_MS {
        return Err(Status::invalid_argument("ttl_ms too large (max 604800000 ms)".to_owned()));
    }
    Ok(())
}

// ---------------------------------------------------------------------------
// Paths
// ---------------------------------------------------------------------------

/// What can be wrong with the form of a path.
#[derive(Debug, Clone, Copy, PartialEq, Eq, Structural)]
pub enum PathFault {
    NoHandler,
    BadHandler,
    NotRooted,
    TrailingSlash,
    EmptySegment,
    DotSegment,
}

/// What is wrong with a segment of a path.
pub open spec fn segment_fault(seg: Seq<char>) -> Option<PathFault> {
    if seg.len() == 0 {
        Some(PathFault::EmptySegment)
    } else if seg == seq!['.'] || seg == seq!['.', '.'] {
        Some(PathFault::DotSegment)
    } else {
        None
    }
}

/// What is wrong with the first segment that has a fault.
pub open spec fn segments_fault(segs: Seq<Seq<char>>) -> Option<PathFault>
    decreases segs.len(),
{
    if segs.len() == 0 {
        None
    } else if segment_fault(segs[0]) is Some {
        segment_fault(segs[0])
    } else {
        segments_fault(segs.drop_first())
    }
}

/// What is wrong with the part of a path behind its handler: it is to be `/`, or
/// segments each behind a `/`, none of them empty, `.` or `..`.
pub open spec fn rooted_fault(p: Seq<char>) -> Option<PathFault> {
    if p.len() == 0 || p[0] != '/' {
        Some(PathFault::NotRooted)
    } else if p.len() == 1 {
        None
    } else if p.last() == '/' {
        Some(PathFault::TrailingSlash)
    } else {
        segments_fault(split_on(p.drop_first(), '/'))
    }
}

/// What is wrong with the form `handler:/a/b` of a path.
pub open spec fn form_fault(path: Seq<char>) -> Option<PathFault> {
    let colon = find_char(path, ':');
    let handler = path.take(colon);
    if colon >= path.len() {
        Some(PathFault::NoHandler)
    } else if handler.len() == 0 || handler.contains('/') {
        Some(PathFault::BadHandler)
    } else {
        rooted_fault(path.skip(colon + 1))
    }
}

/// The message for a path whose form has a fault.
pub open spec fn path_message(fault: PathFault, path: Seq<char>) -> Seq<char> {
    let what = match fault {
        PathFault::NoHandler => "path must be \"<handler>:<normalizedPath>\": "@,
        PathFault::BadHandler => "path has an empty or invalid handler: "@,
        PathFault::NotRooted => "normalized path must start with '/': "@,
        PathFault::TrailingSlash => "normalized path must not end with '/': "@,
        PathFault::EmptySegment => "normalized path has an empty segment ('//'): "@,
        PathFault::DotSegment => "normalized path has a '.'/'..' segment: "@,
    };
    what + path
}

/// What is wrong with a path.
pub open spec fn path_fault(path: Seq<char>) -> Option<StatusView> {
    if path.len() == 0 || utf8(path).len() > MAX_PATH_LEN {
        Some(invalid("path empty or too long"@))
    } else {
        match form_fault(path) {
            Some(f) => Some(invalid(path_message(f, path))),
            None => None,
        }
    }
}

fn find_segments_fault(segs: &Vec<String>) -> (r: Option<PathFault>)
    ensures
        r == segments_fault(texts(segs@)),
{
    let ghost all = texts(segs@);
    let mut i: usize = 0;
    assert(all.skip(0) =~= all);
    while i < segs.len()
        invariant
            i <= segs@.len(),
            all == texts(segs@),
            segments_fault(all) == segments_fault(all.skip(i as int)),
        decreases segs@.len() - i,
    {
        let seg = segs[i].as_str();
        assert(all.skip(i as int)[0] == seg@);
        assert(all.skip(i as int).drop_first() =~= all.skip(i + 1));
        if seg.is_empty() {
            return Some(PathFault::EmptySegment);
        }
        proof {
            reveal_strlit(".");
            reveal_strlit("..");
            assert("."@ =~= seq!['.']);
            assert(".."@ =~= seq!['.', '.']);
        }
        if str_eq(seg, ".") || str_eq(seg, "..") {
            return Some(PathFault::DotSegment);
        }
        i = i + 1;
    }
    None
}

fn find_form_fault(path: &str) -> (r: Option<PathFault>)
    ensures
        r == form_fault(path@),
{
    let chars = to_chars(path);
    let mut colon: usize = 0;
    let mut slash = false;
    while colon < chars.len() && chars[colon] != ':'
        invariant
            chars@ == path@,
            colon <= chars@.len(),
            forall|i: int| 0 <= i < colon ==> #[trigger] chars@[i] != ':',
            slash == (exists|i: int| 0 <= i < colon && #[trigger] chars@[i] == '/'),
        decreases chars@.len() - colon,
    {
        if chars[colon] == '/' {
            slash = true;
        }
        colon = colon + 1;
    }
    proof {
        lemma_find_char(path@, ':', colon as int);
        let handler = path@.take(colon as int);
        assert(slash == handler.contains('/')) by {
            if slash {
                let i = choose|i: int| 0 <= i < colon && #[trigger] chars@[i] == '/';
                assert(handler[i] == '/');
            }
            if handler.contains('/') {
                let i = handler.index_of('/');
                assert(chars@[i] == '/');
            }
        }
    }
    if colon == chars.len() {
        return Some(PathFault::NoHandler);
    }
    if colon == 0 || slash {
        return Some(PathFault::BadHandler);
    }
    let ghost p = path@.skip(colon + 1);
    let from: usize = colon + 1;
    if from == chars.len() || chars[from] != '/' {
        return Some(PathFault::NotRooted);
    }
    if from + 1 == chars.len() {
        return None;
    }
    assert(p.last() == chars@.last());
    if chars[chars.len() - 1] == '/' {
        return Some(PathFault::TrailingSlash);
    }
    let segs = split_pieces(&chars, from + 1, '/');
    assert(chars@.skip(from + 1) =~= p.drop_first());
    find_segments_fault(&segs)
}

/// Checks a path: `handler:/a/b`, normalized and not too long.
pub fn check_path(path: &str) -> (r: Result<(), Status>)
    ensures
        is_check(r, path_fault(path@)),
{
    if path.is_empty() || path.as_bytes().len() > MAX_PATH_LEN {
        return Err(Status::invalid_argument("path empty or too long".to_owned()));
    }
    match find_form_fault(path) {
        None => Ok(()),
        Some(fault) => {
            let what = match fault {
                PathFault::NoHandler => "path must be \"<handler>:<normalizedPath>\": ",
                PathFault::BadHandler => "path has an empty or invalid handler: ",
                PathFault::NotRooted => "normalized path must start with '/': ",
                PathFault::TrailingSlash => "normalized path must not end with '/': ",
                PathFault::EmptySegment => "normalized path has an empty segment ('//'): ",
                PathFault::DotSegment => "normalized path has a '.'/'..' segment: ",
            };
            Err(Status::invalid_argument(concat2(what, path)))
        },
    }
}

/// What is wrong with the first path that has a fault.
pub open spec fn paths_fault(paths: Seq<Seq<char>>) -> Option<StatusView>
    decreases paths.len(),
{
    if paths.len() == 0 {
        None
    } else if path_fault(paths[0]) is Some {
        path_fault(paths[0])
    } else {
        paths_fault(paths.drop_first())
    }
}

fn check_paths(paths: &Vec<String>) -> (r: Result<(), Status>)
    ensures
        is_check(r, paths_fault(texts(paths@))),
{
    let ghost all = texts(paths@);
    let mut i: usize = 0;
    assert(all.skip(0) =~= all);
    while i < paths.len()
        invariant
            i <= paths@.len(),
            all == texts(paths@),
            paths_fault(all) == paths_fault(all.skip(i as int)),
        decreases paths@.len() - i,
    {
        assert(all.skip(i as int)[0] == paths@[i as int]@);
        assert(all.skip(i as int).drop_first() =~= all.skip(i + 1));
        let checked = check_path(paths[i].as_str());
        if checked.is_err() {
            return checked;
        }
        i = i + 1;
    }
    Ok(())
}

// ---------------------------------------------------------------------------
// Reasons, tokens, events and enumerations
// ---------------------------------------------------------------------------

/// The reasons that a waiter can be blocked for.
pub open spec fn blocking_reasons() -> Seq<Seq<char>> {
    seq![
        reason_text(Reason::AncestorLocked),
        reason_text(Reason::WriteLocked),
        reason_text(Reason::ReadLocked),
        reason_text(Reason::DescendantWriteLocked),
        reason_text(Reason::DescendantReadLocked),
        reason_text(Reason::PreemptClaimed),
    ]
}

/// The reasons that a waiter can be blocked for.
pub fn blocking_reason_list() -> (r: Vec<&'static str>)
    ensures
        r@.len() == blocking_reasons().len(),
        forall|i: int| 0 <= i < r@.len() ==> (#[trigger] r@[i])@ == blocking_reasons()[i],
{
    vec![
        Reason::AncestorLocked.text(),
        Reason::WriteLocked.text(),
        Reason::ReadLocked.text(),
        Reason::DescendantWriteLocked.text(),
        Reason::DescendantReadLocked.text(),
        Reason::PreemptClaimed.text(),
    ]
}

/// A text as `Debug` writes it: quoted and escaped.
pub uninterp spec fn debug_text(s: Seq<char>) -> Seq<char>;

/// `format!` with `{:?}` on a `str`: the text between quotes, with escapes. The
/// contract names the result; which characters are escaped is left unsaid.
#[verifier::external_body]
fn debug_of(s: &str) -> (r: String)
    ensures
        r@ == debug_text(s@),
{
    format!("{:?}", s)
}

/// The message for a reason that no waiter can be blocked for.
pub open spec fn reason_message(quoted: Seq<char>) -> Seq<char> {
    "unknown is_blocking reason "@ + quoted
        + " (expected one of [\"ancestor_locked\", \"write_locked\", \"read_locked\", \"descendant_write_locked\", \"descendant_read_locked\", \"preempt_claimed\"])"@
}

/// What is wrong with a reason, written in quotes as `quoted`.
pub open spec fn reason_fault(reason: Seq<char>, quoted: Seq<char>) -> Option<StatusView> {
    if blocking_reasons().contains(reason) {
        None
    } else {
        Some(invalid(reason_message(quoted)))
    }
}

/// Checks a reason, given as it is written in quotes: one that a waiter can be
/// blocked for.
pub fn check_reason_quoted(reason: &str, quoted: &str) -> (r: Result<(), Status>)
    ensures
        is_check(r, reason_fault(reason@, quoted@)),
{
    let known = blocking_reason_list();
    let mut i: usize = 0;
    while i < known.len()
        invariant
            i <= known@.len() == blocking_reasons().len(),
            forall|j: int| 0 <= j < known@.len() ==> (#[trigger] known@[j])@ == blocking_reasons()[j],
            forall|j: int| 0 <= j < i ==> #[trigger] blocking_reasons()[j] != reason@,
        decreases known@.len() - i,
    {
        if str_eq(known[i], reason) {
            assert(blocking_reasons()[i as int] == reason@);
            return Ok(());
        }
        assert(known@[i as int]@ == blocking_reasons()[i as int]);
        i = i + 1;
    }
    Err(
        Status::invalid_argument(
            concat3(
                "unknown is_blocking reason ",
                quoted,
                " (expected one of [\"ancestor_locked\", \"write_locked\", \"read_locked\", \"descendant_write_locked\", \"descendant_read_locked\", \"preempt_claimed\"])",
            ),
        ),
    )
}

/// Checks a reason: one that a waiter can be blocked for.
pub fn check_blocking_reason(reason: &str) -> (r: Result<(), Status>)
    ensures
        is_check(r, reason_fault(reason@, debug_text(reason@))),
{
    let quoted = debug_of(reason);
    check_reason_quoted(reason, quoted.as_str())
}

/// What is wrong with the token of a write.
pub open spec fn token_fault(token: i64) -> Option<StatusView> {
    if token <= 0 {
        Some(invalid("fencing_token must be > 0 for write locks"@))
    } else {
        None
    }
}

/// Checks the token of a write: above zero.
pub fn check_write_fencing_token(fencing_token: i64) -> (r: Result<(), Status>)
    ensures
        is_check(r, token_fault(fencing_token)),
{
    if fencing_token <= 0 {
        return Err(
            Status::invalid_argument("fencing_token must be > 0 for write locks".to_owned()),
        );
    }
    Ok(())
}

/// Whether a number on the wire is that of a type of event.
pub open spec fn is_event_number(i: i32) -> bool {
    exists|e: EventType| #[trigger] event_number(e) == i
}

/// What is wrong with an event.
pub open spec fn event_fault(ev: EventView) -> Option<StatusView> {
    either(
        id_fault("event.owner_id"@, ev.owner),
        if is_event_number(ev.kind) {
            None
        } else {
            Some(invalid("invalid event type value "@ + decimal_int(ev.kind as int)))
        },
    )
}

fn number_message(what: &str, i: i32) -> (r: String)
    ensures
        r@ == what@ + decimal_int(i as int),
{
    let n = decimal_of_i64(i as i64);
    concat2(what, n.as_str())
}

/// Checks an event: an owner, and a known type.
pub fn check_event(ev: &Event) -> (r: Result<(), Status>)
    ensures
        is_check(r, event_fault(ev@)),
{
    let checked = check_id("event.owner_id", ev.owner_id.as_str());
    if checked.is_err() {
        return checked;
    }
    match EventType::from_number(ev.kind) {
        Some(_) => Ok(()),
        None => Err(
            Status::invalid_argument(number_message("invalid event type value ", ev.kind)),
        ),
    }
}

/// The mode with a number on the wire, or the refusal.
pub open spec fn mode_of(i: i32) -> Result<Mode, StatusView> {
    if i == mode_number(proto::Mode::Read) {
        Ok(Mode::Read)
    } else if i == mode_number(proto::Mode::Write) {
        Ok(Mode::Write)
    } else {
        Err(invalid("invalid mode value "@ + decimal_int(i as int)))
    }
}

/// The mode with a number on the wire.
pub fn to_mode(i: i32) -> (r: Result<Mode, Status>)
    ensures
        match (r, mode_of(i)) {
            (Ok(a), Ok(b)) => a == b,
            (Err(s), Err(f)) => s@ == f,
            _ => false,
        },
{
    match proto::Mode::from_number(i) {
        Some(proto::Mode::Read) => Ok(Mode::Read),
        Some(proto::Mode::Write) => Ok(Mode::Write),
        None => {
            assert(mode_number(proto::Mode::Read) != i && mode_number(proto::Mode::Write) != i);
            Err(Status::invalid_argument(number_message("invalid mode value ", i)))
        },
    }
}

/// The state with a number on the wire, or the refusal.
pub open spec fn state_of(i: i32) -> Result<State, StatusView> {
    if i == state_number(proto::LockState::Held) {
        Ok(State::Held)
    } else if i == state_number(proto::LockState::New) {
        Ok(State::New)
    } else {
        Err(invalid("invalid lock state value "@ + decimal_int(i as int)))
    }
}

/// The state with a number on the wire.
pub fn to_state(i: i32) -> (r: Result<State, Status>)
    ensures
        match (r, state_of(i)) {
            (Ok(a), Ok(b)) => a == b,
            (Err(s), Err(f)) => s@ == f,
            _ => false,
        },
{
    match proto::LockState::from_number(i) {
        Some(proto::LockState::Held) => Ok(State::Held),
        Some(proto::LockState::New) => Ok(State::New),
        None => {
            assert(state_number(proto::LockState::Held) != i && state_number(
                proto::LockState::New,
            ) != i);
            Err(Status::invalid_argument(number_message("invalid lock state value ", i)))
        },
    }
}

// ---------------------------------------------------------------------------
// Errors of the engine
// ---------------------------------------------------------------------------

/// The status for an error of the engine: a passing one asks for a retry, any
/// other is reported without its detail.
pub open spec fn engine_fault(retryable: bool) -> StatusView {
    if retryable {
        StatusView {
            code: Code::Unavailable,
            message: "storage temporarily unavailable (contention/region churn); retry"@,
        }
    } else {
        StatusView { code: Code::Internal, message: "internal error"@ }
    }
}

/// The status for an error of the engine.
pub fn engine_err(retryable: bool) -> (r: Status)
    ensures
        r@ == engine_fault(retryable),
{
    if retryable {
        Status::unavailable(
            "storage temporarily unavailable (contention/region churn); retry".to_owned(),
        )
    } else {
        Status::internal("internal error".to_owned())
    }
}

/// The status for an error that is reported with its message.
pub fn internal(message: &str) -> (r: Status)
    ensures
        r@ == (StatusView { code: Code::Internal, message: message@ }),
{
    Status::internal(message.to_owned())
}

// ---------------------------------------------------------------------------
// Acquire
// ---------------------------------------------------------------------------

/// The refusal of a request with too many paths.
pub open spec fn count_fault(n: int) -> Option<StatusView> {
    if n > MAX_PATHS_PER_REQUEST {
        Some(invalid("too many paths in one request (max 1024)"@))
    } else {
        None
    }
}

fn too_many() -> (r: Status)
    ensures
        r@ == invalid("too many paths in one request (max 1024)"@),
{
    Status::invalid_argument("too many paths in one request (max 1024)".to_owned())
}

pub open spec fn request_paths(v: Seq<LockRequest>) -> Seq<Seq<char>> {
    Seq::new(v.len(), |i: int| v[i].path@)
}

pub open spec fn release_paths(v: Seq<ReleaseRequest>) -> Seq<Seq<char>> {
    Seq::new(v.len(), |i: int| v[i].path@)
}

/// Whether a request asks for a write lock.
pub open spec fn asks_write(v: Seq<LockRequest>) -> bool {
    exists|i: int| 0 <= i < v.len() && mode_of((#[trigger] v[i]).mode) == Ok::<Mode, StatusView>(
        Mode::Write,
    )
}

/// A requested lock, decoded, or the refusal: the mode is looked at before the
/// state.
pub open spec fn decode_request(r: LockRequest) -> Result<ReqView, StatusView> {
    match mode_of(r.mode) {
        Err(f) => Err(f),
        Ok(mode) => match state_of(r.state) {
            Err(f) => Err(f),
            Ok(state) => Ok(ReqView { path: r.path@, mode, state }),
        },
    }
}

/// The requested locks, decoded, or the first refusal.
pub open spec fn decode_requests(v: Seq<LockRequest>) -> Result<Seq<ReqView>, StatusView>
    decreases v.len(),
{
    if v.len() == 0 {
        Ok(Seq::empty())
    } else {
        match decode_requests(v.drop_last()) {
            Err(f) => Err(f),
            Ok(rest) => match decode_request(v.last()) {
                Err(f) => Err(f),
                Ok(r) => Ok(rest.push(r)),
            },
        }
    }
}

/// The locks to give up, decoded, or the first refusal.
pub open spec fn decode_releases(v: Seq<ReleaseRequest>) -> Result<Seq<RelView>, StatusView>
    decreases v.len(),
{
    if v.len() == 0 {
        Ok(Seq::empty())
    } else {
        match decode_releases(v.drop_last()) {
            Err(f) => Err(f),
            Ok(rest) => match mode_of(v.last().mode) {
                Err(f) => Err(f),
                Ok(mode) => Ok(rest.push(RelView { path: v.last().path@, mode })),
            },
        }
    }
}

/// What is wrong with an acquire before its enumerations are decoded.
pub open spec fn acquire_fault(req: AcquireRequest) -> Option<StatusView> {
    either(
        id_fault("owner_id"@, req.owner_id@),
        either(
            ttl_fault(req.ttl_ms),
            either(
                count_fault((req.requests@.len() + req.release_requests@.len()) as int),
                either(
                    paths_fault(request_paths(req.requests@)),
                    either(
                        paths_fault(release_paths(req.release_requests@)),
                        if asks_write(req.requests@) {
                            token_fault(req.fencing_token)
                        } else {
                            None
                        },
                    ),
                ),
            ),
        ),
    )
}

/// The arguments of an acquire, or the refusal.
pub open spec fn acquire_request(req: AcquireRequest) -> Result<ArgsView, StatusView> {
    match acquire_fault(req) {
        Some(f) => Err(f),
        None => match decode_requests(req.requests@) {
            Err(f) => Err(f),
            Ok(requests) => match decode_releases(req.release_requests@) {
                Err(f) => Err(f),
                Ok(releases) => Ok(
                    ArgsView {
                        owner: req.owner_id@,
                        ttl: req.ttl_ms,
                        requests,
                        token: req.fencing_token,
                        releases,
                    },
                ),
            },
        },
    }
}

fn check_request_paths(v: &Vec<LockRequest>) -> (r: Result<(), Status>)
    ensures
        is_check(r, paths_fault(request_paths(v@))),
{
    let ghost all = request_paths(v@);
    let mut i: usize = 0;
    assert(all.skip(0) =~= all);
    while i < v.len()
        invariant
            i <= v@.len(),
            all == request_paths(v@),
            paths_fault(all) == paths_fault(all.skip(i as int)),
        decreases v@.len() - i,
    {
        assert(all.skip(i as int)[0] == v@[i as int].path@);
        assert(all.skip(i as int).drop_first() =~= all.skip(i + 1));
        let checked = check_path(v[i].path.as_str());
        if checked.is_err() {
            return checked;
        }
        i = i + 1;
    }
    Ok(())
}

fn check_release_paths(v: &Vec<ReleaseRequest>) -> (r: Result<(), Status>)
    ensures
        is_check(r, paths_fault(release_paths(v@))),
{
    let ghost all = release_paths(v@);
    let mut i: usize = 0;
    assert(all.skip(0) =~= all);
    while i < v.len()
        invariant
            i <= v@.len(),
            all == release_paths(v@),
            paths_fault(all) == paths_fault(all.skip(i as int)),
        decreases v@.len() - i,
    {
        assert(all.skip(i as int)[0] == v@[i as int].path@);
        assert(all.skip(i as int).drop_first() =~= all.skip(i + 1));
        let checked = check_path(v[i].path.as_str());
        if checked.is_err() {
            return checked;
        }
        i = i + 1;
    }
    Ok(())
}

fn any_write(v: &Vec<LockRequest>) -> (r: bool)
    ensures
        r == asks_write(v@),
{
    let mut i: usize = 0;
    while i < v.len()
        invariant
            i <= v@.len(),
            forall|j: int|
                0 <= j < i ==> mode_of((#[trigger] v@[j]).mode) != Ok::<Mode, StatusView>(
                    Mode::Write,
                ),
        decreases v@.len() - i,
    {
        if let Ok(Mode::Write) = to_mode(v[i].mode) {
            assert(mode_of(v@[i as int].mode) == Ok::<Mode, StatusView>(Mode::Write));
            return true;
        }
        i = i + 1;
    }
    false
}

proof fn lemma_decode_requests_stops(v: Seq<LockRequest>, n: int)
    requires
        0 <= n <= v.len(),
        decode_requests(v.take(n)) is Err,
    ensures
        decode_requests(v) == decode_requests(v.take(n)),
    decreases v.len() - n,
{
    if n == v.len() {
        assert(v.take(n) =~= v);
    } else {
        assert(v.take(n + 1).drop_last() =~= v.take(n));
        lemma_decode_requests_stops(v, n + 1);
    }
}

fn to_requests(v: &Vec<LockRequest>) -> (r: Result<Vec<LockReq>, Status>)
    ensures
        match (r, decode_requests(v@)) {
            (Ok(a), Ok(b)) => reqs_view(a@) == b,
            (Err(s), Err(f)) => s@ == f,
            _ => false,
        },
{
    let mut out: Vec<LockReq> = Vec::new();
    let mut i: usize = 0;
    assert(v@.take(0) =~= Seq::<LockRequest>::empty());
    assert(reqs_view(out@) =~= Seq::<ReqView>::empty());
    while i < v.len()
        invariant
            i <= v@.len(),
            decode_requests(v@.take(i as int)) == Ok::<Seq<ReqView>, StatusView>(reqs_view(out@)),
        decreases v@.len() - i,
    {
        let ghost before = reqs_view(out@);
        assert(v@.take(i + 1).drop_last() =~= v@.take(i as int));
        assert(v@.take(i + 1).last() == v@[i as int]);
        let mode = match to_mode(v[i].mode) {
            Err(s) => {
                proof {
                    lemma_decode_requests_stops(v@, i + 1);
                }
                return Err(s);
            },
            Ok(mode) => mode,
        };
        let state = match to_state(v[i].state) {
            Err(s) => {
                proof {
                    lemma_decode_requests_stops(v@, i + 1);
                }
                return Err(s);
            },
            Ok(state) => state,
        };
        out.push(LockReq { path: v[i].path.clone(), mode, state });
        assert(reqs_view(out@) =~= before.push(out@.last()@));
        i = i + 1;
    }
    assert(v@.take(v@.len() as int) =~= v@);
    Ok(out)
}

proof fn lemma_decode_releases_stops(v: Seq<ReleaseRequest>, n: int)
    requires
        0 <= n <= v.len(),
        decode_releases(v.take(n)) is Err,
    ensures
        decode_releases(v) == decode_releases(v.take(n)),
    decreases v.len() - n,
{
    if n == v.len() {
        assert(v.take(n) =~= v);
    } else {
        assert(v.take(n + 1).drop_last() =~= v.take(n));
        lemma_decode_releases_stops(v, n + 1);
    }
}

fn to_releases(v: &Vec<ReleaseRequest>) -> (r: Result<Vec<RelReq>, Status>)
    ensures
        match (r, decode_releases(v@)) {
            (Ok(a), Ok(b)) => rels_view(a@) == b,
            (Err(s), Err(f)) => s@ == f,
            _ => false,
        },
{
    let mut out: Vec<RelReq> = Vec::new();
    let mut i: usize = 0;
    assert(v@.take(0) =~= Seq::<ReleaseRequest>::empty());
    assert(rels_view(out@) =~= Seq::<RelView>::empty());
    while i < v.len()
        invariant
            i <= v@.len(),
            decode_releases(v@.take(i as int)) == Ok::<Seq<RelView>, StatusView>(rels_view(out@)),
        decreases v@.len() - i,
    {
        let ghost before = rels_view(out@);
        assert(v@.take(i + 1).drop_last() =~= v@.take(i as int));
        assert(v@.take(i + 1).last() == v@[i as int]);
        let mode = match to_mode(v[i].mode) {
            Err(s) => {
                proof {
                    lemma_decode_releases_stops(v@, i + 1);
                }
                return Err(s);
            },
            Ok(mode) => mode,
        };
        out.push(RelReq { path: v[i].path.clone(), mode });
        assert(rels_view(out@) =~= before.push(out@.last()@));
        i = i + 1;
    }
    assert(v@.take(v@.len() as int) =~= v@);
    Ok(out)
}

fn check_acquire(req: &AcquireRequest) -> (r: Result<(), Status>)
    ensures
        is_check(r, acquire_fault(*req)),
{
    let checked = check_id("owner_id", req.owner_id.as_str());
    if checked.is_err() {
        return checked;
    }
    let checked = check_ttl(req.ttl_ms);
    if checked.is_err() {
        return checked;
    }
    if req.release_requests.len() > MAX_PATHS_PER_REQUEST || req.requests.len()
        > MAX_PATHS_PER_REQUEST - req.release_requests.len() {
        return Err(too_many());
    }
    let checked = check_request_paths(&req.requests);
    if checked.is_err() {
        return checked;
    }
    let checked = check_release_paths(&req.release_requests);
    if checked.is_err() {
        return checked;
    }
    if any_write(&req.requests) {
        return check_write_fencing_token(req.fencing_token);
    }
    Ok(())
}

/// Checks and decodes an acquire.
pub fn acquire_args(req: &AcquireRequest) -> (r: Result<AcquireArgs, Status>)
    ensures
        match (r, acquire_request(*req)) {
            (Ok(a), Ok(b)) => a@ == b,
            (Err(s), Err(f)) => s@ == f,
            _ => false,
        },
{
    match check_acquire(req) {
        Err(s) => {
            return Err(s);
        },
        Ok(_) => {},
    }
    let requests = match to_requests(&req.requests) {
        Err(s) => {
            return Err(s);
        },
        Ok(v) => v,
    };
    let release_requests = match to_releases(&req.release_requests) {
        Err(s) => {
            return Err(s);
        },
        Ok(v) => v,
    };
    Ok(
        AcquireArgs {
            owner_id: req.owner_id.clone(),
            ttl_ms: req.ttl_ms,
            requests,
            fencing_token: req.fencing_token,
            release_requests,
        },
    )
}

/// Whether an answer to an acquire tells its outcome.
pub open spec fn tells_acquire(r: AcquireResponse, outcome: AcquireView) -> bool {
    match outcome {
            AcquireView::Granted => {
                &&& r.status == acquire_number(AcquireStatus::Granted)
                &&& r.path@ == Seq::<char>::empty()
                &&& r.owner@ == Seq::<char>::empty()
                &&& r.reason@ == Seq::<char>::empty()
            },
            AcquireView::Conflict { path, owner, reason } => {
                &&& r.status == acquire_number(AcquireStatus::Conflict)
                &&& r.path@ == path
                &&& r.owner@ == owner
                &&& r.reason@ == reason
            },
            AcquireView::Lost { path, reason } => {
                &&& r.status == acquire_number(AcquireStatus::Lost)
                &&& r.path@ == path
                &&& r.owner@ == Seq::<char>::empty()
                &&& r.reason@ == reason
            },
    }
}

/// The answer to an acquire.
pub fn acquire_response(outcome: &AcquireOutcome) -> (r: AcquireResponse)
    ensures
        tells_acquire(r, outcome@),
{
    match outcome {
        AcquireOutcome::Granted => AcquireResponse {
            status: 0,
            path: String::new(),
            owner: String::new(),
            reason: String::new(),
        },
        AcquireOutcome::Conflict { path, owner, reason } => AcquireResponse {
            status: 1,
            path: path.clone(),
            owner: owner.clone(),
            reason: reason.clone(),
        },
        AcquireOutcome::Lost { path, reason } => AcquireResponse {
            status: 2,
            path: path.clone(),
            owner: String::new(),
            reason: reason.clone(),
        },
    }
}

/// Whether an acquire publishes a release: it was granted, gave up locks, and was
/// asked to.
pub open spec fn publishes_release(req: AcquireRequest, outcome: AcquireView) -> bool {
    outcome == AcquireView::Granted && req.release_requests@.len() > 0 && req.emit_release
}

/// Whether an acquire publishes a release.
pub fn acquire_publishes(req: &AcquireRequest, outcome: &AcquireOutcome) -> (r: bool)
    ensures
        r == publishes_release(*req, outcome@),
{
    match outcome {
        AcquireOutcome::Granted => req.release_requests.len() > 0 && req.emit_release,
        _ => false,
    }
}

// ---------------------------------------------------------------------------
// Release, renew and fencing
// ---------------------------------------------------------------------------

/// The locks that a release gives up, or the refusal.
pub open spec fn release_request(req: ReleaseLocksRequest) -> Result<Seq<RelView>, StatusView> {
    match either(
        id_fault("owner_id"@, req.owner_id@),
        either(
            count_fault(req.requests@.len() as int),
            paths_fault(release_paths(req.requests@)),
        ),
    ) {
        Some(f) => Err(f),
        None => decode_releases(req.requests@),
    }
}

/// Checks and decodes a release.
pub fn release_args(req: &ReleaseLocksRequest) -> (r: Result<Vec<RelReq>, Status>)
    ensures
        match (r, release_request(*req)) {
            (Ok(a), Ok(b)) => rels_view(a@) == b,
            (Err(s), Err(f)) => s@ == f,
            _ => false,
        },
{
    match check_id("owner_id", req.owner_id.as_str()) {
        Err(s) => {
            return Err(s);
        },
        Ok(_) => {},
    }
    if req.requests.len() > MAX_PATHS_PER_REQUEST {
        return Err(too_many());
    }
    match check_release_paths(&req.requests) {
        Err(s) => {
            return Err(s);
        },
        Ok(_) => {},
    }
    to_releases(&req.requests)
}

/// Checks a renewal: an owner and a lease.
pub fn check_renew(owner_id: &str, ttl_ms: u64) -> (r: Result<(), Status>)
    ensures
        is_check(r, either(id_fault("owner_id"@, owner_id@), ttl_fault(ttl_ms))),
{
    let checked = check_id("owner_id", owner_id);
    if checked.is_err() {
        return checked;
    }
    check_ttl(ttl_ms)
}

/// Whether an answer to a renewal tells its outcome.
pub open spec fn tells_renew(r: RenewResponse, outcome: RenewView) -> bool {
    match outcome {
            RenewView::Renewed => {
                &&& r.status == renew_number(RenewStatus::Renewed)
                &&& r.path@ == Seq::<char>::empty()
                &&& r.reason@ == Seq::<char>::empty()
            },
            RenewView::Lost { path, reason } => {
                &&& r.status == renew_number(RenewStatus::Lost)
                &&& r.path@ == path
                &&& r.reason@ == reason
            },
    }
}

/// The answer to a renewal.
pub fn renew_response(outcome: &RenewOutcome) -> (r: RenewResponse)
    ensures
        tells_renew(r, outcome@),
{
    match outcome {
        RenewOutcome::Renewed => RenewResponse {
            status: 0,
            path: String::new(),
            reason: String::new(),
        },
        RenewOutcome::Lost { path, reason } => RenewResponse {
            status: 1,
            path: path.clone(),
            reason: reason.clone(),
        },
    }
}

/// What is wrong with an assertion of fenced ownership.
pub open spec fn assert_fault(req: AssertFencingRequest) -> Option<StatusView> {
    either(
        id_fault("owner_id"@, req.owner_id@),
        either(
            count_fault(req.paths@.len() as int),
            either(
                paths_fault(texts(req.paths@)),
                if req.paths@.len() > 0 {
                    token_fault(req.fencing_token)
                } else {
                    None
                },
            ),
        ),
    )
}

/// Checks an assertion of fenced ownership.
pub fn check_assert_fencing(req: &AssertFencingRequest) -> (r: Result<(), Status>)
    ensures
        is_check(r, assert_fault(*req)),
{
    let checked = check_id("owner_id", req.owner_id.as_str());
    if checked.is_err() {
        return checked;
    }
    if req.paths.len() > MAX_PATHS_PER_REQUEST {
        return Err(too_many());
    }
    let checked = check_paths(&req.paths);
    if checked.is_err() {
        return checked;
    }
    if req.paths.len() > 0 {
        return check_write_fencing_token(req.fencing_token);
    }
    Ok(())
}

/// Whether an answer to an assertion of fenced ownership tells its outcome.
pub open spec fn tells_assert(r: AssertFencingResponse, outcome: AssertView) -> bool {
    match outcome {
            AssertView::Held => {
                &&& r.status == assert_number(AssertStatus::Held)
                &&& r.path@ == Seq::<char>::empty()
                &&& r.reason@ == Seq::<char>::empty()
            },
            AssertView::Fail { path, reason } => {
                &&& r.status == assert_number(AssertStatus::Fail)
                &&& r.path@ == path
                &&& r.reason@ == reason
            },
    }
}

/// The answer to an assertion of fenced ownership.
pub fn assert_response(outcome: &AssertOutcome) -> (r: AssertFencingResponse)
    ensures
        tells_assert(r, outcome@),
{
    match outcome {
        AssertOutcome::Held => AssertFencingResponse {
            status: 0,
            path: String::new(),
            reason: String::new(),
        },
        AssertOutcome::Fail { path, reason } => AssertFencingResponse {
            status: 1,
            path: path.clone(),
            reason: reason.clone(),
        },
    }
}

// ---------------------------------------------------------------------------
// Deadlock detection
// ---------------------------------------------------------------------------

/// The depth of a walk: what was asked for, up to the longest.
pub open spec fn clamped_depth(max_depth: u32) -> u32 {
    if max_depth < MAX_CYCLE_DEPTH {
        max_depth
    } else {
        MAX_CYCLE_DEPTH
    }
}

/// Checks a walk along wait-for edges, and gives its depth.
pub fn cycle_depth(start_owner_id: &str, max_depth: u32) -> (r: Result<u32, Status>)
    ensures
        match (r, id_fault("start_owner_id"@, start_owner_id@)) {
            (Ok(d), None) => d == clamped_depth(max_depth),
            (Err(s), Some(f)) => s@ == f,
            _ => false,
        },
{
    match check_id("start_owner_id", start_owner_id) {
        Err(s) => Err(s),
        Ok(_) => if max_depth < MAX_CYCLE_DEPTH {
            Ok(max_depth)
        } else {
            Ok(MAX_CYCLE_DEPTH)
        },
    }
}

/// Whether an answer to a walk along wait-for edges tells its outcome.
pub open spec fn tells_cycle(r: DetectCycleResponse, outcome: CycleView) -> bool {
    match outcome {
            CycleView::Clear => r.kind == cycle_number(CycleKind::Clear) && texts(r.chain@)
                == Seq::<Seq<char>>::empty(),
            CycleView::Cycle(chain) => r.kind == cycle_number(CycleKind::Found) && texts(r.chain@)
                == chain,
            CycleView::Truncated(chain) => r.kind == cycle_number(CycleKind::Truncated) && texts(
                r.chain@,
            ) == chain,
    }
}

/// The answer to a walk along wait-for edges.
pub fn cycle_response(outcome: CycleOutcome) -> (r: DetectCycleResponse)
    ensures
        tells_cycle(r, outcome@),
{
    match outcome {
        CycleOutcome::Clear => {
            let chain: Vec<String> = Vec::new();
            assert(texts(chain@) =~= Seq::<Seq<char>>::empty());
            DetectCycleResponse { kind: 0, chain }
        },
        CycleOutcome::Cycle(chain) => DetectCycleResponse { kind: 1, chain },
        CycleOutcome::Truncated(chain) => DetectCycleResponse { kind: 2, chain },
    }
}

/// What is wrong with a question whether an owner blocks, with the reason written
/// in quotes as `quoted`.
pub open spec fn blocking_fault(req: IsBlockingRequest, quoted: Seq<char>) -> Option<StatusView> {
    either(
        path_fault(req.conflict_path@),
        either(
            id_fault("conflict_owner"@, req.conflict_owner@),
            reason_fault(req.reason@, quoted),
        ),
    )
}

/// Checks a question whether an owner blocks.
pub fn check_is_blocking(req: &IsBlockingRequest) -> (r: Result<(), Status>)
    ensures
        is_check(r, blocking_fault(*req, debug_text(req.reason@))),
{
    let checked = check_path(req.conflict_path.as_str());
    if checked.is_err() {
        return checked;
    }
    let checked = check_id("conflict_owner", req.conflict_owner.as_str());
    if checked.is_err() {
        return checked;
    }
    check_blocking_reason(req.reason.as_str())
}

/// What a wait-for edge says of the conflict, or the refusal, with the reason
/// written in quotes as `quoted`: path and reason go together.
pub open spec fn wait_edge_request(req: SetWaitEdgeRequest, quoted: Seq<char>) -> Result<
    Option<MetaView>,
    StatusView,
> {
    match either(
        id_fault("owner_id"@, req.owner_id@),
        either(id_fault("conflict_owner"@, req.conflict_owner@), ttl_fault(req.ttl_ms)),
    ) {
        Some(f) => Err(f),
        None => if req.conflict_path@.len() == 0 && req.reason@.len() == 0 {
            Ok(None)
        } else if req.conflict_path@.len() == 0 || req.reason@.len() == 0 {
            Err(invalid("conflict_path and reason must be provided together"@))
        } else {
            match either(path_fault(req.conflict_path@), reason_fault(req.reason@, quoted)) {
                Some(f) => Err(f),
                None => Ok(Some(MetaView { path: req.conflict_path@, reason: req.reason@ })),
            }
        },
    }
}

/// Checks a wait-for edge, and gives what it says of the conflict.
pub fn wait_edge_metadata(req: &SetWaitEdgeRequest) -> (r: Result<Option<WaitEdgeMetadata>, Status>)
    ensures
        match (r, wait_edge_request(*req, debug_text(req.reason@))) {
            (Ok(a), Ok(b)) => opt_meta(a) == b,
            (Err(s), Err(f)) => s@ == f,
            _ => false,
        },
{
    match check_id("owner_id", req.owner_id.as_str()) {
        Err(s) => {
            return Err(s);
        },
        Ok(_) => {},
    }
    match check_id("conflict_owner", req.conflict_owner.as_str()) {
        Err(s) => {
            return Err(s);
        },
        Ok(_) => {},
    }
    match check_ttl(req.ttl_ms) {
        Err(s) => {
            return Err(s);
        },
        Ok(_) => {},
    }
    let no_path = req.conflict_path.as_str().is_empty();
    let no_reason = req.reason.as_str().is_empty();
    if no_path && no_reason {
        return Ok(None);
    }
    if no_path || no_reason {
        return Err(
            Status::invalid_argument(
                "conflict_path and reason must be provided together".to_owned(),
            ),
        );
    }
    match check_path(req.conflict_path.as_str()) {
        Err(s) => {
            return Err(s);
        },
        Ok(_) => {},
    }
    match check_blocking_reason(req.reason.as_str()) {
        Err(s) => {
            return Err(s);
        },
        Ok(_) => {},
    }
    Ok(
        Some(
            WaitEdgeMetadata {
                conflict_path: req.conflict_path.clone(),
                reason: req.reason.clone(),
            },
        ),
    )
}

// ---------------------------------------------------------------------------
// Revocation and events
// ---------------------------------------------------------------------------

/// Whether a revocation also plants a claim, or the refusal: path and claimant of
/// the claim go together.
pub open spec fn revoke_request(req: RequestRevokeRequest) -> Result<bool, StatusView> {
    let (path, claimant) = (req.claim_path@, req.claimant_owner_id@);
    match id_fault("owner_id"@, req.owner_id@) {
        Some(f) => Err(f),
        None => if path.len() == 0 && claimant.len() == 0 {
            Ok(false)
        } else if path.len() == 0 || claimant.len() == 0 {
            Err(invalid("claim_path and claimant_owner_id must be provided together"@))
        } else {
            match either(
                path_fault(path),
                either(
                    id_fault("claimant_owner_id"@, claimant),
                    if req.claim_ttl_ms > MAX_CLAIM_TTL_MS {
                        Some(
                            invalid(
                                "claim_ttl_ms too large (max 60000 ms; use 0 for the default)"@,
                            ),
                        )
                    } else {
                        None
                    },
                ),
            ) {
                Some(f) => Err(f),
                None => Ok(true),
            }
        },
    }
}

/// Checks a revocation; whether it also plants a claim.
pub fn revoke_plants_claim(req: &RequestRevokeRequest) -> (r: Result<bool, Status>)
    ensures
        match (r, revoke_request(*req)) {
            (Ok(a), Ok(b)) => a == b,
            (Err(s), Err(f)) => s@ == f,
            _ => false,
        },
{
    match check_id("owner_id", req.owner_id.as_str()) {
        Err(s) => {
            return Err(s);
        },
        Ok(_) => {},
    }
    let no_path = req.claim_path.as_str().is_empty();
    let no_claimant = req.claimant_owner_id.as_str().is_empty();
    if no_path && no_claimant {
        return Ok(false);
    }
    if no_path || no_claimant {
        return Err(
            Status::invalid_argument(
                "claim_path and claimant_owner_id must be provided together".to_owned(),
            ),
        );
    }
    match check_path(req.claim_path.as_str()) {
        Err(s) => {
            return Err(s);
        },
        Ok(_) => {},
    }
    match check_id("claimant_owner_id", req.claimant_owner_id.as_str()) {
        Err(s) => {
            return Err(s);
        },
        Ok(_) => {},
    }
    if req.claim_ttl_ms > MAX_CLAIM_TTL_MS {
        return Err(
            Status::invalid_argument(
                "claim_ttl_ms too large (max 60000 ms; use 0 for the default)".to_owned(),
            ),
        );
    }
    Ok(true)
}

/// The event to deliver for a publication by a peer, or the refusal.
pub fn published_event(event: Option<Event>) -> (r: Result<Event, Status>)
    ensures
        match (r, event) {
            (Err(s), None) => s@ == invalid("event is required"@),
            (Ok(e), Some(ev)) => event_fault(ev@) is None && e@ == ev@,
            (Err(s), Some(ev)) => event_fault(ev@) == Some(s@),
            (Ok(_), None) => false,
        },
{
    match event {
        None => Err(Status::invalid_argument("event is required".to_owned())),
        Some(ev) => match check_event(&ev) {
            Err(s) => Err(s),
            Ok(_) => Ok(ev),
        },
    }
}

/// The answer to a probe of the store: ready, or why not.
pub fn health_response(failure: Option<&str>) -> (r: HealthResponse)
    ensures
        match failure {
            None => r.ok && r.detail@ == "ready"@,
            Some(e) => !r.ok && r.detail@ == "tikv unreachable: "@ + e@,
        },
{
    match failure {
        None => HealthResponse { ok: true, detail: "ready".to_owned() },
        Some(e) => HealthResponse { ok: false, detail: concat2("tikv unreachable: ", e) },
    }
}

} // verus!
