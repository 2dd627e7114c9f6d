//! Which requests the service accepts, what it takes them for, and what its answers tell.

use vstd::prelude::*;
use crate::cluster::router::{RouterFault, RouterView};
use crate::engine::types::{
    AcquireView, AssertView, CycleView, Mode, RelView, RenewView, ReqView, State,
};
use crate::events::{Delivery, DeliveryView};
use crate::proto::{
    event_number, AcquireRequest, AcquireResponse, AssertFencingRequest, AssertFencingResponse,
    DetectCycleResponse, EventType, EventView, IsBlockingRequest, LockRequest, ReleaseLocksRequest,
    ReleaseRequest, RenewResponse, RequestRevokeRequest, SetWaitEdgeRequest,
};
use crate::raft::command::ResponseView;
use crate::service::checks::{
    acquire_request, asks_write, assert_fault, blocking_fault, blocking_reasons, clamped_depth,
    decode_releases, decode_requests, event_fault, id_fault, path_fault, paths_fault,
    publishes_release, reason_fault, release_paths, release_request, request_paths, revoke_request,
    segment_fault, segments_fault, tells_acquire, tells_assert, tells_cycle, tells_renew, ttl_fault,
    wait_edge_request,
};
use crate::service::handlers::{failed, publishes};
use crate::service::laws::{lemma_find_char_is, lemma_no_fault, lemma_split_last};
use crate::status::{Code, Status, StatusView};
use crate::text::{find_char, lemma_find_char, split_on, texts, utf8};

verus! {

// ---------------------------------------------------------------------------
// Paths
// ---------------------------------------------------------------------------

/// Whether a segment of a path ends before position `k`.
pub open spec fn ends_at(p: Seq<char>, k: int) -> bool {
    k == p.len() || (k < p.len() && p[k] == '/')
}

/// Whether a segment begins at position `k` that is not empty, `.` or `..`.
pub open spec fn names_at(p: Seq<char>, k: int) -> bool {
    &&& k < p.len()
    &&& p[k] != '/'
    &&& !(p[k] == '.' && ends_at(p, k + 1))
    &&& !(p[k] == '.' && k + 1 < p.len() && p[k + 1] == '.' && ends_at(p, k + 2))
}

/// Whether a path has the form `handler:/a/b`, with the colon at position `c`: no colon and
/// no slash before it, a slash behind it, and then nothing more or, behind every slash, a
/// segment that is not empty, `.` or `..`.
pub open spec fn rooted_at(p: Seq<char>, c: int) -> bool {
    &&& 0 < c
    &&& c + 1 < p.len()
    &&& p[c] == ':'
    &&& p[c + 1] == '/'
    &&& forall|j: int| 0 <= j < c ==> #[trigger] p[j] != ':' && p[j] != '/'
    &&& p.len() == c + 2 || forall|i: int|
        c < i < p.len() && #[trigger] p[i] == '/' ==> names_at(p, i + 1)
}

/// Whether the service takes a path: it is of the form `handler:/a/b` and no longer than
/// 4096 bytes.
pub open spec fn is_path(p: Seq<char>) -> bool {
    utf8(p).len() <= 4096 && exists|c: int| #[trigger] rooted_at(p, c)
}

spec fn begins(s: Seq<char>, k: int) -> bool {
    k == 0 || (0 < k <= s.len() && s[k - 1] == '/')
}

spec fn all_named(s: Seq<char>) -> bool {
    forall|k: int| #[trigger] begins(s, k) ==> names_at(s, k)
}

proof fn lemma_one_segment(s: Seq<char>)
    requires
        forall|j: int| 0 <= j < s.len() ==> #[trigger] s[j] != '/',
    ensures
        split_on(s, '/') == seq![s],
    decreases s.len(),
{
    if s.len() > 0 {
        let t = s.drop_last();
        assert forall|j: int| 0 <= j < t.len() implies #[trigger] t[j] != '/' by {
            assert(t[j] == s[j]);
        }
        lemma_one_segment(t);
        assert(s.last() == s[s.len() - 1]);
        assert(t.push(s.last()) =~= s);
        assert(split_on(s, '/') =~= seq![s]);
    } else {
        assert(s =~= Seq::<char>::empty());
    }
}

/// A segment has no fault if and only if it is not empty, `.` or `..`.
proof fn lemma_segment_named(s: Seq<char>, k: int)
    requires
        0 <= k <= s.len(),
        forall|j: int| k <= j < s.len() ==> #[trigger] s[j] != '/',
    ensures
        segment_fault(s.skip(k)) is None <==> names_at(s, k),
{
    let seg = s.skip(k);
    if seg.len() > 0 {
        assert(seg[0] == s[k]);
    }
    if seg.len() == 1 {
        if seg[0] == '.' {
            assert(seg =~= seq!['.']);
        }
    } else if seg.len() == 2 {
        assert(seg[1] == s[k + 1]);
        if seg[0] == '.' && seg[1] == '.' {
            assert(seg =~= seq!['.', '.']);
        }
    }
}

proof fn lemma_segments_named(s: Seq<char>)
    ensures
        segments_fault(split_on(s, '/')) is None <==> all_named(s),
    decreases s.len(),
{
    if forall|j: int| 0 <= j < s.len() ==> #[trigger] s[j] != '/' {
        lemma_one_segment(s);
        lemma_segment_named(s, 0);
        assert(s.skip(0) =~= s);
        lemma_no_fault(seq![s]);
        if segments_fault(seq![s]) is None {
            assert(segment_fault(seq![s][0]) is None);
            assert forall|k: int| #[trigger] begins(s, k) implies names_at(s, k) by {
                if k > 0 {
                    assert(s[k - 1] != '/');
                }
            }
        }
        if all_named(s) {
            assert(begins(s, 0));
        }
    } else {
        let i = lemma_last_at(s);
        let t = s.take(i);
        lemma_split_last(s, i, '/');
        lemma_segments_named(t);
        lemma_segment_named(s, i + 1);
        let segs = split_on(s, '/');
        let front = split_on(t, '/');
        lemma_no_fault(segs);
        lemma_no_fault(front);
        assert forall|k: int| 0 <= k <= i implies names_at(t, k) == names_at(s, k) by {
            if k < i {
                assert(t[k] == s[k]);
            }
            if k + 1 < i {
                assert(t[k + 1] == s[k + 1]);
            }
            if k + 2 < i {
                assert(t[k + 2] == s[k + 2]);
            }
        }
        assert forall|k: int| 0 <= k <= i implies begins(t, k) == begins(s, k) by {
            if k > 0 {
                assert(t[k - 1] == s[k - 1]);
            }
        }
        if segments_fault(segs) is None {
            assert forall|j: int| 0 <= j < front.len() implies segment_fault(
                #[trigger] front[j],
            ) is None by {
                assert(segs[j] == front[j]);
            }
            assert(segment_fault(segs[front.len() as int]) is None);
            assert forall|k: int| #[trigger] begins(s, k) implies names_at(s, k) by {
                if k <= i {
                    assert(begins(t, k));
                } else if k > i + 1 {
                    assert(s[k - 1] != '/');
                }
            }
        }
        if all_named(s) {
            assert(begins(s, i + 1));
            assert forall|k: int| #[trigger] begins(t, k) implies names_at(t, k) by {
                assert(begins(s, k));
            }
            assert forall|j: int| 0 <= j < segs.len() implies segment_fault(
                #[trigger] segs[j],
            ) is None by {
                if j < front.len() {
                    assert(segs[j] == front[j]);
                }
            }
        }
    }
}

/// Where the last slash stands.
proof fn lemma_last_at(s: Seq<char>) -> (i: int)
    requires
        exists|j: int| 0 <= j < s.len() && #[trigger] s[j] == '/',
    ensures
        0 <= i < s.len(),
        s[i] == '/',
        forall|j: int| i < j < s.len() ==> #[trigger] s[j] != '/',
    decreases s.len(),
{
    let n = s.len() - 1;
    if s[n] == '/' {
        n
    } else {
        let j = choose|j: int| 0 <= j < s.len() && #[trigger] s[j] == '/';
        let t = s.drop_last();
        assert(t[j] == '/');
        let i = lemma_last_at(t);
        assert forall|j: int| i < j < s.len() implies #[trigger] s[j] != '/' by {
            if j < n {
                assert(t[j] == s[j]);
            }
        }
        i
    }
}

/// A path has no fault if and only if it is of the form `handler:/a/b`, with segments that are
/// not empty, `.` or `..`, and no longer than 4096 bytes.
pub proof fn law_paths_are_checked(p: Seq<char>)
    ensures
        path_fault(p) is None <==> is_path(p),
{
    let c = find_char(p, ':');
    lemma_find_char_is(p, ':');
    if exists|k: int| #[trigger] rooted_at(p, k) {
        let k = choose|k: int| #[trigger] rooted_at(p, k);
        lemma_find_char(p, ':', k);
    }
    if 0 < c < p.len() {
        let handler = p.take(c);
        let rest = p.skip(c + 1);
        if handler.contains('/') {
            let j = handler.index_of('/');
            assert(p[j] == '/');
        } else {
            assert forall|j: int| 0 <= j < c implies #[trigger] p[j] != ':' && p[j] != '/' by {
                assert(handler[j] == p[j]);
                assert(handler.contains(handler[j]));
            }
        }
        if rest.len() > 0 && rest[0] == '/' {
            let body = rest.drop_first();
            assert(p[c + 1] == '/');
            lemma_segments_named(body);
            assert forall|k: int| 0 <= k <= body.len() implies names_at(body, k) == names_at(
                p,
                k + c + 2,
            ) by {
                if k < body.len() {
                    assert(body[k] == p[k + c + 2]);
                }
                if k + 1 < body.len() {
                    assert(body[k + 1] == p[k + c + 3]);
                }
                if k + 2 < body.len() {
                    assert(body[k + 2] == p[k + c + 4]);
                }
            }
            if all_named(body) {
                assert forall|i: int| c < i < p.len() && #[trigger] p[i] == '/' implies names_at(
                    p,
                    i + 1,
                ) by {
                    let k = i - c - 1;
                    if k > 0 {
                        assert(body[k - 1] == p[i]);
                    }
                    assert(begins(body, k));
                }
            }
            if forall|i: int| c < i < p.len() && #[trigger] p[i] == '/' ==> names_at(p, i + 1) {
                assert forall|k: int| #[trigger] begins(body, k) implies names_at(body, k) by {
                    if k > 0 {
                        assert(body[k - 1] == p[k + c + 1]);
                    }
                    assert(p[k + c + 1] == '/');
                }
            }
            if rest.len() > 1 && rest.last() == '/' {
                assert(p[p.len() - 1] == '/');
                assert(!names_at(p, p.len() as int));
            }
        } else if rest.len() > 0 {
            assert(p[c + 1] != '/');
        }
    }
    if path_fault(p) is None {
        assert(rooted_at(p, c));
    }
}

proof fn lemma_paths_checked(paths: Seq<Seq<char>>)
    ensures
        paths_fault(paths) is None <==> forall|i: int|
            0 <= i < paths.len() ==> is_path(#[trigger] paths[i]),
    decreases paths.len(),
{
    if paths.len() > 0 {
        let rest = paths.drop_first();
        law_paths_are_checked(paths[0]);
        lemma_paths_checked(rest);
        if paths_fault(paths) is None {
            assert forall|i: int| 0 <= i < paths.len() implies is_path(#[trigger] paths[i]) by {
                if i > 0 {
                    assert(rest[i - 1] == paths[i]);
                }
            }
        }
        if forall|i: int| 0 <= i < paths.len() ==> is_path(#[trigger] paths[i]) {
            assert(is_path(paths[0]));
            assert forall|i: int| 0 <= i < rest.len() implies is_path(#[trigger] rest[i]) by {
                assert(rest[i] == paths[i + 1]);
            }
        }
    }
}

// ---------------------------------------------------------------------------
// Requests
// ---------------------------------------------------------------------------

/// Whether the service takes an identifier: it is not empty, and no longer than 1024 bytes.
pub open spec fn is_id(id: Seq<char>) -> bool {
    0 < id.len() && utf8(id).len() <= 1024
}

/// Whether the service takes a lease: it lasts, and no longer than seven days.
pub open spec fn is_lease(ttl_ms: u64) -> bool {
    0 < ttl_ms <= 7 * 24 * 3600 * 1000
}

/// Whether a request for a lock can be read: modes and states are `0` or `1`.
pub open spec fn is_lock_request(r: LockRequest) -> bool {
    is_path(r.path@) && 0 <= r.mode <= 1 && 0 <= r.state <= 1
}

/// Whether a lock to give up can be read.
pub open spec fn is_release_request(r: ReleaseRequest) -> bool {
    is_path(r.path@) && 0 <= r.mode <= 1
}

/// Whether a decoded lock to take is the requested one: `1` stands for a write lock and for a
/// new one, `0` for a read lock and for one that is held.
pub open spec fn reads_request(v: ReqView, r: LockRequest) -> bool {
    &&& v.path == r.path@
    &&& r.mode == (if v.mode == Mode::Write {
        1i32
    } else {
        0i32
    })
    &&& r.state == (if v.state == State::New {
        1i32
    } else {
        0i32
    })
}

/// Whether a decoded lock to give up is the requested one.
pub open spec fn reads_release(v: RelView, r: ReleaseRequest) -> bool {
    &&& v.path == r.path@
    &&& r.mode == (if v.mode == Mode::Write {
        1i32
    } else {
        0i32
    })
}

proof fn lemma_requests_decoded(v: Seq<LockRequest>)
    ensures
        decode_requests(v) is Ok <==> forall|i: int|
            0 <= i < v.len() ==> 0 <= (#[trigger] v[i]).mode <= 1 && 0 <= v[i].state <= 1,
        decode_requests(v) matches Ok(out) ==> out.len() == v.len() && forall|i: int|
            0 <= i < v.len() ==> reads_request(#[trigger] out[i], v[i]),
        decode_requests(v) matches Err(f) ==> f.code == Code::InvalidArgument,
    decreases v.len(),
{
    if v.len() > 0 {
        let front = v.drop_last();
        lemma_requests_decoded(front);
        assert(v[v.len() - 1] == v.last());
        if decode_requests(v) is Ok {
            assert forall|i: int| 0 <= i < v.len() implies 0 <= (#[trigger] v[i]).mode <= 1 && 0
                <= v[i].state <= 1 by {
                if i < front.len() {
                    assert(front[i] == v[i]);
                }
            }
            let out = decode_requests(v)->Ok_0;
            assert forall|i: int| 0 <= i < v.len() implies reads_request(
                #[trigger] out[i],
                v[i],
            ) by {
                if i < front.len() {
                    assert(front[i] == v[i]);
                    assert(out[i] == decode_requests(front)->Ok_0[i]);
                }
            }
        }
        if forall|i: int|
            0 <= i < v.len() ==> 0 <= (#[trigger] v[i]).mode <= 1 && 0 <= v[i].state <= 1 {
            assert forall|i: int| 0 <= i < front.len() implies 0 <= (#[trigger] front[i]).mode <= 1
                && 0 <= front[i].state <= 1 by {
                assert(front[i] == v[i]);
            }
        }
    }
}

proof fn lemma_releases_decoded(v: Seq<ReleaseRequest>)
    ensures
        decode_releases(v) is Ok <==> forall|i: int|
            0 <= i < v.len() ==> 0 <= (#[trigger] v[i]).mode <= 1,
        decode_releases(v) matches Ok(out) ==> out.len() == v.len() && forall|i: int|
            0 <= i < v.len() ==> reads_release(#[trigger] out[i], v[i]),
        decode_releases(v) matches Err(f) ==> f.code == Code::InvalidArgument,
    decreases v.len(),
{
    if v.len() > 0 {
        let front = v.drop_last();
        lemma_releases_decoded(front);
        assert(v[v.len() - 1] == v.last());
        if decode_releases(v) is Ok {
            assert forall|i: int| 0 <= i < v.len() implies 0 <= (#[trigger] v[i]).mode <= 1 by {
                if i < front.len() {
                    assert(front[i] == v[i]);
                }
            }
            let out = decode_releases(v)->Ok_0;
            assert forall|i: int| 0 <= i < v.len() implies reads_release(
                #[trigger] out[i],
                v[i],
            ) by {
                if i < front.len() {
                    assert(front[i] == v[i]);
                    assert(out[i] == decode_releases(front)->Ok_0[i]);
                }
            }
        }
        if forall|i: int| 0 <= i < v.len() ==> 0 <= (#[trigger] v[i]).mode <= 1 {
            assert forall|i: int| 0 <= i < front.len() implies 0 <= (#[trigger] front[i]).mode
                <= 1 by {
                assert(front[i] == v[i]);
            }
        }
    }
}

proof fn lemma_paths_refused(paths: Seq<Seq<char>>)
    ensures
        paths_fault(paths) matches Some(f) ==> f.code == Code::InvalidArgument,
    decreases paths.len(),
{
    if paths.len() > 0 {
        lemma_paths_refused(paths.drop_first());
    }
}

/// An acquire is accepted if and only if its owner is an identifier and its lease a lease, it
/// names at most 1024 locks, which can all be read, and it brings a token above `0` if one of
/// those to take is a write lock. Any other is an invalid argument.
pub proof fn law_acquire_is_checked(req: AcquireRequest)
    ensures
        acquire_request(req) is Ok <==> {
            &&& is_id(req.owner_id@)
            &&& is_lease(req.ttl_ms)
            &&& req.requests@.len() + req.release_requests@.len() <= 1024
            &&& forall|i: int|
                0 <= i < req.requests@.len() ==> is_lock_request(#[trigger] req.requests@[i])
            &&& forall|i: int|
                0 <= i < req.release_requests@.len() ==> is_release_request(
                    #[trigger] req.release_requests@[i],
                )
            &&& req.fencing_token > 0 || forall|i: int|
                0 <= i < req.requests@.len() ==> (#[trigger] req.requests@[i]).mode != 1
        },
        acquire_request(req) matches Err(f) ==> f.code == Code::InvalidArgument,
{
    let (takes, gives) = (req.requests@, req.release_requests@);
    let (to_take, to_give) = (request_paths(takes), release_paths(gives));
    lemma_requests_decoded(takes);
    lemma_releases_decoded(gives);
    lemma_paths_checked(to_take);
    lemma_paths_checked(to_give);
    lemma_paths_refused(to_take);
    lemma_paths_refused(to_give);
    assert forall|i: int| 0 <= i < takes.len() implies (#[trigger] takes[i]).path@ == to_take[i] by {}
    assert forall|i: int| 0 <= i < gives.len() implies (#[trigger] gives[i]).path@ == to_give[i] by {}
    if acquire_request(req) is Ok {
        assert forall|i: int| 0 <= i < takes.len() implies is_lock_request(#[trigger] takes[i]) by {
            assert(is_path(to_take[i]));
        }
        assert forall|i: int| 0 <= i < gives.len() implies is_release_request(
            #[trigger] gives[i],
        ) by {
            assert(is_path(to_give[i]));
        }
    }
    if forall|i: int| 0 <= i < takes.len() ==> is_lock_request(#[trigger] takes[i]) {
        assert forall|i: int| 0 <= i < to_take.len() implies is_path(#[trigger] to_take[i]) by {
            assert(is_lock_request(takes[i]));
        }
    }
    if forall|i: int| 0 <= i < gives.len() ==> is_release_request(#[trigger] gives[i]) {
        assert forall|i: int| 0 <= i < to_give.len() implies is_path(#[trigger] to_give[i]) by {
            assert(is_release_request(gives[i]));
        }
    }
    assert(asks_write(takes) <==> !(forall|i: int|
        0 <= i < takes.len() ==> (#[trigger] takes[i]).mode != 1));
}

/// An accepted acquire is taken for what it asks: its owner, lease and token, and the locks in
/// their order.
pub proof fn law_acquire_is_understood(req: AcquireRequest)
    ensures
        acquire_request(req) matches Ok(args) ==> {
            &&& args.owner == req.owner_id@
            &&& args.ttl == req.ttl_ms
            &&& args.token == req.fencing_token
            &&& args.requests.len() == req.requests@.len()
            &&& args.releases.len() == req.release_requests@.len()
            &&& forall|i: int|
                0 <= i < args.requests.len() ==> reads_request(
                    #[trigger] args.requests[i],
                    req.requests@[i],
                )
            &&& forall|i: int|
                0 <= i < args.releases.len() ==> reads_release(
                    #[trigger] args.releases[i],
                    req.release_requests@[i],
                )
        },
{
    lemma_requests_decoded(req.requests@);
    lemma_releases_decoded(req.release_requests@);
}

/// A release is accepted if and only if its owner is an identifier and it names at most 1024
/// locks, which can all be read. It is taken for those locks, in their order. Any other is an
/// invalid argument.
pub proof fn law_release_is_checked(req: ReleaseLocksRequest)
    ensures
        release_request(req) is Ok <==> {
            &&& is_id(req.owner_id@)
            &&& req.requests@.len() <= 1024
            &&& forall|i: int|
                0 <= i < req.requests@.len() ==> is_release_request(#[trigger] req.requests@[i])
        },
        release_request(req) matches Ok(rels) ==> rels.len() == req.requests@.len() && forall|i:
            int|
            0 <= i < rels.len() ==> reads_release(#[trigger] rels[i], req.requests@[i]),
        release_request(req) matches Err(f) ==> f.code == Code::InvalidArgument,
{
    let gives = req.requests@;
    let to_give = release_paths(gives);
    lemma_releases_decoded(gives);
    lemma_paths_checked(to_give);
    lemma_paths_refused(to_give);
    if release_request(req) is Ok {
        assert forall|i: int| 0 <= i < gives.len() implies is_release_request(
            #[trigger] gives[i],
        ) by {
            assert(is_path(to_give[i]));
        }
    }
    if forall|i: int| 0 <= i < gives.len() ==> is_release_request(#[trigger] gives[i]) {
        assert forall|i: int| 0 <= i < to_give.len() implies is_path(#[trigger] to_give[i]) by {
            assert(is_release_request(gives[i]));
        }
    }
}

/// An assertion of fenced ownership is accepted if and only if its owner is an identifier, it
/// names at most 1024 paths, and its token is above `0` if it names any.
pub proof fn law_assert_is_checked(req: AssertFencingRequest)
    ensures
        assert_fault(req) is None <==> {
            &&& is_id(req.owner_id@)
            &&& req.paths@.len() <= 1024
            &&& forall|i: int| 0 <= i < req.paths@.len() ==> is_path((#[trigger] req.paths@[i])@)
            &&& req.paths@.len() == 0 || req.fencing_token > 0
        },
        assert_fault(req) matches Some(f) ==> f.code == Code::InvalidArgument,
{
    let paths = texts(req.paths@);
    lemma_paths_checked(paths);
    lemma_paths_refused(paths);
    assert forall|i: int| 0 <= i < paths.len() implies #[trigger] paths[i] == req.paths@[i]@ by {}
    if assert_fault(req) is None {
        assert forall|i: int| 0 <= i < req.paths@.len() implies is_path(
            (#[trigger] req.paths@[i])@,
        ) by {
            assert(is_path(paths[i]));
        }
    }
}

/// Identifiers and leases are accepted as said, and refused as invalid arguments.
pub proof fn law_identifiers_and_leases_are_checked(label: Seq<char>, id: Seq<char>, ttl_ms: u64)
    ensures
        id_fault(label, id) is None <==> is_id(id),
        ttl_fault(ttl_ms) is None <==> is_lease(ttl_ms),
        id_fault(label, id) matches Some(f) ==> f.code == Code::InvalidArgument,
        ttl_fault(ttl_ms) matches Some(f) ==> f.code == Code::InvalidArgument,
{
}

/// Whether a waiter can be blocked for a reason.
pub open spec fn is_blocking_reason(reason: Seq<char>) -> bool {
    ||| reason == "ancestor_locked"@
    ||| reason == "write_locked"@
    ||| reason == "read_locked"@
    ||| reason == "descendant_write_locked"@
    ||| reason == "descendant_read_locked"@
    ||| reason == "preempt_claimed"@
}

/// A reason is accepted if and only if a waiter can be blocked for it.
pub proof fn law_reasons_are_checked(reason: Seq<char>, quoted: Seq<char>)
    ensures
        reason_fault(reason, quoted) is None <==> is_blocking_reason(reason),
        reason_fault(reason, quoted) matches Some(f) ==> f.code == Code::InvalidArgument,
{
    let all = blocking_reasons();
    if all.contains(reason) {
        let i = all.index_of(reason);
        assert(all[i] == reason);
    }
    assert(all[0] == "ancestor_locked"@ && all[1] == "write_locked"@ && all[2] == "read_locked"@);
    assert(all[3] == "descendant_write_locked"@ && all[4] == "descendant_read_locked"@);
    assert(all[5] == "preempt_claimed"@);
}

/// A question whether an owner blocks is accepted if and only if it names a path, an owner and
/// a reason that a waiter can be blocked for.
pub proof fn law_blocking_question_is_checked(req: IsBlockingRequest, quoted: Seq<char>)
    ensures
        blocking_fault(req, quoted) is None <==> is_path(req.conflict_path@) && is_id(
            req.conflict_owner@,
        ) && is_blocking_reason(req.reason@),
        blocking_fault(req, quoted) matches Some(f) ==> f.code == Code::InvalidArgument,
{
    law_paths_are_checked(req.conflict_path@);
    law_reasons_are_checked(req.reason@, quoted);
}

/// A wait-for edge is accepted if and only if it names two owners and a lease, and either
/// neither a path nor a reason, or a path and a reason that a waiter can be blocked for. It
/// says of the conflict what was given.
pub proof fn law_wait_edge_is_checked(req: SetWaitEdgeRequest, quoted: Seq<char>)
    ensures
        ({
            let (path, reason) = (req.conflict_path@, req.reason@);
            let bare = path.len() == 0 && reason.len() == 0;
            &&& wait_edge_request(req, quoted) is Ok <==> {
                &&& is_id(req.owner_id@)
                &&& is_id(req.conflict_owner@)
                &&& is_lease(req.ttl_ms)
                &&& bare || (is_path(path) && is_blocking_reason(reason))
            }
            &&& wait_edge_request(req, quoted) matches Ok(meta) ==> match meta {
                None => bare,
                Some(m) => !bare && m.path == path && m.reason == reason,
            }
            &&& wait_edge_request(req, quoted) matches Err(f) ==> f.code == Code::InvalidArgument
        }),
{
    law_paths_are_checked(req.conflict_path@);
    law_reasons_are_checked(req.reason@, quoted);
    reveal_strlit("ancestor_locked");
    reveal_strlit("write_locked");
    reveal_strlit("read_locked");
    reveal_strlit("descendant_write_locked");
    reveal_strlit("descendant_read_locked");
    reveal_strlit("preempt_claimed");
}

/// A revocation is accepted if and only if it names an owner, and either neither a path nor a
/// claimant, or a path, a claimant and a lifetime of at most a minute. It plants a claim in
/// the second case and in no other.
pub proof fn law_revocation_is_checked(req: RequestRevokeRequest)
    ensures
        ({
            let (path, claimant) = (req.claim_path@, req.claimant_owner_id@);
            let bare = path.len() == 0 && claimant.len() == 0;
            &&& revoke_request(req) is Ok <==> {
                &&& is_id(req.owner_id@)
                &&& bare || (is_path(path) && is_id(claimant) && req.claim_ttl_ms <= 60 * 1000)
            }
            &&& revoke_request(req) matches Ok(claims) ==> claims == !bare
            &&& revoke_request(req) matches Err(f) ==> f.code == Code::InvalidArgument
        }),
{
    law_paths_are_checked(req.claim_path@);
}

/// An event is accepted if and only if it names an owner and is of a known type.
pub proof fn law_event_is_checked(ev: EventView)
    ensures
        event_fault(ev) is None <==> is_id(ev.owner) && 0 <= ev.kind <= 2,
        event_fault(ev) matches Some(f) ==> f.code == Code::InvalidArgument,
{
    assert(event_number(EventType::Released) == 0);
    assert(event_number(EventType::Killed) == 1);
    assert(event_number(EventType::Revoke) == 2);
}

/// A walk along the edges goes as deep as asked, and no deeper than 64.
pub proof fn law_depth_is_bounded(max_depth: u32)
    ensures
        clamped_depth(max_depth) <= 64,
        clamped_depth(max_depth) <= max_depth,
        clamped_depth(max_depth) == 64 || clamped_depth(max_depth) == max_depth,
{
}

// ---------------------------------------------------------------------------
// Answers
// ---------------------------------------------------------------------------

/// No two outcomes of an acquire are answered alike, and the status tells which kind it is.
pub proof fn law_acquire_answer_tells(r: AcquireResponse, outcome: AcquireView, other: AcquireView)
    requires
        tells_acquire(r, outcome),
    ensures
        tells_acquire(r, other) ==> other == outcome,
        r.status == 0 <==> outcome == AcquireView::Granted,
        r.status == 1 <==> outcome is Conflict,
        r.status == 2 <==> outcome is Lost,
        outcome matches AcquireView::Conflict { path, owner, reason } ==> r.path@ == path
            && r.owner@ == owner && r.reason@ == reason,
        outcome matches AcquireView::Lost { path, reason } ==> r.path@ == path && r.reason@
            == reason,
{
}

/// No two outcomes of a renewal are answered alike, and the status tells which kind it is.
pub proof fn law_renew_answer_tells(r: RenewResponse, outcome: RenewView, other: RenewView)
    requires
        tells_renew(r, outcome),
    ensures
        tells_renew(r, other) ==> other == outcome,
        r.status == 0 <==> outcome == RenewView::Renewed,
        r.status == 1 <==> outcome is Lost,
        outcome matches RenewView::Lost { path, reason } ==> r.path@ == path && r.reason@ == reason,
{
}

/// No two outcomes of an assertion of fenced ownership are answered alike, and the status tells
/// which kind it is.
pub proof fn law_assert_answer_tells(
    r: AssertFencingResponse,
    outcome: AssertView,
    other: AssertView,
)
    requires
        tells_assert(r, outcome),
    ensures
        tells_assert(r, other) ==> other == outcome,
        r.status == 0 <==> outcome == AssertView::Held,
        r.status == 1 <==> outcome is Fail,
        outcome matches AssertView::Fail { path, reason } ==> r.path@ == path && r.reason@
            == reason,
{
}

/// No two outcomes of a walk are answered alike, and the number tells which kind it is.
pub proof fn law_cycle_answer_tells(r: DetectCycleResponse, outcome: CycleView, other: CycleView)
    requires
        tells_cycle(r, outcome),
    ensures
        tells_cycle(r, other) ==> other == outcome,
        r.kind == 0 <==> outcome == CycleView::Clear,
        r.kind == 1 <==> outcome is Cycle,
        r.kind == 2 <==> outcome is Truncated,
        outcome matches CycleView::Cycle(chain) ==> texts(r.chain@) == chain,
        outcome matches CycleView::Truncated(chain) ==> texts(r.chain@) == chain,
{
}

/// An acquire that gave up locks publishes it if it was asked to; one that was refused, or gave
/// up nothing, or was not asked to, publishes nothing.
pub proof fn law_release_is_published_if_asked(req: AcquireRequest, outcome: AcquireView)
    ensures
        outcome != AcquireView::Granted ==> !publishes_release(req, outcome),
        req.release_requests@.len() == 0 ==> !publishes_release(req, outcome),
        !req.emit_release ==> !publishes_release(req, outcome),
        outcome == AcquireView::Granted && req.release_requests@.len() > 0 && req.emit_release
            ==> publishes_release(req, outcome),
{
}

/// A failure is answered as too large if and only if a set was too large to list, and as
/// internal otherwise. An internal one tells nothing of its cause.
pub proof fn law_failures_tell(fault: RouterFault, other: RouterFault)
    ensures
        failed(fault).code == Code::ResourceExhausted <==> (fault matches RouterFault::Store(e)
            && e is ScanLimit),
        failed(fault).code != Code::ResourceExhausted ==> failed(fault).code == Code::Internal,
        failed(fault).code == Code::Internal && failed(other).code == Code::Internal ==> failed(
            fault,
        ) == failed(other),
{
}

/// A request that publishes an event does so if and only if it is accepted and done; one that
/// is refused changes nothing, and one that fails tells why.
pub proof fn law_only_what_is_done_is_published(
    before: RouterView,
    after: RouterView,
    fault: Option<StatusView>,
    run: (RouterView, Result<ResponseView, RouterFault>),
    delivery: DeliveryView,
    r: Result<Delivery, Status>,
)
    requires
        publishes(before, after, fault, run, delivery, r),
    ensures
        r is Ok <==> fault is None && run.1 is Ok,
        r matches Ok(d) ==> d@ == delivery && after == run.0,
        fault matches Some(f) ==> after == before && (r matches Err(s) && s@ == f),
        fault is None ==> after == run.0,
        fault is None && run.1 is Err ==> (r matches Err(s) && s@ == failed(run.1->Err_0)),
{
}

} // verus!
