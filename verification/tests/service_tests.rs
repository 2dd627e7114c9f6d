//! What the lock service accepts, what its handlers do, and how they answer.

use pathlockd::cluster::router::Router;
use pathlockd::db::{Cell, Db};
use pathlockd::engine;
use pathlockd::events::Broadcaster;
use pathlockd::proto;
use pathlockd::proto::{
    AcquireRequest, AssertFencingRequest, Event, EventType, IsBlockingRequest, LockRequest,
    ReleaseLocksRequest, ReleaseRequest, RequestRevokeRequest, SetWaitEdgeRequest,
};
use pathlockd::service::checks::health_response;
use pathlockd::service::handlers::{fence_response, named_owner, write_owner_response};
use pathlockd::service::{
    blocking_reason_list, check_blocking_reason, check_event, check_id, check_path,
    check_reason_quoted, check_ttl, check_write_fencing_token, engine_err, internal, to_mode,
    to_state, DebugService, PathLockService, MAX_ID_LEN, MAX_TTL_MS,
};
use pathlockd::status::{Code, Status};
use pathlockd::store_keys::{member_key, Cf};
use pathlockd::store_rocksdb::StoredRecord;

const NOW: u64 = 1_700_000_000_000;

fn is_invalid(r: Result<(), Status>) -> bool {
    matches!(r, Err(ref e) if e.code() == Code::InvalidArgument)
}

#[test]
fn check_ttl_rejects_zero_and_huge() {
    assert!(is_invalid(check_ttl(0)));
    assert!(is_invalid(check_ttl(MAX_TTL_MS + 1)));
    assert!(check_ttl(1).is_ok());
    assert!(check_ttl(10_000).is_ok());
    assert!(check_ttl(MAX_TTL_MS).is_ok());
}

#[test]
fn check_id_rejects_empty_and_overlong() {
    assert!(is_invalid(check_id("owner_id", "")));
    assert!(is_invalid(check_id(
        "owner_id",
        &"x".repeat(MAX_ID_LEN + 1)
    )));
    assert!(check_id("owner_id", "owner-42").is_ok());
}

#[test]
fn check_path_accepts_normalized_forms() {
    assert!(check_path("h:/").is_ok());
    assert!(check_path("h:/a").is_ok());
    assert!(check_path("google_drive:/a/b/c").is_ok());
}

#[test]
fn check_path_rejects_unsafe_shapes() {
    assert!(is_invalid(check_path("")));
    assert!(is_invalid(check_path("noseparator")));
    assert!(is_invalid(check_path(":/x")));
    assert!(is_invalid(check_path("h:relative")));
    assert!(is_invalid(check_path("h:/a/")));
    assert!(is_invalid(check_path("h:/a//b")));
    assert!(is_invalid(check_path("h:/a/../b")));
    assert!(is_invalid(check_path("h:/a/./b")));
}

#[test]
fn check_path_distinguishes_trailing_slash() {
    assert!(check_path("h:/a").is_ok());
    assert!(is_invalid(check_path("h:/a/")));
}

#[test]
fn check_blocking_reason_accepts_known_rejects_unknown() {
    for r in blocking_reason_list() {
        assert!(check_blocking_reason(r).is_ok(), "{r} should be accepted");
    }
    assert!(is_invalid(check_blocking_reason("stale_fencing_token")));
    assert!(is_invalid(check_blocking_reason("")));
    assert!(is_invalid(check_blocking_reason("garbage")));
}

#[test]
fn check_write_fencing_token_rejects_non_positive() {
    assert!(is_invalid(check_write_fencing_token(0)));
    assert!(is_invalid(check_write_fencing_token(-1)));
    assert!(check_write_fencing_token(1).is_ok());
}

#[test]
fn check_event_accepts_known_types_and_owner() {
    for kind in [EventType::Released, EventType::Killed, EventType::Revoke] {
        assert!(check_event(&Event {
            kind: kind.number(),
            owner_id: "owner-42".into(),
        })
        .is_ok());
    }
}

#[test]
fn check_event_rejects_empty_owner_and_unknown_type() {
    assert!(is_invalid(check_event(&Event {
        kind: EventType::Released.number(),
        owner_id: String::new(),
    })));
    assert!(is_invalid(check_event(&Event {
        kind: 99,
        owner_id: "owner-42".into(),
    })));
}

#[test]
fn enum_decoding_rejects_unknown_values() {
    assert_eq!(
        to_mode(proto::Mode::Write.number()).unwrap(),
        engine::Mode::Write
    );
    assert_eq!(
        to_mode(proto::Mode::Read.number()).unwrap(),
        engine::Mode::Read
    );
    assert!(is_invalid(to_mode(99).map(|_| ())));

    assert_eq!(
        to_state(proto::LockState::New.number()).unwrap(),
        engine::State::New
    );
    assert_eq!(
        to_state(proto::LockState::Held.number()).unwrap(),
        engine::State::Held
    );
    assert!(is_invalid(to_state(99).map(|_| ())));
}

// --- The messages ---

fn message(r: Result<(), Status>) -> String {
    r.unwrap_err().message
}

#[test]
fn refusals_say_why() {
    assert_eq!(message(check_id("owner_id", "")), "owner_id must not be empty");
    assert_eq!(
        message(check_id("owner_id", &"x".repeat(1025))),
        "owner_id too long (max 1024 bytes)"
    );
    assert_eq!(
        message(check_ttl(0)),
        "ttl_ms must be > 0 (a 0 TTL would create a lock that never expires)"
    );
    assert_eq!(
        message(check_ttl(604_800_001)),
        "ttl_ms too large (max 604800000 ms)"
    );
    assert_eq!(message(check_path("")), "path empty or too long");
    assert_eq!(message(check_path(&"x".repeat(4097))), "path empty or too long");
    assert_eq!(
        message(check_path("abc")),
        "path must be \"<handler>:<normalizedPath>\": abc"
    );
    assert_eq!(
        message(check_path("a/b:/x")),
        "path has an empty or invalid handler: a/b:/x"
    );
    assert_eq!(
        message(check_path("h:x")),
        "normalized path must start with '/': h:x"
    );
    assert_eq!(
        message(check_path("h:/a/")),
        "normalized path must not end with '/': h:/a/"
    );
    assert_eq!(
        message(check_path("h:/a//b")),
        "normalized path has an empty segment ('//'): h:/a//b"
    );
    assert_eq!(
        message(check_path("h:/..")),
        "normalized path has a '.'/'..' segment: h:/.."
    );
    assert_eq!(
        message(check_write_fencing_token(0)),
        "fencing_token must be > 0 for write locks"
    );
    assert_eq!(
        to_mode(-7).unwrap_err().message,
        "invalid mode value -7"
    );
    assert_eq!(
        to_state(2).unwrap_err().message,
        "invalid lock state value 2"
    );
    assert_eq!(
        message(check_event(&Event { kind: 99, owner_id: "o".into() })),
        "invalid event type value 99"
    );
}

#[test]
fn an_unknown_reason_is_quoted_and_escaped() {
    let tail = " (expected one of [\"ancestor_locked\", \"write_locked\", \"read_locked\", \
                \"descendant_write_locked\", \"descendant_read_locked\", \"preempt_claimed\"])";
    assert_eq!(
        message(check_blocking_reason("a\"b\n")),
        format!("unknown is_blocking reason \"a\\\"b\\n\"{tail}")
    );
    assert_eq!(
        message(check_reason_quoted("x", "<x>")),
        format!("unknown is_blocking reason <x>{tail}")
    );
    assert!(check_reason_quoted("read_locked", "<x>").is_ok());
}

#[test]
fn lengths_are_counted_in_bytes() {
    assert!(check_id("o", &"\u{e9}".repeat(512)).is_ok());
    assert!(is_invalid(check_id("o", &"\u{e9}".repeat(513))));
}

#[test]
fn dots_inside_a_segment_are_accepted() {
    assert!(check_path("h:/a.b/..c/d..").is_ok());
    assert!(check_path("h:/a:b").is_ok());
}

#[test]
fn errors_of_the_engine_become_statuses() {
    let passing = engine_err(true);
    assert_eq!(passing.code(), Code::Unavailable);
    assert_eq!(
        passing.message,
        "storage temporarily unavailable (contention/region churn); retry"
    );
    let fault = engine_err(false);
    assert_eq!(fault.code(), Code::Internal);
    assert_eq!(fault.message, "internal error");
    assert_eq!(internal("boom").message, "boom");
}

// --- The handlers ---

fn service() -> PathLockService {
    let mut router = Router::new(1);
    router.set_local_db(Db::new());
    let peers = vec!["http://peer:50051".to_string()];
    PathLockService::new(router, Broadcaster::new(16, &peers).unwrap())
}

fn lock(path: &str, mode: proto::Mode) -> LockRequest {
    LockRequest {
        path: path.to_string(),
        mode: mode.number(),
        state: proto::LockState::New.number(),
    }
}

fn acquire(owner: &str, token: i64, requests: Vec<LockRequest>) -> AcquireRequest {
    AcquireRequest {
        owner_id: owner.to_string(),
        ttl_ms: 30_000,
        requests,
        fencing_token: token,
        release_requests: vec![],
        emit_release: false,
    }
}

#[test]
fn a_write_lock_excludes_others_until_it_is_released() {
    let mut s = service();
    let (resp, published) = s
        .acquire(&acquire("alice", 1, vec![lock("h:/a", proto::Mode::Write)]), NOW)
        .unwrap();
    assert_eq!(resp.status, 0);
    assert!(published.is_none());
    let (resp, _) = s
        .acquire(&acquire("bob", 2, vec![lock("h:/a/b", proto::Mode::Read)]), NOW + 1)
        .unwrap();
    assert_eq!(
        (resp.status, resp.path.as_str(), resp.owner.as_str(), resp.reason.as_str()),
        (1, "h:/a", "alice", "ancestor_locked")
    );
    let sub = s.subscribe("alice").unwrap();
    let delivery = s
        .release(
            &ReleaseLocksRequest {
                owner_id: "alice".into(),
                requests: vec![ReleaseRequest { path: "h:/a".into(), mode: 1 }],
                del_wait_key: false,
            },
            NOW + 2,
        )
        .unwrap();
    assert_eq!(delivery.event, Event { kind: 0, owner_id: "alice".into() });
    assert_eq!(delivery.subscribers, vec![sub.id]);
    assert_eq!(delivery.peers, vec!["http://peer:50051"]);
    let (resp, _) = s
        .acquire(&acquire("bob", 2, vec![lock("h:/a/b", proto::Mode::Read)]), NOW + 3)
        .unwrap();
    assert_eq!(resp.status, 0);
}

#[test]
fn a_refused_acquire_changes_nothing() {
    let mut s = service();
    let refused = [
        acquire("", 1, vec![lock("h:/a", proto::Mode::Write)]),
        acquire("alice", 0, vec![lock("h:/a", proto::Mode::Write)]),
        acquire("alice", 1, vec![lock("h:/a/", proto::Mode::Write)]),
        acquire(
            "alice",
            1,
            vec![LockRequest { path: "h:/a".into(), mode: 9, state: 0 }],
        ),
        acquire(
            "alice",
            1,
            vec![LockRequest { path: "h:/a".into(), mode: 1, state: 9 }],
        ),
        acquire("alice", 1, vec![lock("h:/a", proto::Mode::Write); 1025]),
    ];
    for req in &refused {
        let e = s.acquire(req, NOW).unwrap_err();
        assert_eq!(e.code(), Code::InvalidArgument);
    }
    assert_eq!(s.router.unsaved.ops.len(), 0);
    let e = s.acquire(&refused[5], NOW).unwrap_err();
    assert_eq!(e.message, "too many paths in one request (max 1024)");
}

#[test]
fn a_read_needs_no_token() {
    let mut s = service();
    let (resp, _) = s
        .acquire(&acquire("alice", 0, vec![lock("h:/a", proto::Mode::Read)]), NOW)
        .unwrap();
    assert_eq!(resp.status, 0);
}

#[test]
fn an_inline_release_is_published_only_on_request() {
    let mut s = service();
    for emit in [false, true] {
        s.acquire(&acquire("alice", 1, vec![lock("h:/a", proto::Mode::Write)]), NOW)
            .unwrap();
        let mut req = acquire("alice", 2, vec![lock("h:/b", proto::Mode::Write)]);
        req.release_requests = vec![ReleaseRequest { path: "h:/a".into(), mode: 1 }];
        req.emit_release = emit;
        let (resp, published) = s.acquire(&req, NOW + 1).unwrap();
        assert_eq!(resp.status, 0);
        assert_eq!(published.is_some(), emit);
    }
}

#[test]
fn paths_of_two_domains_are_refused_as_an_internal_error() {
    let mut s = service();
    let e = s
        .acquire(
            &acquire(
                "alice",
                1,
                vec![lock("h:/a", proto::Mode::Write), lock("s3:/a", proto::Mode::Write)],
            ),
            NOW,
        )
        .unwrap_err();
    assert_eq!(e.code(), Code::Internal);
    assert_eq!(e.message, "internal error");
}

#[test]
fn a_set_that_is_too_large_is_reported_as_such() {
    let text = |v: &str| Cell::Record(StoredRecord::Str { v: v.to_string(), exp: 0 });
    let mut db = Db::new();
    for i in 0..65_537 {
        let member = format!("write\0h:/p{i:06}");
        db.put(Cf::OwnerHolds, member_key(b"o", &member), text(&member));
    }
    db.put(Cf::OwnerAlive, b"o".to_vec(), text("1"));
    let mut s = service();
    s.router.set_local_db(db);
    let e = s.renew("o", 1_000, NOW).unwrap_err();
    assert_eq!(e.code(), Code::ResourceExhausted);
    assert_eq!(e.message, "smembers on set would enumerate more than 65536 live members");
}

#[test]
fn without_a_store_operations_fail() {
    let mut s = PathLockService::new(Router::new(1), Broadcaster::new(1, &vec![]).unwrap());
    assert_eq!(s.incr_fencing_token(NOW).unwrap_err().code(), Code::Internal);
    assert_eq!(s.release_all("a", true, NOW).unwrap_err().code(), Code::Internal);
    assert_eq!(s.is_owner_alive("a", NOW), Ok(false));
}

#[test]
fn renew_answers_what_became_of_the_lease() {
    let mut s = service();
    s.acquire(&acquire("alice", 1, vec![lock("h:/a", proto::Mode::Write)]), NOW)
        .unwrap();
    assert_eq!(s.renew("alice", 30_000, NOW + 1).unwrap().status, 0);
    let lost = s.renew("alice", 30_000, NOW + 100_000).unwrap();
    assert_eq!((lost.status, lost.reason.as_str()), (1, "owner_expired"));
    assert!(s.renew("alice", 0, NOW).is_err());
    assert!(s.renew("", 5, NOW).is_err());
}

#[test]
fn a_forced_release_is_published_as_a_kill() {
    let mut s = service();
    s.acquire(&acquire("alice", 1, vec![lock("h:/a", proto::Mode::Write)]), NOW)
        .unwrap();
    let d = s.force_release("alice", NOW + 1).unwrap();
    assert_eq!(d.event, Event { kind: 1, owner_id: "alice".into() });
    assert_eq!(s.is_owner_alive("alice", NOW + 2), Ok(false));
    assert_eq!(
        s.force_release("", NOW).unwrap_err().message,
        "victim_id must not be empty"
    );
}

#[test]
fn fenced_ownership_is_asserted() {
    let mut s = service();
    s.acquire(&acquire("alice", 5, vec![lock("h:/a", proto::Mode::Write)]), NOW)
        .unwrap();
    let ask = |owner: &str, token: i64, paths: Vec<&str>| AssertFencingRequest {
        owner_id: owner.to_string(),
        fencing_token: token,
        paths: paths.iter().map(|p| p.to_string()).collect(),
    };
    assert_eq!(s.assert_fencing(&ask("alice", 5, vec!["h:/a"]), NOW).unwrap().status, 0);
    let bad = s.assert_fencing(&ask("bob", 5, vec!["h:/a"]), NOW).unwrap();
    assert_eq!((bad.status, bad.path.as_str(), bad.reason.as_str()), (1, "h:/a", "stale_owner"));
    assert_eq!(s.assert_fencing(&ask("bob", 0, vec![]), NOW).unwrap().status, 0);
    assert!(s.assert_fencing(&ask("bob", 0, vec!["h:/a"]), NOW).is_err());
}

#[test]
fn a_cycle_of_waiters_is_found() {
    let mut s = service();
    s.acquire(&acquire("a", 1, vec![lock("h:/x", proto::Mode::Write)]), NOW)
        .unwrap();
    s.acquire(&acquire("b", 2, vec![lock("h:/y", proto::Mode::Write)]), NOW)
        .unwrap();
    let edge = |owner: &str, other: &str, path: &str, reason: &str| SetWaitEdgeRequest {
        owner_id: owner.to_string(),
        conflict_owner: other.to_string(),
        ttl_ms: 10_000,
        conflict_path: path.to_string(),
        reason: reason.to_string(),
    };
    s.set_wait_edge(&edge("a", "b", "h:/y", "write_locked"), NOW).unwrap();
    assert_eq!(s.detect_cycle("a", 10, NOW).unwrap().kind, 0);
    s.set_wait_edge(&edge("b", "a", "h:/x", "write_locked"), NOW).unwrap();
    let found = s.detect_cycle("a", 10, NOW).unwrap();
    assert_eq!((found.kind, found.chain), (1, vec!["a".to_string(), "b".to_string()]));
    assert_eq!(s.detect_cycle("a", 1, NOW).unwrap().kind, 2);
    s.clear_wait_edge("b", NOW).unwrap();
    assert_eq!(s.detect_cycle("a", 10, NOW).unwrap().kind, 0);
    assert_eq!(
        s.set_wait_edge(&edge("a", "b", "h:/y", ""), NOW).unwrap_err().message,
        "conflict_path and reason must be provided together"
    );
    assert!(s.set_wait_edge(&edge("a", "b", "", ""), NOW).is_ok());
}

#[test]
fn a_blocker_is_checked_again() {
    let mut s = service();
    s.acquire(&acquire("alice", 1, vec![lock("h:/a", proto::Mode::Write)]), NOW)
        .unwrap();
    let ask = |owner: &str, reason: &str| IsBlockingRequest {
        conflict_path: "h:/a".into(),
        conflict_owner: owner.to_string(),
        reason: reason.to_string(),
    };
    assert_eq!(s.is_blocking(&ask("alice", "write_locked"), NOW + 1), Ok(true));
    assert_eq!(s.is_blocking(&ask("alice", "read_locked"), NOW + 1), Ok(false));
    assert_eq!(s.is_blocking(&ask("bob", "write_locked"), NOW + 1), Ok(false));
    assert!(s.is_blocking(&ask("alice", "garbage"), NOW + 1).is_err());
}

#[test]
fn a_revocation_plants_the_claim_of_the_winner() {
    let mut s = service();
    s.acquire(&acquire("winner", 1, vec![lock("h:/own", proto::Mode::Write)]), NOW)
        .unwrap();
    let mut req = RequestRevokeRequest {
        owner_id: "victim".into(),
        claim_path: "h:/a".into(),
        claimant_owner_id: "winner".into(),
        claim_ttl_ms: 0,
    };
    let d = s.request_revoke(&req, NOW).unwrap();
    assert_eq!(d.event, Event { kind: 2, owner_id: "victim".into() });
    let (resp, _) = s
        .acquire(&acquire("victim", 2, vec![lock("h:/a", proto::Mode::Write)]), NOW + 1)
        .unwrap();
    assert_eq!((resp.status, resp.reason.as_str()), (1, "preempt_claimed"));
    req.claim_ttl_ms = 60_001;
    assert_eq!(
        s.request_revoke(&req, NOW).unwrap_err().message,
        "claim_ttl_ms too large (max 60000 ms; use 0 for the default)"
    );
    req.claim_path = String::new();
    assert_eq!(
        s.request_revoke(&req, NOW).unwrap_err().message,
        "claim_path and claimant_owner_id must be provided together"
    );
    req.claimant_owner_id = String::new();
    assert!(s.request_revoke(&req, NOW).is_ok());
}

#[test]
fn an_event_of_a_peer_is_delivered_here_alone() {
    let mut s = service();
    let sub = s.subscribe("alice").unwrap();
    let d = s
        .publish_event(Some(Event { kind: 2, owner_id: "alice".into() }))
        .unwrap();
    assert_eq!(d.subscribers, vec![sub.id]);
    assert!(d.peers.is_empty());
    assert_eq!(s.publish_event(None).unwrap_err().message, "event is required");
    assert!(s
        .publish_event(Some(Event { kind: 7, owner_id: "alice".into() }))
        .is_err());
    assert!(s.subscribe("").is_err());
}

#[test]
fn tokens_rise() {
    let mut s = service();
    assert_eq!(s.incr_fencing_token(NOW), Ok(1));
    assert_eq!(s.incr_fencing_token(NOW), Ok(2));
}

#[test]
fn health_and_debug_answers() {
    let up = health_response(None);
    assert!(up.ok && up.detail == "ready");
    let down = health_response(Some("refused"));
    assert!(!down.ok && down.detail == "tikv unreachable: refused");
    assert!(DebugService::new(true).guard().is_ok());
    let e = DebugService::new(false).guard().unwrap_err();
    assert_eq!(e.code(), Code::FailedPrecondition);
    assert_eq!(
        e.message,
        "debug service disabled (set PATHLOCKD_ENABLE_DEBUG=1)"
    );
    assert_eq!(named_owner(""), None);
    assert_eq!(named_owner("o"), Some("o".to_string()));
    let owner = write_owner_response(Some("o".into()));
    assert!(owner.exists && owner.owner_id == "o");
    assert!(!write_owner_response(None).exists);
    let fence = fence_response(Some(7));
    assert!(fence.exists && fence.value == 7);
    assert_eq!(fence_response(None).value, 0);
}
