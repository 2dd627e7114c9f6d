//! Placement, membership, health and the router.

use pathlockd::cluster::gossip::{parse_seed, start_gossip, ClusterMembers};
use pathlockd::cluster::health::{check_ready, HealthStatus, NodeState};
use pathlockd::cluster::placement::{
    heaviest, place_domain, select_voters, top_ranked, SYS_GROUP_ID,
};
use pathlockd::cluster::router::{
    MultiDomainUnsupported, NotLeader, QuorumUnavailable, Router, RouterError, WrongGroup,
};
use pathlockd::db::{Cell, Db};
use pathlockd::engine::{
    AcquireArgs, AcquireOutcome, AssertOutcome, CycleOutcome, LockDumpEntry, LockReq, Mode, RelReq,
    RenewOutcome, State,
};
use pathlockd::raft::log_store::{RaftNode, Store};
use pathlockd::raft::membership::MembershipManager;
use pathlockd::raft::network::RaftNetwork;
use pathlockd::raft::snapshot::{Snapshot, SnapshotData};
use pathlockd::store_keys::Cf;
use pathlockd::store_rocksdb::{StoreError, StoredRecord};

// --- Placement ---

fn weight(seed: u64, rest: &[u8]) -> u64 {
    let mut key = seed.to_le_bytes().to_vec();
    key.extend_from_slice(rest);
    xxhash_rust::xxh3::xxh3_64(&key)
}

#[test]
fn a_domain_goes_to_the_heaviest_group() {
    for domain in ["google_drive", "s3", "", "\u{e9}"] {
        let n = 64u32;
        let best = (0..n as u64)
            .rev()
            .max_by_key(|g| weight(*g, domain.as_bytes()))
            .unwrap();
        assert_eq!(place_domain(domain, n), best, "{domain}");
    }
    assert_eq!(place_domain("h", 0), 0);
    assert_eq!(place_domain("h", 1), 0);
}

#[test]
fn growth_moves_a_domain_only_to_new_groups() {
    for n in 1..60u32 {
        let (before, after) = (place_domain("s3", n), place_domain("s3", n + 1));
        assert!(after == before || after == n as u64);
    }
}

#[test]
fn the_first_of_the_heaviest_wins() {
    assert_eq!(heaviest(&vec![]), 0);
    assert_eq!(heaviest(&vec![0, 0]), 0);
    assert_eq!(heaviest(&vec![3, 9, 9, 1]), 1);
    assert_eq!(heaviest(&vec![0, 0, 1]), 2);
}

#[test]
fn voters_are_the_heaviest_nodes() {
    let nodes = [11u64, 22, 33, 44, 55];
    let mut by_weight: Vec<u64> = nodes.to_vec();
    by_weight.sort_by_key(|n| std::cmp::Reverse(weight(7, &n.to_le_bytes())));
    assert_eq!(select_voters(7, &nodes, 3), by_weight[..3].to_vec());
    assert_eq!(select_voters(7, &nodes, 9), by_weight);
    assert_eq!(select_voters(7, &nodes, 0), Vec::<u64>::new());
    assert_eq!(select_voters(7, &[], 3), Vec::<u64>::new());
}

#[test]
fn ties_keep_the_order_of_the_nodes() {
    assert_eq!(top_ranked(&[1, 2, 3, 4], &vec![5, 9, 5, 9], 4), vec![2, 4, 1, 3]);
    assert_eq!(top_ranked(&[1, 2, 3, 4], &vec![5, 9, 5, 9], 3), vec![2, 4, 1]);
}

#[test]
fn a_leaving_node_moves_no_others() {
    let nodes = [11u64, 22, 33, 44, 55];
    let voters = select_voters(3, &nodes, 2);
    for gone in nodes.iter().filter(|n| !voters.contains(n)) {
        let fewer: Vec<u64> = nodes.iter().copied().filter(|n| n != gone).collect();
        assert_eq!(select_voters(3, &fewer, 2), voters);
    }
}

#[test]
fn the_system_group_is_the_last_id() {
    assert_eq!(SYS_GROUP_ID, u64::MAX);
}

// --- Membership and health ---

#[test]
fn seeds_name_members_by_number() {
    assert_eq!(parse_seed("17.pathlockd:7946"), Some(17));
    assert_eq!(parse_seed("17"), Some(17));
    assert_eq!(parse_seed("pathlockd-0.pathlockd:7946"), None);
    assert_eq!(parse_seed(".5"), None);
    assert_eq!(parse_seed(""), None);
    assert_eq!(parse_seed("18446744073709551616.x"), None);
    let seeds = ["2.a", "x.b", "3.c", "2.d", "1.e"].map(String::from).to_vec();
    let m = start_gossip(1, &seeds);
    assert_eq!((m.node_id, m.members), (1, vec![1, 2, 3]));
}

#[test]
fn members_are_replaced_without_duplicates() {
    let mut m = ClusterMembers::new(9);
    assert!(m.members.is_empty());
    m.update(&vec![4, 4, 2]);
    assert_eq!((m.node_id, m.members), (9, vec![4, 2]));
}

#[test]
fn a_node_reports_its_readiness() {
    let up = NodeState {
        groups_open: true,
        gossip_started: true,
        transport_started: true,
        joined: true,
        sys_leader_known: true,
        enough_groups_led: true,
    };
    let r = check_ready(&up);
    assert!(r.ready && r.detail == "ready");
    for (node, detail) in [
        (NodeState { groups_open: false, ..up }, "local groups are not open"),
        (NodeState { gossip_started: false, ..up }, "gossip has not started"),
        (
            NodeState { transport_started: false, ..up },
            "internal raft transport has not started",
        ),
        (NodeState { joined: false, ..up }, "node has not joined the cluster"),
        (NodeState { sys_leader_known: false, ..up }, "system group has no known leader"),
        (
            NodeState { enough_groups_led: false, ..up },
            "too few groups have a leader and a quorum",
        ),
    ] {
        let r = check_ready(&node);
        assert!(!r.ready);
        assert_eq!(r.detail, detail);
    }
    assert_eq!(HealthStatus::ready().detail, "ready");
    let down = HealthStatus::not_ready("no quorum");
    assert!(!down.ready && down.detail == "no quorum");
}

#[test]
fn the_pieces_of_a_group_carry_what_they_are_given() {
    assert_eq!(MembershipManager::new(4).group_id, 4);
    assert_eq!(RaftNetwork::new(5).node_id, 5);
    assert_eq!(Store::new(Db::new()).db.len(), 0);
    let node = RaftNode::new(6, Db::new());
    assert_eq!((node.group_id, node.db.len()), (6, 0));
    let snap = Snapshot { group_id: 1, data: SnapshotData { last_applied: Some(2) } };
    assert_eq!(snap.data.last_applied, Some(2));
}

// --- The router ---

const NOW: u64 = 1_700_000_000_000;

fn router() -> Router {
    let mut r = Router::new(3);
    r.set_local_db(Db::new());
    r
}

fn write(path: &str) -> LockReq {
    LockReq { path: path.to_string(), mode: Mode::Write, state: State::New }
}

fn args(owner: &str, token: i64, requests: Vec<LockReq>) -> AcquireArgs {
    AcquireArgs {
        owner_id: owner.to_string(),
        ttl_ms: 30_000,
        requests,
        fencing_token: token,
        release_requests: vec![],
    }
}

#[test]
fn one_acquire_stays_in_one_domain() {
    let mut r = router();
    let e = r
        .acquire(args("a", 1, vec![write("h:/x"), write("s3:/x")]), NOW)
        .unwrap_err();
    assert!(matches!(e, RouterError::MultiDomain(MultiDomainUnsupported)));
    assert_eq!(
        e.to_string(),
        "all paths in one acquire must share a lock domain"
    );
    let mut mixed = args("a", 1, vec![write("h:/x")]);
    mixed.release_requests = vec![RelReq { path: "s3:/x".into(), mode: Mode::Write }];
    assert!(r.acquire(mixed, NOW).is_err());
    assert!(r.unsaved.ops.is_empty());
    assert_eq!(
        r.acquire(args("a", 1, vec![write("h:/x"), write("h:/y")]), NOW).unwrap(),
        AcquireOutcome::Granted
    );
    assert!(!r.unsaved.ops.is_empty());
}

#[test]
fn empty_operations_need_no_store() {
    let mut r = Router::new(1);
    assert_eq!(r.acquire(args("a", 1, vec![]), NOW).unwrap(), AcquireOutcome::Granted);
    assert!(r.release("a", vec![], true, NOW).is_ok());
    assert!(!r.is_owner_alive("a", NOW).unwrap());
    let (alive, locks) = r.list_owner_locks("a", NOW).unwrap();
    assert!(!alive && locks.is_empty());
    assert_eq!(r.due_entries(10, NOW), 0);
}

#[test]
fn other_operations_need_a_store() {
    let mut r = Router::new(1);
    let e = r.acquire(args("a", 1, vec![write("h:/x")]), NOW).unwrap_err();
    assert_eq!(e.to_string(), "no local store configured");
    assert!(matches!(r.gc_sweep(1, NOW), Err(RouterError::NoLocalStore)));
    assert!(matches!(r.renew("a", 1, NOW), Err(RouterError::NoLocalStore)));
    assert!(matches!(r.incr_fencing_token(NOW), Err(RouterError::NoLocalStore)));
    assert!(matches!(r.force_release("a", NOW), Err(RouterError::NoLocalStore)));
    assert!(matches!(r.release_all("a", true, NOW), Err(RouterError::NoLocalStore)));
    assert!(matches!(r.set_claim("h:/x", "a", 0, NOW), Err(RouterError::NoLocalStore)));
    assert!(matches!(r.clear_wait_edge("a", NOW), Err(RouterError::NoLocalStore)));
    assert!(matches!(
        r.set_wait_edge("a", "b", 1, &None, NOW),
        Err(RouterError::NoLocalStore)
    ));
    assert!(matches!(r.inspect_path("h:/x", NOW), Err(RouterError::NoLocalStore)));
    assert!(matches!(r.dump_locks(None, 0, NOW), Err(RouterError::NoLocalStore)));
    assert!(matches!(r.detect_cycle("a", 1, NOW), Err(RouterError::NoLocalStore)));
    assert!(matches!(
        r.is_blocking("h:/x", "a", "write_locked", NOW),
        Err(RouterError::NoLocalStore)
    ));
    assert!(matches!(
        r.assert_fencing("a", 1, &vec![], NOW),
        Err(RouterError::NoLocalStore)
    ));
}

#[test]
fn the_life_of_a_lock_through_the_router() {
    let mut r = router();
    assert_eq!(r.incr_fencing_token(NOW).unwrap(), 1);
    r.acquire(args("a", 1, vec![write("h:/x")]), NOW).unwrap();
    assert_eq!(r.inspect_path("h:/x", NOW).unwrap().write_owner.as_deref(), Some("a"));
    assert!(r.is_owner_alive("a", NOW).unwrap());
    assert_eq!(r.renew("a", 60_000, NOW + 1).unwrap(), RenewOutcome::Renewed);
    assert_eq!(
        r.assert_fencing("a", 1, &vec!["h:/x".to_string()], NOW + 2).unwrap(),
        AssertOutcome::Held
    );
    assert!(r.is_blocking("h:/x", "a", "write_locked", NOW + 2).unwrap());
    let (alive, locks) = r.list_owner_locks("a", NOW + 2).unwrap();
    assert!(alive);
    assert_eq!(locks.len(), 1);
    r.set_wait_edge("a", "b", 1_000, &None, NOW + 2).unwrap();
    assert_eq!(r.detect_cycle("a", 5, NOW + 2).unwrap(), CycleOutcome::Clear);
    r.clear_wait_edge("a", NOW + 2).unwrap();
    r.set_claim("h:/z", "a", 0, NOW + 2).unwrap();
    assert_eq!(
        r.inspect_path("h:/z", NOW + 3).unwrap().claim_owner.as_deref(),
        Some("a")
    );
    r.release("a", vec![RelReq { path: "h:/x".into(), mode: Mode::Write }], false, NOW + 3)
        .unwrap();
    assert_eq!(r.inspect_path("h:/x", NOW + 4).unwrap().write_owner, None);
    r.release_all("a", true, NOW + 4).unwrap();
    assert!(!r.is_owner_alive("a", NOW + 5).unwrap());
}

#[test]
fn unsaved_writes_catch_the_disk_up() {
    let mut r = router();
    let mut disk = Db::new();
    r.acquire(args("a", 1, vec![write("h:/x")]), NOW).unwrap();
    disk.write(&r.take_unsaved());
    r.release_all("a", true, NOW + 1).unwrap();
    disk.write(&r.take_unsaved());
    assert!(r.take_unsaved().ops.is_empty());
    let db = r.local_db.as_ref().unwrap();
    assert_eq!(db.len(), disk.len());
    for i in 0..db.len() {
        assert_eq!(db.row(i).cf, disk.row(i).cf);
        assert_eq!(db.row(i).key, disk.row(i).key);
    }
}

#[test]
fn a_sweep_through_the_router_counts_what_went() {
    let mut r = router();
    r.acquire(args("a", 1, vec![write("h:/x")]), NOW).unwrap();
    let due = r.due_entries(1_000, NOW + 40_000);
    assert!(due > 0);
    let reclaimed = r.gc_sweep(1_000, NOW + 40_000).unwrap();
    assert!(reclaimed > 0 && reclaimed <= due as u64);
    assert_eq!(r.due_entries(1_000, NOW + 40_000), 0);
}

#[test]
fn errors_have_their_messages() {
    assert_eq!(NotLeader.to_string(), "not leader");
    assert_eq!(QuorumUnavailable.to_string(), "raft quorum unavailable");
    assert_eq!(
        WrongGroup.to_string(),
        "routing error: request belongs to a different group"
    );
    assert_eq!(
        RouterError::UnexpectedResponse.to_string(),
        "unexpected response type"
    );
    assert_eq!(
        RouterError::Store(StoreError::Undecodable).to_string(),
        "value holds no record"
    );
}

#[test]
fn a_falling_clock_does_not_bring_a_lease_back() {
    let mut r = router();
    r.acquire(args("a", 1, vec![write("h:/x")]), NOW).unwrap();
    // At the end of the lease another owner takes the lock.
    assert_eq!(
        r.acquire(args("b", 2, vec![write("h:/x")]), NOW + 30_000).unwrap(),
        AcquireOutcome::Granted
    );
    // The clock falls: operations still see the later time.
    assert_eq!(r.stamp(NOW), NOW + 30_000);
    assert!(!r.is_owner_alive("a", NOW).unwrap());
    assert!(matches!(
        r.acquire(args("a", 3, vec![write("h:/x")]), NOW).unwrap(),
        AcquireOutcome::Conflict { .. }
    ));
    assert_eq!(r.clock, NOW + 30_000);
    r.acquire(args("c", 4, vec![write("h:/y")]), NOW + 1).unwrap();
    assert!(r.is_owner_alive("c", NOW + 59_999).unwrap());
    assert!(!r.is_owner_alive("c", NOW + 60_000).unwrap());
    assert_eq!(r.stamp(NOW + 70_000), NOW + 70_000);
}

#[test]
fn of_two_owners_at_most_one_is_granted() {
    let mut r = router();
    let rel = |p: &str| vec![RelReq { path: p.to_string(), mode: Mode::Write }];
    let asks = |r: &mut Router, owner: &str, path: &str, now: u64| {
        r.acquire(args(owner, 9, vec![write(path)]), now).unwrap() == AcquireOutcome::Granted
    };
    assert!(asks(&mut r, "a", "h:/x/y", NOW));
    // Whatever others do, and whatever the holder does short of giving it up.
    assert!(!asks(&mut r, "b", "h:/x/y", NOW));
    assert!(!asks(&mut r, "b", "h:/x", NOW + 1));
    assert!(!asks(&mut r, "b", "h:/x/y/z", NOW + 1));
    assert!(asks(&mut r, "b", "h:/w", NOW + 2));
    r.release("b", rel("h:/x/y"), true, NOW + 2).unwrap();
    r.release_all("b", true, NOW + 2).unwrap();
    r.force_release("c", NOW + 2).unwrap();
    assert!(asks(&mut r, "a", "h:/v", NOW + 3));
    r.release("a", rel("h:/v"), false, NOW + 4).unwrap();
    r.set_claim("h:/x/y", "c", 1_000, NOW + 4).unwrap();
    r.gc_sweep(1_000, NOW + 4).unwrap();
    assert!(!asks(&mut r, "b", "h:/x/y", NOW + 5));
    // The lease runs on to its end, and a renewal moves that.
    r.renew("a", 60_000, NOW + 5).unwrap();
    assert!(!asks(&mut r, "c", "h:/x/y", NOW + 60_004));
    assert!(asks(&mut r, "c", "h:/x/y", NOW + 60_005));
    assert!(!asks(&mut r, "a", "h:/x/y", NOW + 60_006));
    // Once given up it is free.
    r.release("c", rel("h:/x/y"), true, NOW + 60_007).unwrap();
    assert!(!r.is_owner_alive("c", NOW + 60_007).unwrap());
    assert!(asks(&mut r, "a", "h:/x/y", NOW + 60_008));
}

#[test]
fn the_last_sync_setting_goes_with_the_batch() {
    let mut r = router();
    r.incr_fencing_token(NOW).unwrap();
    assert!(!r.take_commit().1);
    r.set_wal_sync(true);
    r.incr_fencing_token(NOW).unwrap();
    let (batch, sync) = r.take_commit();
    assert!(sync && !batch.ops.is_empty());
    assert!(r.take_commit().0.ops.is_empty());
    r.set_wal_sync(true);
    r.set_wal_sync(false);
    r.incr_fencing_token(NOW).unwrap();
    r.incr_fencing_token(NOW).unwrap();
    assert!(!r.take_commit().1);
}

#[test]
fn the_router_knows_how_far_it_has_swept() {
    let mut r = router();
    assert_eq!(Router::new(1).gc_cursor(), None);
    assert_eq!(r.gc_cursor(), None);
    r.acquire(args("a", 1, vec![write("h:/x")]), NOW).unwrap();
    r.gc_sweep(1_000, NOW + 40_000).unwrap();
    assert!(r.gc_cursor().is_some());
}

#[test]
fn sweeps_leave_nothing_that_has_expired() {
    let mut r = router();
    for (i, now) in [NOW, NOW + 90_000, NOW + 10, NOW + 95_000].into_iter().enumerate() {
        r.acquire(args("a", 1, vec![write(&format!("h:/x/{i}"))]), now).unwrap();
        r.set_wait_edge("a", "b", 1_000, &None, now).unwrap();
        r.gc_sweep(3, now).unwrap();
        r.renew("a", 40_000, now).unwrap();
    }
    let later = NOW + 2 * 86_400_000;
    while r.due_entries(5, later) > 0 {
        r.gc_sweep(5, later).unwrap();
    }
    let db = r.local_db.as_ref().unwrap();
    for i in 0..db.len() {
        assert_eq!(db.row(i).cf, Cf::Meta);
    }
    assert_eq!(db.len(), 2);
}

// --- The dump of all locks ---

fn take(r: &mut Router, owner: &str, path: &str, mode: Mode, token: i64, ttl_ms: u64) {
    let args = AcquireArgs {
        owner_id: owner.to_string(),
        ttl_ms,
        requests: vec![LockReq { path: path.to_string(), mode, state: State::New }],
        fencing_token: token,
        release_requests: vec![],
    };
    assert_eq!(r.acquire(args, NOW).unwrap(), AcquireOutcome::Granted);
}

fn entry(owner: &str, mode: Mode, path: &str, fence: Option<i64>) -> LockDumpEntry {
    LockDumpEntry { owner: owner.to_string(), mode, path: path.to_string(), fence }
}

#[test]
fn a_dump_lists_every_lock_of_every_live_owner() {
    let mut r = router();
    take(&mut r, "b", "h:/y", Mode::Read, 0, 10_000);
    take(&mut r, "\u{e9}", "h:/z", Mode::Write, 9, 10_000);
    take(&mut r, "a", "h:/x", Mode::Write, 7, 10_000);
    take(&mut r, "gone", "h:/w", Mode::Write, 8, 100);
    let page = r.dump_locks(None, 0, NOW + 1_000).unwrap();
    assert_eq!(
        page.entries,
        vec![
            entry("a", Mode::Write, "h:/x", Some(7)),
            entry("b", Mode::Read, "h:/y", None),
            entry("\u{e9}", Mode::Write, "h:/z", Some(9)),
        ]
    );
    assert!(page.done);
    assert_eq!(page.cursor, None);
}

#[test]
fn the_pages_of_a_dump_join() {
    let mut r = router();
    for i in 0..5 {
        take(&mut r, &format!("o{i}"), &format!("h:/p{i}"), Mode::Read, 0, 10_000);
    }
    let whole = r.dump_locks(None, 0, NOW).unwrap().entries;
    assert_eq!(whole.len(), 5);
    let mut joined = Vec::new();
    let mut cursor = None;
    let mut sizes = Vec::new();
    loop {
        let page = r.dump_locks(cursor, 2, NOW).unwrap();
        sizes.push(page.entries.len());
        joined.extend(page.entries);
        cursor = page.cursor;
        if page.done {
            break;
        }
    }
    assert_eq!(sizes, vec![2, 2, 1]);
    assert_eq!(joined, whole);
    let page = r.dump_locks(Some(b"o3".to_vec()), 2, NOW).unwrap();
    assert_eq!(page.entries, vec![entry("o4", Mode::Read, "h:/p4", None)]);
    let page = r.dump_locks(Some(b"o1x".to_vec()), 1, NOW).unwrap();
    assert_eq!(page.entries, vec![entry("o2", Mode::Read, "h:/p2", None)]);
    assert_eq!(page.cursor, Some(b"o2".to_vec()));
}

#[test]
fn a_page_of_a_dump_has_a_default_and_a_largest_size() {
    let mut r = router();
    for i in 0..520 {
        take(&mut r, &format!("o{i:03}"), "h:/p", Mode::Read, 0, 10_000);
    }
    assert_eq!(r.dump_locks(None, 0, NOW).unwrap().entries.len(), 64);
    assert_eq!(r.dump_locks(None, 100, NOW).unwrap().entries.len(), 100);
    assert_eq!(r.dump_locks(None, 512, NOW).unwrap().entries.len(), 512);
    let page = r.dump_locks(None, 9_999, NOW).unwrap();
    assert_eq!(page.entries.len(), 512);
    assert_eq!(page.cursor, Some(b"o511".to_vec()));
    assert!(!page.done);
}

#[test]
fn a_marker_that_is_no_text_is_no_owner() {
    let mut db = Db::new();
    let live = StoredRecord::Str { v: "1".to_string(), exp: 0 };
    db.put(Cf::OwnerAlive, vec![0xff, 0xfe], Cell::Record(live));
    let mut r = Router::new(1);
    r.set_local_db(db);
    let page = r.dump_locks(None, 0, NOW).unwrap();
    assert!(page.entries.is_empty());
    assert!(page.done);
}

#[test]
fn releasing_everything_leaves_nothing() {
    let mut r = router();
    take(&mut r, "a", "h:/x", Mode::Write, 1, 10_000);
    take(&mut r, "a", "h:/y", Mode::Read, 0, 10_000);
    take(&mut r, "b", "h:/z", Mode::Read, 0, 10_000);
    r.release_all("a", true, NOW).unwrap();
    let page = r.dump_locks(None, 0, NOW).unwrap();
    assert_eq!(page.entries, vec![entry("b", Mode::Read, "h:/z", None)]);
    take(&mut r, "c", "h:/x", Mode::Write, 2, 10_000);
    take(&mut r, "c", "h:/y", Mode::Write, 2, 10_000);
}
