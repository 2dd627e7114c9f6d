//! Store transactions, the state machine's transaction, and the keys of the store.

use pathlockd::db::{BatchOp, Cell, Db, WriteBatch};
use pathlockd::raft::command::{ApplyResponse, Command, Op};
use pathlockd::raft::state_machine;
use pathlockd::raft::state_machine::{
    due_entries, gc_sweep, incr_fence_inner, read_cursor, set_wal_sync, RocksDbStoreTxn, WalSync,
};
use pathlockd::store_keys;
use pathlockd::store_keys::Cf;
use pathlockd::store_rocksdb::{
    RocksDbTxn, SetScanLimitExceeded, StoreError, StoreTxn, StoredRecord,
};

fn text(v: &str, exp: u64) -> Cell {
    Cell::Record(StoredRecord::Str { v: v.to_string(), exp })
}

// --- The read-only transaction ---

#[test]
fn read_only_txn_get_str_returns_none_for_missing_key() {
    let db = Db::new();
    let mut txn = RocksDbTxn::new(&db, 100_000);
    assert!(txn
        .get_str(store_keys::CF_WRITE_LOCKS, b"nonexistent")
        .unwrap()
        .is_none());
}

#[test]
fn read_only_txn_set_str_fails() {
    let db = Db::new();
    let mut txn = RocksDbTxn::new(&db, 100_000);
    assert!(txn
        .set_str(store_keys::CF_WRITE_LOCKS, b"key", "val", 1000)
        .is_err());
}

#[test]
fn read_only_txn_sadd_fails() {
    let db = Db::new();
    let mut txn = RocksDbTxn::new(&db, 100_000);
    assert!(txn
        .sadd(store_keys::CF_OWNER_HOLDS, b"set", "member", 1000)
        .is_err());
}

#[test]
fn read_only_txn_lazy_cleanup_is_a_silent_noop() {
    let db = Db::new();
    let mut txn = RocksDbTxn::new(&db, 100_000);
    assert!(txn.del(store_keys::CF_WRITE_LOCKS, b"key").is_ok());
    assert!(txn
        .srem(store_keys::CF_OWNER_HOLDS, b"set", "member")
        .is_ok());
    assert!(txn.del_set(store_keys::CF_OWNER_HOLDS, b"set").is_ok());
}

#[test]
fn read_only_txn_has_live_member_returns_false_for_empty() {
    let db = Db::new();
    let mut txn = RocksDbTxn::new(&db, 100_000);
    assert!(!txn
        .has_live_member(store_keys::CF_OWNER_HOLDS, b"empty-set")
        .unwrap());
}

#[test]
fn read_only_txn_smembers_limited_returns_empty() {
    let db = Db::new();
    let mut txn = RocksDbTxn::new(&db, 100_000);
    assert!(txn
        .smembers_limited(store_keys::CF_OWNER_HOLDS, b"empty-set", 100)
        .unwrap()
        .is_empty());
}

#[test]
fn read_only_txn_sismember_returns_false() {
    let db = Db::new();
    let mut txn = RocksDbTxn::new(&db, 100_000);
    assert!(!txn
        .sismember(store_keys::CF_OWNER_HOLDS, b"empty-set", "member")
        .unwrap());
}

#[test]
fn store_txn_trait_is_implemented() {
    fn accept_store_txn<T: StoreTxn>(_txn: &mut T) {}
    let db = Db::new();
    accept_store_txn(&mut RocksDbTxn::new(&db, 100_000));
    accept_store_txn(&mut RocksDbStoreTxn::new(&db, 100_000));
}

#[test]
fn set_scan_limit_error_formatting() {
    let err = SetScanLimitExceeded {
        operation: "smembers",
        limit: 100,
    };
    let msg = err.to_string();
    assert!(msg.contains("smembers"));
    assert!(msg.contains("100"));
    assert_eq!(
        msg,
        "smembers on set would enumerate more than 100 live members"
    );
}

#[test]
fn read_only_writes_name_the_reason() {
    let db = Db::new();
    let mut txn = RocksDbTxn::new(&db, 1);
    let e = txn.pexpire_str(Cf::WriteLocks, b"k", 5).unwrap_err();
    assert_eq!(e.to_string(), "RocksDbTxn is read-only");
    assert!(matches!(e, StoreError::ReadOnly));
}

// --- Reads ---

#[test]
fn expired_text_reads_as_missing() {
    let mut db = Db::new();
    db.put(Cf::Claims, b"k".to_vec(), text("v", 500));
    assert_eq!(
        RocksDbTxn::new(&db, 499)
            .get_str(Cf::Claims, b"k")
            .unwrap(),
        Some("v".to_string())
    );
    assert_eq!(
        RocksDbTxn::new(&db, 500)
            .get_str(Cf::Claims, b"k")
            .unwrap(),
        None
    );
}

#[test]
fn expiry_zero_never_expires() {
    let mut db = Db::new();
    db.put(Cf::Claims, b"k".to_vec(), text("v", 0));
    assert_eq!(
        RocksDbTxn::new(&db, u64::MAX)
            .get_str(Cf::Claims, b"k")
            .unwrap(),
        Some("v".to_string())
    );
}

#[test]
fn bytes_without_a_record_are_an_error() {
    let mut db = Db::new();
    db.put(Cf::Claims, b"k".to_vec(), Cell::Undecodable);
    let e = RocksDbTxn::new(&db, 1)
        .get_str(Cf::Claims, b"k")
        .unwrap_err();
    assert!(matches!(e, StoreError::Undecodable));
    assert_eq!(e.to_string(), "value holds no record");
}

#[test]
fn enumeration_stops_at_the_limit() {
    let mut db = Db::new();
    for m in ["a", "b", "c"] {
        db.put(
            Cf::OwnerHolds,
            store_keys::member_key(b"set", m),
            text(m, 0),
        );
    }
    let mut txn = RocksDbTxn::new(&db, 1);
    assert_eq!(
        txn.smembers_limited(Cf::OwnerHolds, b"set", 3).unwrap(),
        vec!["a", "b", "c"]
    );
    let e = txn.smembers_limited(Cf::OwnerHolds, b"set", 2).unwrap_err();
    assert!(matches!(e, StoreError::ScanLimit(SetScanLimitExceeded { limit: 2, .. })));
}

#[test]
fn only_live_members_count_toward_the_limit() {
    let mut db = Db::new();
    db.put(Cf::OwnerHolds, store_keys::member_key(b"s", "live"), text("live", 0));
    for m in ["x", "y", "z"] {
        db.put(Cf::OwnerHolds, store_keys::member_key(b"s", m), text(m, 50));
    }
    let read = |db: &Db| {
        let mut reader = RocksDbTxn::new(db, 100);
        let mut writer = RocksDbStoreTxn::new(db, 100);
        let a = reader.smembers_limited(Cf::OwnerHolds, b"s", 1);
        let b = writer.smembers_limited(Cf::OwnerHolds, b"s", 1);
        assert_eq!(a.is_ok(), b.is_ok());
        a
    };
    assert_eq!(read(&db).unwrap(), vec!["live"]);
    // A fifth row is more than the scan may look at for one member.
    db.put(Cf::OwnerHolds, store_keys::member_key(b"s", "w"), text("w", 50));
    assert!(matches!(read(&db), Err(StoreError::ScanLimit(_))));
    let mut txn = RocksDbTxn::new(&db, 100);
    assert_eq!(
        txn.smembers_limited(Cf::OwnerHolds, b"s", usize::MAX).unwrap(),
        vec!["live"]
    );
}

#[test]
fn a_set_is_read_page_by_page() {
    let mut db = Db::new();
    for (m, exp) in [("a", 0), ("b", 50), ("c", 0), ("d", 0)] {
        db.put(Cf::OwnerHolds, store_keys::member_key(b"s", m), text(m, exp));
    }
    let mut txn = RocksDbTxn::new(&db, 100);
    let mut page = |from, limit| txn.smembers_page(Cf::OwnerHolds, b"s", from, limit);
    assert_eq!(page(0, 2), (vec!["a".to_string()], true));
    assert_eq!(page(2, 2), (vec!["c".to_string(), "d".to_string()], false));
    assert_eq!(page(1, 2), (vec!["c".to_string()], true));
    assert_eq!(page(4, 2), (vec![], false));
    assert_eq!(page(usize::MAX, usize::MAX), (vec![], false));
    assert_eq!(page(3, usize::MAX), (vec!["d".to_string()], false));
}

#[test]
fn sets_with_a_common_beginning_stay_apart() {
    let mut db = Db::new();
    db.put(
        Cf::OwnerHolds,
        store_keys::member_key(b"owner1", "m"),
        text("", 0),
    );
    let mut txn = RocksDbTxn::new(&db, 1);
    assert!(!txn.has_live_member(Cf::OwnerHolds, b"owner").unwrap());
    assert!(txn.has_live_member(Cf::OwnerHolds, b"owner1").unwrap());
}

// --- The writing transaction ---

fn committed(db: &mut Db, now: u64, f: impl Fn(&mut RocksDbStoreTxn)) {
    let batch = {
        let mut txn = RocksDbStoreTxn::new(db, now);
        f(&mut txn);
        txn.commit()
    };
    db.write(&batch);
}

#[test]
fn a_write_is_read_back_at_once_and_after_its_commit() {
    let mut db = Db::new();
    committed(&mut db, 1_000, |txn| {
        assert_eq!(txn.get_str(Cf::Claims, b"k").unwrap(), None);
        txn.set_str(Cf::Claims, b"k", "v", 500).unwrap();
        assert_eq!(txn.get_str(Cf::Claims, b"k").unwrap(), Some("v".to_string()));
        assert_eq!(txn.get_str(Cf::Fences, b"k").unwrap(), None);
        assert_eq!(txn.get_str(Cf::Claims, b"kk").unwrap(), None);
    });
    assert_eq!(
        RocksDbTxn::new(&db, 1_000)
            .get_str(Cf::Claims, b"k")
            .unwrap(),
        Some("v".to_string())
    );
    assert_eq!(
        RocksDbTxn::new(&db, 1_499)
            .get_str(Cf::Claims, b"k")
            .unwrap(),
        Some("v".to_string())
    );
    assert_eq!(
        RocksDbTxn::new(&db, 1_500)
            .get_str(Cf::Claims, b"k")
            .unwrap(),
        None
    );
    assert!(db
        .get(Cf::Expiry, &store_keys::expiry_key(1_500, Cf::Claims, b"k"))
        .is_some());
}

#[test]
fn a_member_can_be_added_and_removed() {
    let mut db = Db::new();
    committed(&mut db, 1_000, |txn| {
        txn.sadd(Cf::OwnerHolds, b"o", "m", 500).unwrap();
        txn.sadd(Cf::OwnerHolds, b"o", "n", 500).unwrap();
    });
    assert!(RocksDbTxn::new(&db, 1_100)
        .sismember(Cf::OwnerHolds, b"o", "m")
        .unwrap());
    committed(&mut db, 1_100, |txn| {
        txn.srem(Cf::OwnerHolds, b"o", "m").unwrap();
    });
    assert!(!RocksDbTxn::new(&db, 1_100)
        .sismember(Cf::OwnerHolds, b"o", "m")
        .unwrap());
    assert!(RocksDbTxn::new(&db, 1_100)
        .sismember(Cf::OwnerHolds, b"o", "n")
        .unwrap());
    committed(&mut db, 1_200, |txn| {
        txn.del_set(Cf::OwnerHolds, b"o").unwrap();
    });
    assert!(!RocksDbTxn::new(&db, 1_200)
        .has_live_member(Cf::OwnerHolds, b"o")
        .unwrap());
}

#[test]
fn a_transaction_reads_through_its_own_writes() {
    let mut db = Db::new();
    committed(&mut db, 1_000, |txn| {
        for m in ["a", "b", "c"] {
            txn.sadd(Cf::OwnerHolds, b"o", m, 500).unwrap();
        }
        txn.sadd(Cf::OwnerHolds, b"p", "z", 500).unwrap();
        txn.set_str(Cf::OwnerAlive, b"o", "1", 500).unwrap();
    });
    let mut txn = RocksDbStoreTxn::new(&db, 1_100);
    txn.srem(Cf::OwnerHolds, b"o", "b").unwrap();
    txn.sadd(Cf::OwnerHolds, b"o", "ab", 500).unwrap();
    assert!(!txn.sismember(Cf::OwnerHolds, b"o", "b").unwrap());
    assert!(txn.sismember(Cf::OwnerHolds, b"o", "ab").unwrap());
    assert_eq!(
        txn.smembers_limited(Cf::OwnerHolds, b"o", 10).unwrap(),
        vec!["a", "ab", "c"]
    );
    assert_eq!(
        txn.smembers_page(Cf::OwnerHolds, b"o", 1, 1),
        (vec!["ab".to_string()], true)
    );
    assert!(txn.smembers_limited(Cf::OwnerHolds, b"o", 2).is_err());
    txn.del(Cf::OwnerAlive, b"o").unwrap();
    txn.pexpire_str(Cf::OwnerAlive, b"o", 9_000).unwrap();
    assert_eq!(txn.get_str(Cf::OwnerAlive, b"o").unwrap(), None);
    assert!(txn.has_live_member(Cf::OwnerHolds, b"o").unwrap());
    txn.del_set(Cf::OwnerHolds, b"o").unwrap();
    assert!(!txn.has_live_member(Cf::OwnerHolds, b"o").unwrap());
    assert!(txn.has_live_member(Cf::OwnerHolds, b"p").unwrap());
    let batch = txn.commit();
    db.write(&batch);
    let mut after = RocksDbTxn::new(&db, 1_100);
    assert!(!after.has_live_member(Cf::OwnerHolds, b"o").unwrap());
    assert_eq!(after.smembers_limited(Cf::OwnerHolds, b"p", 10).unwrap(), vec!["z"]);
}

#[test]
fn two_tokens_of_one_transaction_differ() {
    let db = Db::new();
    let mut txn = RocksDbStoreTxn::new(&db, 1);
    assert_eq!(incr_fence_inner(&mut txn).unwrap(), 1);
    assert_eq!(incr_fence_inner(&mut txn).unwrap(), 2);
}

#[test]
fn a_refreshed_record_survives_the_sweep_of_its_old_entry() {
    let mut db = Db::new();
    committed(&mut db, 1_000, |txn| {
        txn.set_str(Cf::OwnerAlive, b"o", "1", 100).unwrap();
    });
    committed(&mut db, 1_050, |txn| {
        txn.pexpire_str(Cf::OwnerAlive, b"o", 10_000).unwrap();
    });
    let mut reclaimed = 7;
    let batch = {
        let mut txn = RocksDbStoreTxn::new(&db, 1_200);
        reclaimed += gc_sweep(&mut txn, 1_200, 16);
        txn.commit()
    };
    db.write(&batch);
    assert_eq!(reclaimed, 7);
    assert!(db.get(Cf::OwnerAlive, b"o").is_some());
    assert_eq!(due_entries(&db, 1_200, 16), 0);
}

fn rows(db: &Db, cf: Cf) -> usize {
    let (lo, hi) = db.scan_range(cf, b"");
    hi - lo
}

fn swept(db: &mut Db, now: u64, batch: u32) -> u64 {
    let (n, writes) = {
        let mut txn = RocksDbStoreTxn::new(db, now);
        let n = gc_sweep(&mut txn, now, batch);
        (n, txn.commit())
    };
    db.write(&writes);
    n
}

#[test]
fn a_record_with_two_entries_is_reclaimed_once() {
    let mut db = Db::new();
    for ttl in [100, 200] {
        committed(&mut db, 1_000, |txn| {
            txn.set_str(Cf::WriteLocks, b"h:/a", "alice", ttl).unwrap();
        });
    }
    committed(&mut db, 1_000, |txn| {
        txn.set_str(Cf::Claims, b"h:/a", "alice", 100).unwrap();
    });
    assert_eq!(due_entries(&db, 5_000, 1_024), 3);
    assert_eq!(swept(&mut db, 5_000, 1_024), 2);
    assert!(db.get(Cf::WriteLocks, b"h:/a").is_none());
    assert_eq!(rows(&db, Cf::Expiry), 0);
}

#[test]
fn a_sweep_goes_on_where_the_last_one_ended() {
    let mut db = Db::new();
    assert_eq!(read_cursor(&db), None);
    committed(&mut db, 1_000, |txn| {
        for k in ["a", "b", "c"] {
            txn.set_str(Cf::Claims, k.as_bytes(), "v", 100).unwrap();
        }
    });
    assert_eq!(swept(&mut db, 1_050, 2), 0);
    assert_eq!(read_cursor(&db), None);
    assert_eq!(swept(&mut db, 2_000, 2), 2);
    let cursor = store_keys::expiry_key(1_100, Cf::Claims, b"b");
    assert_eq!(read_cursor(&db), Some(cursor.clone()));
    // What lies before the position is not looked at again.
    db.put(Cf::Expiry, cursor.clone(), text("", 1_100));
    assert_eq!(due_entries(&db, 2_000, 16), 1);
    assert_eq!(swept(&mut db, 2_000, 16), 1);
    assert!(db.get(Cf::Expiry, &cursor).is_some());
    // What is written from then on lies behind it.
    committed(&mut db, 2_000, |txn| {
        txn.set_str(Cf::Claims, b"a", "v", 1).unwrap();
    });
    assert_eq!(swept(&mut db, 2_001, 16), 1);
    assert!(db.get(Cf::Claims, b"a").is_none());
}

#[test]
fn long_lived_records_share_a_slot_of_the_index() {
    let hour = store_keys::INDEX_SLOT_MS;
    let day = store_keys::LONG_TTL_MS;
    assert_eq!(store_keys::index_at(10 * hour, day), 10 * hour);
    assert_eq!(store_keys::index_at(10 * hour + 1, day), 11 * hour);
    assert_eq!(store_keys::index_at(11 * hour - 1, day + 5), 11 * hour);
    assert_eq!(store_keys::index_at(10 * hour + 1, day - 1), 10 * hour + 1);
    assert_eq!(store_keys::index_at(u64::MAX, day), u64::MAX);
    let mut db = Db::new();
    for now in [1_000, 2_000, 3_000] {
        committed(&mut db, now, |txn| {
            txn.set_str(Cf::Fences, b"h:/a", "1", day).unwrap();
        });
    }
    assert_eq!(rows(&db, Cf::Expiry), 1);
    assert_eq!(swept(&mut db, day + 3_000, 16), 0);
    assert_eq!(swept(&mut db, day + hour, 16), 1);
    assert_eq!(rows(&db, Cf::Fences), 0);
}

fn applied_number(db: &Db) -> Option<i64> {
    match db.get(Cf::Meta, b"last_applied") {
        Some(Cell::Record(StoredRecord::Counter { v })) => Some(*v),
        _ => None,
    }
}

#[test]
fn every_applied_command_moves_its_number_on() {
    let mut db = Db::new();
    assert_eq!(applied_number(&db), None);
    for (i, op) in [
        Op::ClearWaitEdge { owner: "a".to_string() },
        Op::IncrFence,
        Op::GcSweep { now_ms: 1, batch: 1 },
    ]
    .into_iter()
    .enumerate()
    {
        let cmd = Command { request_id: None, now_ms: 1, op };
        let (_, batch) = state_machine::prepare(&db, &cmd).unwrap();
        assert!(matches!(
            batch.ops.last(),
            Some(BatchOp::Put { cf: Cf::Meta, record: StoredRecord::Counter { .. }, .. })
        ));
        state_machine::apply(&mut db, &cmd).unwrap();
        assert_eq!(applied_number(&db), Some(i as i64 + 1));
    }
    // A command that fails leaves the number alone.
    db.put(Cf::Meta, b"fence_counter".to_vec(), Cell::Undecodable);
    let cmd = Command { request_id: None, now_ms: 1, op: Op::IncrFence };
    assert!(state_machine::apply(&mut db, &cmd).is_err());
    assert_eq!(applied_number(&db), Some(3));
}

#[test]
fn a_sweep_takes_what_is_due_up_to_the_batch() {
    let mut db = Db::new();
    committed(&mut db, 1_000, |txn| {
        for k in ["a", "b", "c"] {
            txn.set_str(Cf::Claims, k.as_bytes(), "v", 100).unwrap();
        }
        txn.set_str(Cf::Claims, b"later", "v", 5_000).unwrap();
    });
    assert_eq!(due_entries(&db, 1_099, 16), 0);
    assert_eq!(due_entries(&db, 1_100, 16), 3);
    assert_eq!(due_entries(&db, 1_100, 2), 2);
    let cmd = Command {
        request_id: None,
        now_ms: 1_100,
        op: Op::GcSweep { now_ms: 1_100, batch: 2 },
    };
    assert_eq!(state_machine::apply(&mut db, &cmd).unwrap(), ApplyResponse::Gc(2));
    assert_eq!(state_machine::apply(&mut db, &cmd).unwrap(), ApplyResponse::Gc(1));
    assert_eq!(state_machine::apply(&mut db, &cmd).unwrap(), ApplyResponse::Gc(0));
    assert!(db.get(Cf::Claims, b"a").is_none());
    assert!(db.get(Cf::Claims, b"later").is_some());
    assert_eq!(rows(&db, Cf::Claims), 1);
    assert_eq!(rows(&db, Cf::Expiry), 1);
}

#[test]
fn a_sweep_drops_an_entry_that_it_cannot_read() {
    let mut db = Db::new();
    db.put(Cf::Expiry, vec![0, 0, 0], text("", 0));
    let cmd = Command {
        request_id: None,
        now_ms: 1_000,
        op: Op::GcSweep { now_ms: 1_000, batch: 8 },
    };
    assert_eq!(state_machine::apply(&mut db, &cmd).unwrap(), ApplyResponse::Gc(0));
    assert_eq!(rows(&db, Cf::Expiry), 0);
}

#[test]
fn fencing_tokens_count_up_from_one_and_stop_at_the_top() {
    let mut db = Db::new();
    let cmd = Command { request_id: None, now_ms: 1, op: Op::IncrFence };
    assert_eq!(state_machine::apply(&mut db, &cmd).unwrap(), ApplyResponse::IncrFence(1));
    assert_eq!(state_machine::apply(&mut db, &cmd).unwrap(), ApplyResponse::IncrFence(2));
    db.put(
        Cf::Meta,
        b"fence_counter".to_vec(),
        Cell::Record(StoredRecord::Counter { v: i64::MAX }),
    );
    assert_eq!(
        state_machine::apply(&mut db, &cmd).unwrap(),
        ApplyResponse::IncrFence(i64::MAX)
    );
}

#[test]
fn a_counter_that_cannot_be_read_fails_and_changes_nothing() {
    let mut db = Db::new();
    db.put(Cf::Meta, b"fence_counter".to_vec(), Cell::Undecodable);
    let cmd = Command { request_id: None, now_ms: 1, op: Op::IncrFence };
    assert!(matches!(
        state_machine::apply(&mut db, &cmd),
        Err(StoreError::Undecodable)
    ));
    assert!(matches!(db.get(Cf::Meta, b"fence_counter"), Some(Cell::Undecodable)));
    let mut txn = RocksDbStoreTxn::new(&db, 1);
    assert!(incr_fence_inner(&mut txn).is_err());
}

#[test]
fn wal_sync_is_off_until_set() {
    let mut sync = WalSync::new();
    assert!(!sync.enabled);
    set_wal_sync(&mut sync, true);
    assert!(sync.enabled);
    set_wal_sync(&mut sync, false);
    assert!(!sync.enabled);
}

// --- Keys ---

#[test]
fn member_keys_put_a_zero_between_set_and_member() {
    assert_eq!(store_keys::member_prefix(b"ab"), vec![97, 98, 0]);
    assert_eq!(store_keys::member_key(b"ab", "c"), vec![97, 98, 0, 99]);
}

#[test]
fn an_expiry_key_reads_back() {
    let k = store_keys::expiry_key(0x0102, Cf::Claims, b"h:/a");
    assert_eq!(&k[..8], &[0, 0, 0, 0, 0, 0, 1, 2]);
    assert_eq!(
        store_keys::decode_expiry_entry(&k),
        Some((0x0102, Cf::Claims, b"h:/a".to_vec()))
    );
    assert_eq!(store_keys::decode_expiry_entry(&[1, 2, 3]), None);
}

#[test]
fn expiry_saturates_and_zero_means_never() {
    assert_eq!(store_keys::expiry_at(1_000, 0), 0);
    assert_eq!(store_keys::expiry_at(1_000, 5), 1_005);
    assert_eq!(store_keys::expiry_at(u64::MAX, 5), u64::MAX);
    assert!(!store_keys::expired(0, u64::MAX));
    assert!(store_keys::expired(5, 5));
    assert!(!store_keys::expired(6, 5));
}

#[test]
fn column_families_have_their_names() {
    for cf in store_keys::all_cfs() {
        assert_eq!(Cf::from_name(cf.name().as_bytes()), Some(cf));
    }
    assert_eq!(Cf::from_name(b"no_such_family"), None);
}

#[test]
fn the_lock_domain_is_the_handler() {
    assert_eq!(store_keys::lock_domain("google_drive:/a/b"), "google_drive");
    assert_eq!(store_keys::lock_domain("h:/a:b"), "h");
    assert_eq!(store_keys::lock_domain("plain"), "plain");
    assert_eq!(store_keys::lock_domain(""), "");
}

// --- Rows and batches ---

#[test]
fn rows_stand_in_key_order() {
    let mut db = Db::new();
    db.put(Cf::Claims, b"b".to_vec(), text("2", 0));
    db.put(Cf::Claims, b"a".to_vec(), text("1", 0));
    db.put(Cf::Claims, b"ab".to_vec(), text("3", 0));
    let (lo, hi) = db.scan_range(Cf::Claims, b"a");
    let keys: Vec<&[u8]> = (lo..hi).map(|i| db.row(i).key.as_slice()).collect();
    assert_eq!(keys, vec![b"a".as_slice(), b"ab".as_slice()]);
    db.delete(Cf::Claims, b"a");
    assert!(db.get(Cf::Claims, b"a").is_none());
    assert_eq!(db.len(), 2);
}

#[test]
fn a_batch_is_applied_in_order() {
    let mut db = Db::new();
    let mut batch = WriteBatch::new();
    batch.put_cf(Cf::Claims, b"k", StoredRecord::Counter { v: 1 });
    batch.delete_cf(Cf::Claims, b"k");
    let mut more = WriteBatch::new();
    more.put_cf(Cf::Claims, b"k", StoredRecord::Counter { v: 2 });
    batch.append(more);
    assert_eq!(batch.ops.len(), 3);
    assert!(matches!(batch.ops[1], BatchOp::Delete { .. }));
    db.write(&batch);
    assert!(matches!(
        db.get(Cf::Claims, b"k"),
        Some(Cell::Record(StoredRecord::Counter { v: 2 }))
    ));
}
