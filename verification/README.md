# pathlockd

Hierarchical path locking with leases, fencing tokens, preemption claims and
deadlock detection. The library is verified with Verus; `app/` is the daemon around
it.

- `src/engine/` takes, renews and gives up locks over a store transaction; `dump.rs`
  lists all that are held, page by page. `laws.rs`, `outcome_laws.rs`,
  `lease_laws.rs`, `tenure_laws.rs` and `deadlock_laws.rs` state what holds of it, first
  of all that no two owners ever hold locks that exclude each other.
- `src/db.rs`, `src/store_keys.rs` and `src/store_rocksdb.rs` are the contents of the
  store, its keys and the transactions over it; `src/store_laws.rs` states what a
  read gives back of a write, and that sweeping expired records cannot be seen.
- `src/raft/` holds the commands and the state machine that applies them, one after
  the other; `gc_laws.rs` states that sweeps miss nothing.
- `src/cluster/` places lock domains, knows the members, and routes operations to the
  local store. `router.rs` states that of two owners who ask for one lock, at most one
  is granted it.
- `src/service/` checks requests and answers them; `src/events.rs` decides where
  events go; `src/config.rs` and `src/daemon.rs` hold the settings and the rules of the
  background passes.
- `app/` reads settings, keeps the store in RocksDB, and serves gRPC. It runs every
  operation alone and writes what it changed to disk before anybody sees it.
