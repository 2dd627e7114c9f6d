//! Configuration: built-in defaults, overlaid by a file, overlaid by environment
//! variables.

use vstd::prelude::*;
use crate::store_rocksdb::opt_text;
use crate::text::{
    concat2, concat3, decimal, from_chars, lemma_digit_run, lemma_parse_decimal, list_items,
    parse_i32, parse_i32_spec, parse_unsigned, parse_unsigned_spec, split_list, str_eq, texts,
    to_chars, IntError,
};

verus! {

/// The deepest queue of a subscriber.
pub const MAX_EVENT_BUFFER: usize = 1_000_000;

/// The settings of an instance.
#[derive(Debug, Clone)]
pub struct Config {
    /// gRPC listen address.
    pub listen: String,
    /// Stable node identifier.
    pub node_id: String,
    /// Data directory of the RocksDB groups.
    pub data_dir: String,
    /// Public gRPC address for clients and peers.
    pub public_addr: String,
    /// Address of the internal Raft transport.
    pub raft_addr: String,
    /// SWIM gossip address.
    pub gossip_addr: String,
    /// Seed nodes of the cluster.
    pub seed_nodes: Vec<String>,
    /// Number of Raft groups.
    pub group_count: u32,
    /// Voters per Raft group; odd.
    pub replication_factor: u32,
    /// Seconds between sweeps of a group; 0 turns them off.
    pub group_gc_interval_secs: u64,
    /// Keys per sweep.
    pub group_gc_batch: u32,
    /// Queue depth of a subscriber.
    pub event_buffer: usize,
    /// Endpoints that events are forwarded to.
    pub peers: Vec<String>,
    /// A `host:port` name that resolves to every replica.
    pub peer_discovery_dns: Option<String>,
    /// The IP of this instance, left out of the peers that are found.
    pub self_ip: Option<String>,
    /// Seconds between resolutions of `peer_discovery_dns`.
    pub peer_refresh_secs: u64,
    /// Deadline of a request.
    pub request_timeout_ms: u64,
    /// Requests at a time on one HTTP/2 connection.
    pub max_concurrent_requests_per_connection: usize,
    /// Bootstrap a new cluster.
    pub bootstrap: bool,
    /// Join an existing cluster.
    pub join: bool,
    /// Log entries between Raft snapshots.
    pub raft_snapshot_interval_entries: u64,
    /// Log entries before the first Raft snapshot.
    pub raft_snapshot_min_log_entries: u64,
    /// Raft proposals in flight.
    pub raft_max_inflight: usize,
    /// Whether each write is synced to the write-ahead log.
    pub rocksdb_wal_sync: bool,
    /// Files that RocksDB keeps open.
    pub rocksdb_max_open_files: i32,
    /// Log filter.
    pub log_level: String,
}

/// The settings of an instance.
pub struct ConfigView {
    pub listen: Seq<char>,
    pub node_id: Seq<char>,
    pub data_dir: Seq<char>,
    pub public_addr: Seq<char>,
    pub raft_addr: Seq<char>,
    pub gossip_addr: Seq<char>,
    pub seed_nodes: Seq<Seq<char>>,
    pub group_count: u32,
    pub replication_factor: u32,
    pub group_gc_interval_secs: u64,
    pub group_gc_batch: u32,
    pub event_buffer: usize,
    pub peers: Seq<Seq<char>>,
    pub peer_discovery_dns: Option<Seq<char>>,
    pub self_ip: Option<Seq<char>>,
    pub peer_refresh_secs: u64,
    pub request_timeout_ms: u64,
    pub max_concurrent_requests_per_connection: usize,
    pub bootstrap: bool,
    pub join: bool,
    pub raft_snapshot_interval_entries: u64,
    pub raft_snapshot_min_log_entries: u64,
    pub raft_max_inflight: usize,
    pub rocksdb_wal_sync: bool,
    pub rocksdb_max_open_files: i32,
    pub log_level: Seq<char>,
}

impl Config {
    pub open spec fn view(&self) -> ConfigView {
        ConfigView {
            listen: self.listen@,
            node_id: self.node_id@,
            data_dir: self.data_dir@,
            public_addr: self.public_addr@,
            raft_addr: self.raft_addr@,
            gossip_addr: self.gossip_addr@,
            seed_nodes: texts(self.seed_nodes@),
            group_count: self.group_count,
            replication_factor: self.replication_factor,
            group_gc_interval_secs: self.group_gc_interval_secs,
            group_gc_batch: self.group_gc_batch,
            event_buffer: self.event_buffer,
            peers: texts(self.peers@),
            peer_discovery_dns: opt_text(self.peer_discovery_dns),
            self_ip: opt_text(self.self_ip),
            peer_refresh_secs: self.peer_refresh_secs,
            request_timeout_ms: self.request_timeout_ms,
            max_concurrent_requests_per_connection: self.max_concurrent_requests_per_connection,
            bootstrap: self.bootstrap,
            join: self.join,
            raft_snapshot_interval_entries: self.raft_snapshot_interval_entries,
            raft_snapshot_min_log_entries: self.raft_snapshot_min_log_entries,
            raft_max_inflight: self.raft_max_inflight,
            rocksdb_wal_sync: self.rocksdb_wal_sync,
            rocksdb_max_open_files: self.rocksdb_max_open_files,
            log_level: self.log_level@,
        }
    }
}

/// The built-in defaults.
pub open spec fn default_config() -> ConfigView {
    ConfigView {
        listen: "0.0.0.0:50051"@,
        node_id: "pathlockd-0"@,
        data_dir: "/var/lib/pathlockd"@,
        public_addr: "http://localhost:50051"@,
        raft_addr: "http://localhost:50052"@,
        gossip_addr: "0.0.0.0:7946"@,
        seed_nodes: Seq::empty(),
        group_count: 256,
        replication_factor: 3,
        group_gc_interval_secs: 1,
        group_gc_batch: 1024,
        event_buffer: 8192,
        peers: Seq::empty(),
        peer_discovery_dns: None,
        self_ip: None,
        peer_refresh_secs: 10,
        request_timeout_ms: 30_000,
        max_concurrent_requests_per_connection: 256,
        bootstrap: false,
        join: false,
        raft_snapshot_interval_entries: 10_000,
        raft_snapshot_min_log_entries: 5_000,
        raft_max_inflight: 256,
        rocksdb_wal_sync: true,
        rocksdb_max_open_files: 4096,
        log_level: "info"@,
    }
}

impl Default for Config {
    fn default() -> (r: Config)
        ensures
            r@ == default_config(),
    {
        let seed_nodes: Vec<String> = Vec::new();
        let peers: Vec<String> = Vec::new();
        assert(texts(seed_nodes@) =~= Seq::<Seq<char>>::empty());
        assert(texts(peers@) =~= Seq::<Seq<char>>::empty());
        Config {
            listen: "0.0.0.0:50051".to_owned(),
            node_id: "pathlockd-0".to_owned(),
            data_dir: "/var/lib/pathlockd".to_owned(),
            public_addr: "http://localhost:50051".to_owned(),
            raft_addr: "http://localhost:50052".to_owned(),
            gossip_addr: "0.0.0.0:7946".to_owned(),
            seed_nodes,
            group_count: 256,
            replication_factor: 3,
            group_gc_interval_secs: 1,
            group_gc_batch: 1024,
            event_buffer: 8192,
            peers,
            peer_discovery_dns: None,
            self_ip: None,
            peer_refresh_secs: 10,
            request_timeout_ms: 30_000,
            max_concurrent_requests_per_connection: 256,
            bootstrap: false,
            join: false,
            raft_snapshot_interval_entries: 10_000,
            raft_snapshot_min_log_entries: 5_000,
            raft_max_inflight: 256,
            rocksdb_wal_sync: true,
            rocksdb_max_open_files: 4096,
            log_level: "info".to_owned(),
        }
    }
}

// ---------------------------------------------------------------------------
// The file
// ---------------------------------------------------------------------------

/// The settings that a file gives.
#[derive(Debug, Clone, Default)]
pub struct FileConfig {
    pub listen: Option<String>,
    pub node_id: Option<String>,
    pub data_dir: Option<String>,
    pub public_addr: Option<String>,
    pub raft_addr: Option<String>,
    pub gossip_addr: Option<String>,
    pub seed_nodes: Option<Vec<String>>,
    pub group_count: Option<u32>,
    pub replication_factor: Option<u32>,
    pub group_gc_interval_secs: Option<u64>,
    pub group_gc_batch: Option<u32>,
    pub event_buffer: Option<usize>,
    pub peers: Option<Vec<String>>,
    pub peer_discovery_dns: Option<String>,
    pub self_ip: Option<String>,
    pub peer_refresh_secs: Option<u64>,
    pub request_timeout_ms: Option<u64>,
    pub max_concurrent_requests_per_connection: Option<usize>,
    pub bootstrap: Option<bool>,
    pub join: Option<bool>,
    pub raft_snapshot_interval_entries: Option<u64>,
    pub raft_snapshot_min_log_entries: Option<u64>,
    pub raft_max_inflight: Option<usize>,
    pub rocksdb_wal_sync: Option<bool>,
    pub rocksdb_max_open_files: Option<i32>,
    pub log_level: Option<String>,
}

/// The settings that a file gives.
pub struct FileView {
    pub listen: Option<Seq<char>>,
    pub node_id: Option<Seq<char>>,
    pub data_dir: Option<Seq<char>>,
    pub public_addr: Option<Seq<char>>,
    pub raft_addr: Option<Seq<char>>,
    pub gossip_addr: Option<Seq<char>>,
    pub seed_nodes: Option<Seq<Seq<char>>>,
    pub group_count: Option<u32>,
    pub replication_factor: Option<u32>,
    pub group_gc_interval_secs: Option<u64>,
    pub group_gc_batch: Option<u32>,
    pub event_buffer: Option<usize>,
    pub peers: Option<Seq<Seq<char>>>,
    pub peer_discovery_dns: Option<Seq<char>>,
    pub self_ip: Option<Seq<char>>,
    pub peer_refresh_secs: Option<u64>,
    pub request_timeout_ms: Option<u64>,
    pub max_concurrent_requests_per_connection: Option<usize>,
    pub bootstrap: Option<bool>,
    pub join: Option<bool>,
    pub raft_snapshot_interval_entries: Option<u64>,
    pub raft_snapshot_min_log_entries: Option<u64>,
    pub raft_max_inflight: Option<usize>,
    pub rocksdb_wal_sync: Option<bool>,
    pub rocksdb_max_open_files: Option<i32>,
    pub log_level: Option<Seq<char>>,
}

/// The view of an optional list.
pub open spec fn opt_texts(v: Option<Vec<String>>) -> Option<Seq<Seq<char>>> {
    match v {
        Some(v) => Some(texts(v@)),
        None => None,
    }
}

impl FileConfig {
    pub open spec fn view(&self) -> FileView {
        FileView {
            listen: opt_text(self.listen),
            node_id: opt_text(self.node_id),
            data_dir: opt_text(self.data_dir),
            public_addr: opt_text(self.public_addr),
            raft_addr: opt_text(self.raft_addr),
            gossip_addr: opt_text(self.gossip_addr),
            seed_nodes: opt_texts(self.seed_nodes),
            group_count: self.group_count,
            replication_factor: self.replication_factor,
            group_gc_interval_secs: self.group_gc_interval_secs,
            group_gc_batch: self.group_gc_batch,
            event_buffer: self.event_buffer,
            peers: opt_texts(self.peers),
            peer_discovery_dns: opt_text(self.peer_discovery_dns),
            self_ip: opt_text(self.self_ip),
            peer_refresh_secs: self.peer_refresh_secs,
            request_timeout_ms: self.request_timeout_ms,
            max_concurrent_requests_per_connection: self.max_concurrent_requests_per_connection,
            bootstrap: self.bootstrap,
            join: self.join,
            raft_snapshot_interval_entries: self.raft_snapshot_interval_entries,
            raft_snapshot_min_log_entries: self.raft_snapshot_min_log_entries,
            raft_max_inflight: self.raft_max_inflight,
            rocksdb_wal_sync: self.rocksdb_wal_sync,
            rocksdb_max_open_files: self.rocksdb_max_open_files,
            log_level: opt_text(self.log_level),
        }
    }
}

/// What is given, or else what was there.
pub open spec fn given<T>(given: Option<T>, before: T) -> T {
    match given {
        Some(v) => v,
        None => before,
    }
}

/// What is given, or else what was there, for a setting that may be missing.
pub open spec fn given_opt<T>(given: Option<T>, before: Option<T>) -> Option<T> {
    match given {
        Some(v) => Some(v),
        None => before,
    }
}

/// The settings overlaid by those of a file.
pub open spec fn file_applied(cfg: ConfigView, file: FileView) -> ConfigView {
    ConfigView {
        listen: given(file.listen, cfg.listen),
        node_id: given(file.node_id, cfg.node_id),
        data_dir: given(file.data_dir, cfg.data_dir),
        public_addr: given(file.public_addr, cfg.public_addr),
        raft_addr: given(file.raft_addr, cfg.raft_addr),
        gossip_addr: given(file.gossip_addr, cfg.gossip_addr),
        seed_nodes: given(file.seed_nodes, cfg.seed_nodes),
        group_count: given(file.group_count, cfg.group_count),
        replication_factor: given(file.replication_factor, cfg.replication_factor),
        group_gc_interval_secs: given(file.group_gc_interval_secs, cfg.group_gc_interval_secs),
        group_gc_batch: given(file.group_gc_batch, cfg.group_gc_batch),
        event_buffer: given(file.event_buffer, cfg.event_buffer),
        peers: given(file.peers, cfg.peers),
        peer_discovery_dns: given_opt(file.peer_discovery_dns, cfg.peer_discovery_dns),
        self_ip: given_opt(file.self_ip, cfg.self_ip),
        peer_refresh_secs: given(file.peer_refresh_secs, cfg.peer_refresh_secs),
        request_timeout_ms: given(file.request_timeout_ms, cfg.request_timeout_ms),
        max_concurrent_requests_per_connection: given(file.max_concurrent_requests_per_connection, cfg.max_concurrent_requests_per_connection),
        bootstrap: given(file.bootstrap, cfg.bootstrap),
        join: given(file.join, cfg.join),
        raft_snapshot_interval_entries: given(file.raft_snapshot_interval_entries, cfg.raft_snapshot_interval_entries),
        raft_snapshot_min_log_entries: given(file.raft_snapshot_min_log_entries, cfg.raft_snapshot_min_log_entries),
        raft_max_inflight: given(file.raft_max_inflight, cfg.raft_max_inflight),
        rocksdb_wal_sync: given(file.rocksdb_wal_sync, cfg.rocksdb_wal_sync),
        rocksdb_max_open_files: given(file.rocksdb_max_open_files, cfg.rocksdb_max_open_files),
        log_level: given(file.log_level, cfg.log_level),
    }
}

fn set<T>(slot: &mut T, v: Option<T>)
    ensures
        *final(slot) == given(v, *old(slot)),
{
    if let Some(v) = v {
        *slot = v;
    }
}

fn set_text(slot: &mut String, v: Option<String>)
    ensures
        final(slot)@ == given(opt_text(v), old(slot)@),
{
    if let Some(v) = v {
        *slot = v;
    }
}

fn set_list(slot: &mut Vec<String>, v: Option<Vec<String>>)
    ensures
        texts(final(slot)@) == given(opt_texts(v), texts(old(slot)@)),
{
    if let Some(v) = v {
        *slot = v;
    }
}

fn set_opt(slot: &mut Option<String>, v: Option<String>)
    ensures
        opt_text(*final(slot)) == given_opt(opt_text(v), opt_text(*old(slot))),
{
    if let Some(v) = v {
        *slot = Some(v);
    }
}

/// Overlays the settings by those of a file.
pub fn apply_file(cfg: &mut Config, file: FileConfig)
    ensures
        final(cfg)@ == file_applied(old(cfg)@, file@),
{
    set_text(&mut cfg.listen, file.listen);
    set_text(&mut cfg.node_id, file.node_id);
    set_text(&mut cfg.data_dir, file.data_dir);
    set_text(&mut cfg.public_addr, file.public_addr);
    set_text(&mut cfg.raft_addr, file.raft_addr);
    set_text(&mut cfg.gossip_addr, file.gossip_addr);
    set_list(&mut cfg.seed_nodes, file.seed_nodes);
    set(&mut cfg.group_count, file.group_count);
    set(&mut cfg.replication_factor, file.replication_factor);
    set(&mut cfg.group_gc_interval_secs, file.group_gc_interval_secs);
    set(&mut cfg.group_gc_batch, file.group_gc_batch);
    set(&mut cfg.event_buffer, file.event_buffer);
    set_list(&mut cfg.peers, file.peers);
    set_opt(&mut cfg.peer_discovery_dns, file.peer_discovery_dns);
    set_opt(&mut cfg.self_ip, file.self_ip);
    set(&mut cfg.peer_refresh_secs, file.peer_refresh_secs);
    set(&mut cfg.request_timeout_ms, file.request_timeout_ms);
    set(&mut cfg.max_concurrent_requests_per_connection, file.max_concurrent_requests_per_connection);
    set(&mut cfg.bootstrap, file.bootstrap);
    set(&mut cfg.join, file.join);
    set(&mut cfg.raft_snapshot_interval_entries, file.raft_snapshot_interval_entries);
    set(&mut cfg.raft_snapshot_min_log_entries, file.raft_snapshot_min_log_entries);
    set(&mut cfg.raft_max_inflight, file.raft_max_inflight);
    set(&mut cfg.rocksdb_wal_sync, file.rocksdb_wal_sync);
    set(&mut cfg.rocksdb_max_open_files, file.rocksdb_max_open_files);
    set_text(&mut cfg.log_level, file.log_level);
}

// ---------------------------------------------------------------------------
// The environment
// ---------------------------------------------------------------------------

/// A variable of the environment.
#[derive(Debug, Clone)]
pub struct Var {
    pub key: String,
    pub value: String,
}

/// The value of the first variable with a name.
pub open spec fn var(env: Seq<Var>, key: Seq<char>) -> Option<Seq<char>>
    decreases env.len(),
{
    if env.len() == 0 {
        None
    } else if env[0].key@ == key {
        Some(env[0].value@)
    } else {
        var(env.drop_first(), key)
    }
}

/// The value of a variable; an empty one counts as missing.
pub open spec fn env_text(env: Seq<Var>, key: Seq<char>) -> Option<Seq<char>> {
    match var(env, key) {
        Some(v) => if v.len() == 0 {
            None
        } else {
            Some(v)
        },
        None => None,
    }
}

/// The value of a variable; an empty one counts as missing.
pub fn env_string(env: &Vec<Var>, key: &str) -> (r: Option<String>)
    ensures
        opt_text(r) == env_text(env@, key@),
{
    let mut i: usize = 0;
    assert(env@.skip(0) =~= env@);
    while i < env.len()
        invariant
            i <= env@.len(),
            var(env@, key@) == var(env@.skip(i as int), key@),
        decreases env@.len() - i,
    {
        assert(env@.skip(i as int)[0] == env@[i as int]);
        assert(env@.skip(i as int).drop_first() =~= env@.skip(i + 1));
        if str_eq(env[i].key.as_str(), key) {
            if env[i].value.as_str().is_empty() {
                return None;
            }
            return Some(env[i].value.clone());
        }
        i = i + 1;
    }
    None
}

/// The list in a variable: separated by commas, trimmed, without empty items.
pub open spec fn env_items(env: Seq<Var>, key: Seq<char>) -> Option<Seq<Seq<char>>> {
    match env_text(env, key) {
        Some(v) => Some(list_items(v, ',')),
        None => None,
    }
}

/// The list in a variable: separated by commas, trimmed, without empty items.
pub fn env_list(env: &Vec<Var>, key: &str) -> (r: Option<Vec<String>>)
    ensures
        opt_texts(r) == env_items(env@, key@),
{
    match env_string(env, key) {
        Some(v) => Some(split_list(v.as_str(), ',')),
        None => None,
    }
}

/// A configuration that is refused.
#[derive(Debug, Clone)]
pub struct ConfigError {
    pub message: String,
}

impl ConfigError {
    pub open spec fn view(&self) -> Seq<char> {
        self.message@
    }

    /// The message of the error.
    pub fn to_string(&self) -> (r: String)
        ensures
            r@ == self@,
    {
        self.message.clone()
    }
}

/// Why a text is no number, in words.
pub open spec fn int_error_text(e: IntError) -> Seq<char> {
    match e {
        IntError::Empty => "cannot parse integer from empty string"@,
        IntError::InvalidDigit => "invalid digit found in string"@,
        IntError::PosOverflow => "number too large to fit in target type"@,
        IntError::NegOverflow => "number too small to fit in target type"@,
    }
}

/// The message for a variable that holds no number.
pub open spec fn number_message(key: Seq<char>, value: Seq<char>, e: IntError) -> Seq<char> {
    "invalid "@ + key + "="@ + value + ": "@ + int_error_text(e)
}

/// The number in a variable, of at most `max`, or the message of the refusal.
pub open spec fn env_number(env: Seq<Var>, key: Seq<char>, max: nat) -> Result<
    Option<nat>,
    Seq<char>,
> {
    match env_text(env, key) {
        None => Ok(None),
        Some(v) => match parse_unsigned_spec(v, max) {
            Ok(n) => Ok(Some(n)),
            Err(e) => Err(number_message(key, v, e)),
        },
    }
}

fn int_words(e: IntError) -> (r: &'static str)
    ensures
        r@ == int_error_text(e),
{
    match e {
        IntError::Empty => "cannot parse integer from empty string",
        IntError::InvalidDigit => "invalid digit found in string",
        IntError::PosOverflow => "number too large to fit in target type",
        IntError::NegOverflow => "number too small to fit in target type",
    }
}

fn refuse_value(key: &str, value: &str, why: &str) -> (r: ConfigError)
    ensures
        r@ == "invalid "@ + key@ + "="@ + value@ + ": "@ + why@,
{
    let mut message = concat3("invalid ", key, "=");
    message.append(value);
    message.append(": ");
    message.append(why);
    ConfigError { message }
}

/// The number in a variable, of at most `max`.
pub fn env_parse(env: &Vec<Var>, key: &str, max: u64) -> (r: Result<Option<u64>, ConfigError>)
    ensures
        match (r, env_number(env@, key@, max as nat)) {
            (Ok(None), Ok(None)) => true,
            (Ok(Some(a)), Ok(Some(b))) => a == b && b <= max,
            (Err(e), Err(m)) => e@ == m,
            _ => false,
        },
{
    match env_string(env, key) {
        None => Ok(None),
        Some(v) => match parse_unsigned(v.as_str(), max) {
            Ok(n) => Ok(Some(n)),
            Err(e) => {
                Err(refuse_value(key, v.as_str(), int_words(e)))
            },
        },
    }
}

/// The `i32` in a variable, or the message of the refusal.
pub open spec fn env_signed(env: Seq<Var>, key: Seq<char>) -> Result<Option<i32>, Seq<char>> {
    match env_text(env, key) {
        None => Ok(None),
        Some(v) => match parse_i32_spec(v) {
            Ok(n) => Ok(Some(n)),
            Err(e) => Err(number_message(key, v, e)),
        },
    }
}

/// The message for a variable that holds no truth value.
pub open spec fn flag_message(key: Seq<char>, value: Seq<char>) -> Seq<char> {
    "invalid "@ + key + "="@ + value + ": "@ + "provided string was not `true` or `false`"@
}

/// The truth value in a variable, or the message of the refusal.
pub open spec fn env_flag(env: Seq<Var>, key: Seq<char>) -> Result<Option<bool>, Seq<char>> {
    match env_text(env, key) {
        None => Ok(None),
        Some(v) => if v == "true"@ {
            Ok(Some(true))
        } else if v == "false"@ {
            Ok(Some(false))
        } else {
            Err(flag_message(key, v))
        },
    }
}

/// The largest value of a type of number.
pub open spec fn u32_max() -> nat {
    u32::MAX as nat
}

pub open spec fn u64_max() -> nat {
    u64::MAX as nat
}

pub open spec fn usize_max() -> nat {
    usize::MAX as nat
}

/// The number in a variable, or else what was there; also where the variable holds
/// no number.
pub open spec fn env_or(env: Seq<Var>, key: Seq<char>, max: nat, before: nat) -> nat {
    match env_number(env, key, max) {
        Ok(Some(n)) => n,
        _ => before,
    }
}

/// The settings of the node overlaid by the first `n` of their variables, in the order
/// in which they are looked at.
pub open spec fn env_node(cfg: ConfigView, env: Seq<Var>, n: int) -> ConfigView {
    ConfigView {
        listen: if n > 0 {
            given(env_text(env, "PATHLOCKD_LISTEN"@), cfg.listen)
        } else {
            cfg.listen
        },
        node_id: if n > 1 {
            given(env_text(env, "PATHLOCKD_NODE_ID"@), cfg.node_id)
        } else {
            cfg.node_id
        },
        data_dir: if n > 2 {
            given(env_text(env, "PATHLOCKD_DATA_DIR"@), cfg.data_dir)
        } else {
            cfg.data_dir
        },
        public_addr: if n > 3 {
            given(env_text(env, "PATHLOCKD_PUBLIC_ADDR"@), cfg.public_addr)
        } else {
            cfg.public_addr
        },
        raft_addr: if n > 4 {
            given(env_text(env, "PATHLOCKD_RAFT_ADDR"@), cfg.raft_addr)
        } else {
            cfg.raft_addr
        },
        gossip_addr: if n > 5 {
            given(env_text(env, "PATHLOCKD_GOSSIP_ADDR"@), cfg.gossip_addr)
        } else {
            cfg.gossip_addr
        },
        seed_nodes: if n > 6 {
            given(env_items(env, "PATHLOCKD_SEED_NODES"@), cfg.seed_nodes)
        } else {
            cfg.seed_nodes
        },
        group_count: if n > 7 {
            env_or(env, "PATHLOCKD_GROUP_COUNT"@, u32_max(), cfg.group_count as nat) as u32
        } else {
            cfg.group_count
        },
        replication_factor: if n > 8 {
            env_or(env, "PATHLOCKD_REPLICATION_FACTOR"@, u32_max(), cfg.replication_factor as nat) as u32
        } else {
            cfg.replication_factor
        },
        group_gc_interval_secs: if n > 9 {
            env_or(env, "PATHLOCKD_GROUP_GC_INTERVAL_SECS"@, u64_max(), cfg.group_gc_interval_secs as nat) as u64
        } else {
            cfg.group_gc_interval_secs
        },
        group_gc_batch: if n > 10 {
            env_or(env, "PATHLOCKD_GROUP_GC_BATCH"@, u32_max(), cfg.group_gc_batch as nat) as u32
        } else {
            cfg.group_gc_batch
        },
        event_buffer: if n > 11 {
            env_or(env, "PATHLOCKD_EVENT_BUFFER"@, usize_max(), cfg.event_buffer as nat) as usize
        } else {
            cfg.event_buffer
        },
        peers: if n > 12 {
            given(env_items(env, "PATHLOCKD_PEERS"@), cfg.peers)
        } else {
            cfg.peers
        },
        peer_discovery_dns: if n > 13 {
            given_opt(env_text(env, "PATHLOCKD_PEER_DISCOVERY_DNS"@), cfg.peer_discovery_dns)
        } else {
            cfg.peer_discovery_dns
        },
        self_ip: if n > 14 {
            given_opt(env_text(env, "PATHLOCKD_SELF_IP"@), cfg.self_ip)
        } else {
            cfg.self_ip
        },
        peer_refresh_secs: if n > 15 {
            env_or(env, "PATHLOCKD_PEER_REFRESH_SECS"@, u64_max(), cfg.peer_refresh_secs as nat) as u64
        } else {
            cfg.peer_refresh_secs
        },
        request_timeout_ms: if n > 16 {
            env_or(env, "PATHLOCKD_REQUEST_TIMEOUT_MS"@, u64_max(), cfg.request_timeout_ms as nat) as u64
        } else {
            cfg.request_timeout_ms
        },
        max_concurrent_requests_per_connection: if n > 17 {
            env_or(env, "PATHLOCKD_MAX_CONCURRENT_REQUESTS_PER_CONNECTION"@, usize_max(), cfg.max_concurrent_requests_per_connection as nat) as usize
        } else {
            cfg.max_concurrent_requests_per_connection
        },
        log_level: if n > 18 {
            given(env_text(env, "PATHLOCKD_LOG_LEVEL"@), cfg.log_level)
        } else {
            cfg.log_level
        },
        ..cfg
    }
}

/// The truth value in a variable, or else what was there; also where the variable
/// holds none.
pub open spec fn flag_or(env: Seq<Var>, key: Seq<char>, before: bool) -> bool {
    match env_flag(env, key) {
        Ok(Some(b)) => b,
        _ => before,
    }
}

/// The `i32` in a variable, or else what was there; also where the variable holds
/// none.
pub open spec fn signed_or(env: Seq<Var>, key: Seq<char>, before: i32) -> i32 {
    match env_signed(env, key) {
        Ok(Some(n)) => n,
        _ => before,
    }
}

/// The settings of replication and storage overlaid by the first `n` of their
/// variables, in the order in which they are looked at.
pub open spec fn env_storage(cfg: ConfigView, env: Seq<Var>, n: int) -> ConfigView {
    ConfigView {
        raft_snapshot_interval_entries: if n > 0 {
            env_or(env, "PATHLOCKD_RAFT_SNAPSHOT_INTERVAL_ENTRIES"@, u64_max(), cfg.raft_snapshot_interval_entries as nat) as u64
        } else {
            cfg.raft_snapshot_interval_entries
        },
        raft_snapshot_min_log_entries: if n > 1 {
            env_or(env, "PATHLOCKD_RAFT_SNAPSHOT_MIN_LOG_ENTRIES"@, u64_max(), cfg.raft_snapshot_min_log_entries as nat) as u64
        } else {
            cfg.raft_snapshot_min_log_entries
        },
        raft_max_inflight: if n > 2 {
            env_or(env, "PATHLOCKD_RAFT_MAX_INFLIGHT"@, usize_max(), cfg.raft_max_inflight as nat) as usize
        } else {
            cfg.raft_max_inflight
        },
        rocksdb_wal_sync: if n > 3 {
            flag_or(env, "PATHLOCKD_ROCKSDB_WAL_SYNC"@, cfg.rocksdb_wal_sync)
        } else {
            cfg.rocksdb_wal_sync
        },
        rocksdb_max_open_files: if n > 4 {
            signed_or(env, "PATHLOCKD_ROCKSDB_MAX_OPEN_FILES"@, cfg.rocksdb_max_open_files)
        } else {
            cfg.rocksdb_max_open_files
        },
        bootstrap: if n > 5 {
            flag_or(env, "PATHLOCKD_BOOTSTRAP"@, cfg.bootstrap)
        } else {
            cfg.bootstrap
        },
        join: if n > 6 {
            flag_or(env, "PATHLOCKD_JOIN"@, cfg.join)
        } else {
            cfg.join
        },
        ..cfg
    }
}

/// The settings overlaid by the first `n` variables, in the order in which they
/// are looked at: those of the node, then those of replication and storage.
pub open spec fn env_applied(cfg: ConfigView, env: Seq<Var>, n: int) -> ConfigView {
    env_storage(env_node(cfg, env, n), env, n - 19)
}

/// How many variables are looked at.
pub open spec fn env_count() -> int {
    26
}

/// The first variable of replication and storage whose value is refused, by its place
/// among them, and the message.
pub open spec fn storage_fault(env: Seq<Var>) -> Option<(int, Seq<char>)> {
    if let Err(m) = env_number(env, "PATHLOCKD_RAFT_SNAPSHOT_INTERVAL_ENTRIES"@, u64_max()) {
        Some((0, m))
    } else if let Err(m) = env_number(env, "PATHLOCKD_RAFT_SNAPSHOT_MIN_LOG_ENTRIES"@, u64_max()) {
        Some((1, m))
    } else if let Err(m) = env_number(env, "PATHLOCKD_RAFT_MAX_INFLIGHT"@, usize_max()) {
        Some((2, m))
    } else if let Err(m) = env_flag(env, "PATHLOCKD_ROCKSDB_WAL_SYNC"@) {
        Some((3, m))
    } else if let Err(m) = env_signed(env, "PATHLOCKD_ROCKSDB_MAX_OPEN_FILES"@) {
        Some((4, m))
    } else if let Err(m) = env_flag(env, "PATHLOCKD_BOOTSTRAP"@) {
        Some((5, m))
    } else if let Err(m) = env_flag(env, "PATHLOCKD_JOIN"@) {
        Some((6, m))
    } else {
        None
    }
}

/// The first variable of the node whose value is refused, by its place among them, and
/// the message.
pub open spec fn node_fault(env: Seq<Var>) -> Option<(int, Seq<char>)> {
    if let Err(m) = env_number(env, "PATHLOCKD_GROUP_COUNT"@, u32_max()) {
        Some((7, m))
    } else if let Err(m) = env_number(env, "PATHLOCKD_REPLICATION_FACTOR"@, u32_max()) {
        Some((8, m))
    } else if let Err(m) = env_number(env, "PATHLOCKD_GROUP_GC_INTERVAL_SECS"@, u64_max()) {
        Some((9, m))
    } else if let Err(m) = env_number(env, "PATHLOCKD_GROUP_GC_BATCH"@, u32_max()) {
        Some((10, m))
    } else if let Err(m) = env_number(env, "PATHLOCKD_EVENT_BUFFER"@, usize_max()) {
        Some((11, m))
    } else if let Err(m) = env_number(env, "PATHLOCKD_PEER_REFRESH_SECS"@, u64_max()) {
        Some((15, m))
    } else if let Err(m) = env_number(env, "PATHLOCKD_REQUEST_TIMEOUT_MS"@, u64_max()) {
        Some((16, m))
    } else if let Err(m) = env_number(env, "PATHLOCKD_MAX_CONCURRENT_REQUESTS_PER_CONNECTION"@, usize_max()) {
        Some((17, m))
    } else {
        None
    }
}

/// The first variable whose value is refused: its place in the order in which the
/// variables are looked at, and the message.
pub open spec fn env_fault(env: Seq<Var>) -> Option<(int, Seq<char>)> {
    match node_fault(env) {
        Some(fault) => Some(fault),
        None => match storage_fault(env) {
            Some((i, m)) => Some((19 + i, m)),
            None => None,
        },
    }
}

fn env_set_u32(slot: &mut u32, env: &Vec<Var>, key: &str) -> (r: Result<(), ConfigError>)
    ensures
        *final(slot) == env_or(env@, key@, u32_max(), *old(slot) as nat) as u32,
        match (r, env_number(env@, key@, u32_max())) {
            (Ok(_), Ok(_)) => true,
            (Err(e), Err(m)) => e@ == m,
            _ => false,
        },
{
    match env_parse(env, key, u32::MAX as u64) {
        Err(e) => Err(e),
        Ok(Some(v)) => {
            *slot = v as u32;
            Ok(())
        },
        Ok(None) => Ok(()),
    }
}

fn env_set_u64(slot: &mut u64, env: &Vec<Var>, key: &str) -> (r: Result<(), ConfigError>)
    ensures
        *final(slot) == env_or(env@, key@, u64_max(), *old(slot) as nat) as u64,
        match (r, env_number(env@, key@, u64_max())) {
            (Ok(_), Ok(_)) => true,
            (Err(e), Err(m)) => e@ == m,
            _ => false,
        },
{
    match env_parse(env, key, u64::MAX) {
        Err(e) => Err(e),
        Ok(Some(v)) => {
            *slot = v;
            Ok(())
        },
        Ok(None) => Ok(()),
    }
}

fn env_set_usize(slot: &mut usize, env: &Vec<Var>, key: &str) -> (r: Result<(), ConfigError>)
    ensures
        *final(slot) == env_or(env@, key@, usize_max(), *old(slot) as nat) as usize,
        match (r, env_number(env@, key@, usize_max())) {
            (Ok(_), Ok(_)) => true,
            (Err(e), Err(m)) => e@ == m,
            _ => false,
        },
{
    match env_parse(env, key, usize::MAX as u64) {
        Err(e) => Err(e),
        Ok(Some(v)) => {
            *slot = v as usize;
            Ok(())
        },
        Ok(None) => Ok(()),
    }
}

fn env_set_bool(slot: &mut bool, env: &Vec<Var>, key: &str) -> (r: Result<(), ConfigError>)
    ensures
        *final(slot) == flag_or(env@, key@, *old(slot)),
        match (r, env_flag(env@, key@)) {
            (Ok(_), Ok(_)) => true,
            (Err(e), Err(m)) => e@ == m,
            _ => false,
        },
{
    match env_string(env, key) {
        None => Ok(()),
        Some(v) => {
            if str_eq(v.as_str(), "true") {
                *slot = true;
                Ok(())
            } else if str_eq(v.as_str(), "false") {
                *slot = false;
                Ok(())
            } else {
                Err(refuse_value(key, v.as_str(), "provided string was not `true` or `false`"))
            }
        },
    }
}

fn env_set_i32(slot: &mut i32, env: &Vec<Var>, key: &str) -> (r: Result<(), ConfigError>)
    ensures
        *final(slot) == signed_or(env@, key@, *old(slot)),
        match (r, env_signed(env@, key@)) {
            (Ok(_), Ok(_)) => true,
            (Err(e), Err(m)) => e@ == m,
            _ => false,
        },
{
    match env_string(env, key) {
        None => Ok(()),
        Some(v) => match parse_i32(v.as_str()) {
            Ok(n) => {
                *slot = n;
                Ok(())
            },
            Err(e) => Err(refuse_value(key, v.as_str(), int_words(e))),
        },
    }
}

/// Overlays the settings of replication and storage by their variables. At the first
/// whose value is refused, it stops.
fn apply_env_storage(cfg: &mut Config, env: &Vec<Var>) -> (r: Result<(), ConfigError>)
    ensures
        match (r, storage_fault(env@)) {
            (Ok(_), None) => final(cfg)@ == env_storage(old(cfg)@, env@, 7),
            (Err(e), Some((n, m))) => e@ == m && final(cfg)@ == env_storage(old(cfg)@, env@, n),
            _ => false,
        },
{
    match env_set_u64(&mut cfg.raft_snapshot_interval_entries, env, "PATHLOCKD_RAFT_SNAPSHOT_INTERVAL_ENTRIES") {
        Err(e) => {
            return Err(e);
        },
        Ok(_) => {},
    }
    match env_set_u64(&mut cfg.raft_snapshot_min_log_entries, env, "PATHLOCKD_RAFT_SNAPSHOT_MIN_LOG_ENTRIES") {
        Err(e) => {
            return Err(e);
        },
        Ok(_) => {},
    }
    match env_set_usize(&mut cfg.raft_max_inflight, env, "PATHLOCKD_RAFT_MAX_INFLIGHT") {
        Err(e) => {
            return Err(e);
        },
        Ok(_) => {},
    }
    match env_set_bool(&mut cfg.rocksdb_wal_sync, env, "PATHLOCKD_ROCKSDB_WAL_SYNC") {
        Err(e) => {
            return Err(e);
        },
        Ok(_) => {},
    }
    match env_set_i32(&mut cfg.rocksdb_max_open_files, env, "PATHLOCKD_ROCKSDB_MAX_OPEN_FILES") {
        Err(e) => {
            return Err(e);
        },
        Ok(_) => {},
    }
    match env_set_bool(&mut cfg.bootstrap, env, "PATHLOCKD_BOOTSTRAP") {
        Err(e) => {
            return Err(e);
        },
        Ok(_) => {},
    }
    match env_set_bool(&mut cfg.join, env, "PATHLOCKD_JOIN") {
        Err(e) => {
            return Err(e);
        },
        Ok(_) => {},
    }
    Ok(())
}

/// Overlays the settings of the node by their variables. At the first whose value is
/// refused, it stops.
fn apply_env_node(cfg: &mut Config, env: &Vec<Var>) -> (r: Result<(), ConfigError>)
    ensures
        match (r, node_fault(env@)) {
            (Ok(_), None) => final(cfg)@ == env_node(old(cfg)@, env@, 19),
            (Err(e), Some((n, m))) => e@ == m && final(cfg)@ == env_node(old(cfg)@, env@, n),
            _ => false,
        },
{
    set_text(&mut cfg.listen, env_string(env, "PATHLOCKD_LISTEN"));
    set_text(&mut cfg.node_id, env_string(env, "PATHLOCKD_NODE_ID"));
    set_text(&mut cfg.data_dir, env_string(env, "PATHLOCKD_DATA_DIR"));
    set_text(&mut cfg.public_addr, env_string(env, "PATHLOCKD_PUBLIC_ADDR"));
    set_text(&mut cfg.raft_addr, env_string(env, "PATHLOCKD_RAFT_ADDR"));
    set_text(&mut cfg.gossip_addr, env_string(env, "PATHLOCKD_GOSSIP_ADDR"));
    set_list(&mut cfg.seed_nodes, env_list(env, "PATHLOCKD_SEED_NODES"));
    match env_set_u32(&mut cfg.group_count, env, "PATHLOCKD_GROUP_COUNT") {
        Err(e) => {
            return Err(e);
        },
        Ok(_) => {},
    }
    match env_set_u32(&mut cfg.replication_factor, env, "PATHLOCKD_REPLICATION_FACTOR") {
        Err(e) => {
            return Err(e);
        },
        Ok(_) => {},
    }
    match env_set_u64(&mut cfg.group_gc_interval_secs, env, "PATHLOCKD_GROUP_GC_INTERVAL_SECS") {
        Err(e) => {
            return Err(e);
        },
        Ok(_) => {},
    }
    match env_set_u32(&mut cfg.group_gc_batch, env, "PATHLOCKD_GROUP_GC_BATCH") {
        Err(e) => {
            return Err(e);
        },
        Ok(_) => {},
    }
    match env_set_usize(&mut cfg.event_buffer, env, "PATHLOCKD_EVENT_BUFFER") {
        Err(e) => {
            return Err(e);
        },
        Ok(_) => {},
    }
    set_list(&mut cfg.peers, env_list(env, "PATHLOCKD_PEERS"));
    set_opt(&mut cfg.peer_discovery_dns, env_string(env, "PATHLOCKD_PEER_DISCOVERY_DNS"));
    set_opt(&mut cfg.self_ip, env_string(env, "PATHLOCKD_SELF_IP"));
    match env_set_u64(&mut cfg.peer_refresh_secs, env, "PATHLOCKD_PEER_REFRESH_SECS") {
        Err(e) => {
            return Err(e);
        },
        Ok(_) => {},
    }
    match env_set_u64(&mut cfg.request_timeout_ms, env, "PATHLOCKD_REQUEST_TIMEOUT_MS") {
        Err(e) => {
            return Err(e);
        },
        Ok(_) => {},
    }
    match env_set_usize(&mut cfg.max_concurrent_requests_per_connection, env, "PATHLOCKD_MAX_CONCURRENT_REQUESTS_PER_CONNECTION") {
        Err(e) => {
            return Err(e);
        },
        Ok(_) => {},
    }
    set_text(&mut cfg.log_level, env_string(env, "PATHLOCKD_LOG_LEVEL"));
    Ok(())
}

/// Overlays the settings by the variables of the environment. At the first variable
/// whose value is refused, it stops.
pub fn apply_env(cfg: &mut Config, env: &Vec<Var>) -> (r: Result<(), ConfigError>)
    ensures
        match (r, env_fault(env@)) {
            (Ok(_), None) => final(cfg)@ == env_applied(old(cfg)@, env@, env_count()),
            (Err(e), Some((n, m))) => e@ == m && final(cfg)@ == env_applied(old(cfg)@, env@, n),
            _ => false,
        },
{
    match apply_env_node(cfg, env) {
        Err(e) => {
            proof {
                lemma_node_comes_first(old(cfg)@, env@);
            }
            Err(e)
        },
        Ok(_) => {
            proof {
                lemma_node_comes_first(old(cfg)@, env@);
            }
            apply_env_storage(cfg, env)
        },
    }
}

proof fn lemma_node_comes_first(cfg: ConfigView, env: Seq<Var>)
    ensures
        node_fault(env) matches Some((n, _)) ==> env_applied(cfg, env, n) == env_node(cfg, env, n),
        storage_fault(env) matches Some((i, _)) ==> 0 <= i && env_applied(cfg, env, 19 + i)
            == env_storage(env_node(cfg, env, 19), env, i),
        env_applied(cfg, env, 26) == env_storage(env_node(cfg, env, 19), env, 7),
{
}

// ---------------------------------------------------------------------------
// Validation
// ---------------------------------------------------------------------------

/// The position of the last `c`, or `-1`.
pub open spec fn find_last(s: Seq<char>, c: char) -> int
    decreases s.len(),
{
    if s.len() == 0 {
        -1
    } else if s.last() == c {
        s.len() - 1
    } else {
        find_last(s.drop_last(), c)
    }
}

/// Whether a text is `host:port`, cut at the last colon, with a host and a port
/// from 1 to 65535.
pub open spec fn host_port(s: Seq<char>) -> bool {
    let i = find_last(s, ':');
    i > 0 && (parse_unsigned_spec(s.skip(i + 1), 65535) matches Ok(p) && p > 0)
}

/// Whether a text is `host:port`.
pub fn is_host_port(s: &str) -> (r: bool)
    ensures
        r == host_port(s@),
{
    let chars = to_chars(s);
    let mut i: usize = chars.len();
    assert(s@.take(i as int) =~= s@);
    while i > 0 && chars[i - 1] != ':'
        invariant
            chars@ == s@,
            i <= chars@.len(),
            find_last(s@, ':') == find_last(s@.take(i as int), ':'),
        decreases i,
    {
        assert(s@.take(i as int).drop_last() =~= s@.take(i - 1));
        i = i - 1;
    }
    if i <= 1 {
        return false;
    }
    let port = from_chars(chars.as_slice(), i, chars.len());
    assert(port@ =~= s@.skip(i as int));
    match parse_unsigned(port.as_str(), 65535) {
        Ok(p) => p > 0,
        Err(_) => false,
    }
}

/// The message for the first rule that the settings break.
pub open spec fn config_fault(cfg: ConfigView) -> Option<Seq<char>> {
    if cfg.request_timeout_ms == 0 {
        Some("request_timeout_ms must be > 0"@)
    } else if cfg.max_concurrent_requests_per_connection == 0 {
        Some("max_concurrent_requests_per_connection must be > 0"@)
    } else if cfg.event_buffer == 0 || cfg.event_buffer > MAX_EVENT_BUFFER {
        Some("event_buffer must be > 0 and <= 1000000"@)
    } else if cfg.replication_factor % 2 == 0 {
        Some("replication_factor must be odd"@)
    } else if cfg.group_count == 0 {
        Some("group_count must be > 0"@)
    } else if cfg.node_id.len() == 0 {
        Some("node_id must not be empty"@)
    } else if cfg.join && cfg.seed_nodes.len() == 0 {
        Some("seed_nodes must not be empty for join mode"@)
    } else if cfg.bootstrap && cfg.join {
        Some("bootstrap and join are mutually exclusive"@)
    } else {
        match cfg.peer_discovery_dns {
            Some(dns) => if !host_port(dns) {
                Some("peer_discovery_dns must be \"host:port\": "@ + dns)
            } else if cfg.peer_refresh_secs == 0 {
                Some("peer_refresh_secs must be > 0 when peer_discovery_dns is set"@)
            } else {
                None
            },
            None => None,
        }
    }
}

/// The settings that come of a file and the environment, or the message of the
/// refusal.
pub open spec fn loaded(file: Option<FileView>, env: Seq<Var>) -> Result<ConfigView, Seq<char>> {
    let base = match file {
        Some(f) => file_applied(default_config(), f),
        None => default_config(),
    };
    match env_fault(env) {
        Some((_, m)) => Err(m),
        None => {
            let cfg = env_applied(base, env, env_count());
            match config_fault(cfg) {
                Some(m) => Err(m),
                None => Ok(cfg),
            }
        },
    }
}

/// The view of an optional file.
pub open spec fn opt_file(file: Option<FileConfig>) -> Option<FileView> {
    match file {
        Some(f) => Some(f@),
        None => None,
    }
}

/// What the command line gives: the contents of the file that it names, and whether
/// to probe a running instance in place of starting one.
#[derive(Debug, Clone)]
pub struct Cli {
    pub config: Option<FileConfig>,
    pub health_check: bool,
}

fn refuse(message: &str) -> (r: Result<(), ConfigError>)
    ensures
        r matches Err(e) && e@ == message@,
{
    Err(ConfigError { message: message.to_owned() })
}

impl Config {
    /// Loads the settings, and says whether to probe a running instance.
    pub fn load(cli: Cli, env: &Vec<Var>) -> (r: Result<(Config, bool), ConfigError>)
        ensures
            match (r, loaded(opt_file(cli.config), env@)) {
                (Ok((cfg, probe)), Ok(c)) => cfg@ == c && probe == cli.health_check,
                (Err(e), Err(m)) => e@ == m,
                _ => false,
            },
    {
        let probe = cli.health_check;
        match Config::load_from(cli.config, env) {
            Ok(cfg) => Ok((cfg, probe)),
            Err(e) => Err(e),
        }
    }

    /// Loads the settings: defaults, overlaid by the file, overlaid by the
    /// environment; refused if they break a rule.
    pub fn load_from(file: Option<FileConfig>, env: &Vec<Var>) -> (r: Result<Config, ConfigError>)
        ensures
            match (r, loaded(opt_file(file), env@)) {
                (Ok(cfg), Ok(c)) => cfg@ == c,
                (Err(e), Err(m)) => e@ == m,
                _ => false,
            },
    {
        let mut cfg = Config::default();
        if let Some(f) = file {
            apply_file(&mut cfg, f);
        }
        match apply_env(&mut cfg, env) {
            Err(e) => {
                return Err(e);
            },
            Ok(_) => {},
        }
        match cfg.validate() {
            Err(e) => Err(e),
            Ok(_) => Ok(cfg),
        }
    }

    /// Checks the settings.
    pub fn validate(&self) -> (r: Result<(), ConfigError>)
        ensures
            match (r, config_fault(self@)) {
                (Ok(_), None) => true,
                (Err(e), Some(m)) => e@ == m,
                _ => false,
            },
    {
        if self.request_timeout_ms == 0 {
            return refuse("request_timeout_ms must be > 0");
        }
        if self.max_concurrent_requests_per_connection == 0 {
            return refuse("max_concurrent_requests_per_connection must be > 0");
        }
        if self.event_buffer == 0 || self.event_buffer > MAX_EVENT_BUFFER {
            return refuse("event_buffer must be > 0 and <= 1000000");
        }
        if self.replication_factor % 2 == 0 {
            return refuse("replication_factor must be odd");
        }
        if self.group_count == 0 {
            return refuse("group_count must be > 0");
        }
        if self.node_id.as_str().is_empty() {
            return refuse("node_id must not be empty");
        }
        if self.join && self.seed_nodes.len() == 0 {
            return refuse("seed_nodes must not be empty for join mode");
        }
        if self.bootstrap && self.join {
            return refuse("bootstrap and join are mutually exclusive");
        }
        if let Some(dns) = &self.peer_discovery_dns {
            if !is_host_port(dns.as_str()) {
                let message = concat2("peer_discovery_dns must be \"host:port\": ", dns.as_str());
                return refuse(message.as_str());
            }
            if self.peer_refresh_secs == 0 {
                return refuse("peer_refresh_secs must be > 0 when peer_discovery_dns is set");
            }
        }
        Ok(())
    }
}

// ---------------------------------------------------------------------------
// Laws
// ---------------------------------------------------------------------------

/// Settings that load obey every rule.
pub proof fn law_loaded_is_valid(file: Option<FileView>, env: Seq<Var>)
    ensures
        loaded(file, env) matches Ok(cfg) ==> config_fault(cfg) is None,
{
}

/// Settings are accepted if and only if they obey every rule: requests have time and room,
/// queues have a depth of at most a million, the number of voters is odd, there are groups,
/// the node has a name, whoever joins has seeds and does not bootstrap, and a name to discover
/// peers by is `host:port` and resolved from time to time.
pub proof fn law_settings_are_checked(cfg: ConfigView)
    ensures
        config_fault(cfg) is None <==> {
            &&& cfg.request_timeout_ms > 0
            &&& cfg.max_concurrent_requests_per_connection > 0
            &&& 0 < cfg.event_buffer <= 1_000_000
            &&& cfg.replication_factor % 2 == 1
            &&& cfg.group_count > 0
            &&& cfg.node_id.len() > 0
            &&& cfg.join ==> cfg.seed_nodes.len() > 0 && !cfg.bootstrap
            &&& cfg.peer_discovery_dns matches Some(dns) ==> host_port(dns)
                && cfg.peer_refresh_secs > 0
        },
{
}

/// A text is `host:port` if and only if it can be cut at a colon, behind which there is no
/// other, into a host that is not empty and a number from 1 to 65535.
pub proof fn law_host_and_port(s: Seq<char>)
    ensures
        host_port(s) <==> exists|host: Seq<char>, port: Seq<char>|
            host.len() > 0 && s == #[trigger] (host + ":"@ + port) && !port.contains(':') && (
            parse_unsigned_spec(port, 65535) matches Ok(p) && p > 0),
{
    reveal_strlit(":");
    let i = find_last(s, ':');
    lemma_find_last(s, ':');
    if host_port(s) {
        let (host, port) = (s.take(i), s.skip(i + 1));
        assert(s =~= host + ":"@ + port);
        assert(!port.contains(':')) by {
            if port.contains(':') {
                let k = port.index_of(':');
                assert(s[k + i + 1] == ':');
            }
        }
    }
    if exists|host: Seq<char>, port: Seq<char>|
        host.len() > 0 && s == #[trigger] (host + ":"@ + port) && !port.contains(':') && (
        parse_unsigned_spec(port, 65535) matches Ok(p) && p > 0) {
        let (host, port) = choose|host: Seq<char>, port: Seq<char>|
            host.len() > 0 && s == #[trigger] (host + ":"@ + port) && !port.contains(':') && (
            parse_unsigned_spec(port, 65535) matches Ok(p) && p > 0);
        let n = host.len() as int;
        assert(s[n] == ':');
        if i > n {
            assert(port[i - n - 1] == s[i]);
            assert(port.contains(port[i - n - 1]));
        }
        assert(i == n);
        assert(s.skip(i + 1) =~= port);
    }
}

proof fn lemma_find_last(s: Seq<char>, c: char)
    ensures
        -1 <= find_last(s, c) < s.len(),
        find_last(s, c) >= 0 ==> s[find_last(s, c)] == c,
        forall|j: int| find_last(s, c) < j < s.len() ==> #[trigger] s[j] != c,
    decreases s.len(),
{
    if s.len() > 0 && s.last() != c {
        let t = s.drop_last();
        lemma_find_last(t, c);
        assert forall|j: int| find_last(s, c) < j < s.len() implies #[trigger] s[j] != c by {
            if j < t.len() {
                assert(t[j] == s[j]);
            }
        }
    }
}

/// A variable counts if it is set to something: the first with its name.
pub proof fn law_first_variable_counts(env: Seq<Var>, key: Seq<char>, value: Seq<char>)
    ensures
        env_text(env, key) == Some(value) <==> value.len() > 0 && exists|i: int|
            0 <= i < env.len() && (#[trigger] env[i]).key@ == key && env[i].value@ == value
                && forall|j: int| 0 <= j < i ==> (#[trigger] env[j]).key@ != key,
    decreases env.len(),
{
    if env.len() > 0 {
        let rest = env.drop_first();
        law_first_variable_counts(rest, key, value);
        if env[0].key@ == key {
            if exists|i: int|
                0 <= i < env.len() && (#[trigger] env[i]).key@ == key && env[i].value@ == value
                    && forall|j: int| 0 <= j < i ==> (#[trigger] env[j]).key@ != key {
                let i = choose|i: int|
                    0 <= i < env.len() && (#[trigger] env[i]).key@ == key && env[i].value@ == value
                        && forall|j: int| 0 <= j < i ==> (#[trigger] env[j]).key@ != key;
                assert(i == 0) by {
                    if i > 0 {
                        assert(env[0].key@ != key);
                    }
                }
            }
        } else {
            assert(env_text(env, key) == env_text(rest, key));
            if value.len() > 0 && env_text(rest, key) == Some(value) {
                let i = choose|i: int|
                    0 <= i < rest.len() && (#[trigger] rest[i]).key@ == key && rest[i].value@
                        == value && forall|j: int| 0 <= j < i ==> (#[trigger] rest[j]).key@ != key;
                assert(env[i + 1] == rest[i]);
                assert forall|j: int| 0 <= j < i + 1 implies (#[trigger] env[j]).key@ != key by {
                    if j > 0 {
                        assert(rest[j - 1] == env[j]);
                    }
                }
            }
            if exists|i: int|
                0 <= i < env.len() && (#[trigger] env[i]).key@ == key && env[i].value@ == value
                    && forall|j: int| 0 <= j < i ==> (#[trigger] env[j]).key@ != key {
                let i = choose|i: int|
                    0 <= i < env.len() && (#[trigger] env[i]).key@ == key && env[i].value@ == value
                        && forall|j: int| 0 <= j < i ==> (#[trigger] env[j]).key@ != key;
                assert(rest[i - 1] == env[i]);
                assert forall|j: int| 0 <= j < i - 1 implies (#[trigger] rest[j]).key@ != key by {
                    assert(rest[j] == env[j + 1]);
                }
            }
        }
    }
}

/// A variable that holds no number or no truth value where one is wanted is refused, and no
/// other is: settings that are all readable fail to load only where they break a rule.
pub proof fn law_unreadable_variables_are_refused(file: Option<FileView>, env: Seq<Var>)
    ensures
        ({
            let readable = {
                &&& env_number(env, "PATHLOCKD_GROUP_COUNT"@, u32::MAX as nat) is Ok
                &&& env_number(env, "PATHLOCKD_REPLICATION_FACTOR"@, u32::MAX as nat) is Ok
                &&& env_number(env, "PATHLOCKD_GROUP_GC_INTERVAL_SECS"@, u64::MAX as nat) is Ok
                &&& env_number(env, "PATHLOCKD_GROUP_GC_BATCH"@, u32::MAX as nat) is Ok
                &&& env_number(env, "PATHLOCKD_EVENT_BUFFER"@, usize::MAX as nat) is Ok
                &&& env_number(env, "PATHLOCKD_PEER_REFRESH_SECS"@, u64::MAX as nat) is Ok
                &&& env_number(env, "PATHLOCKD_REQUEST_TIMEOUT_MS"@, u64::MAX as nat) is Ok
                &&& env_number(
                    env,
                    "PATHLOCKD_MAX_CONCURRENT_REQUESTS_PER_CONNECTION"@,
                    usize::MAX as nat,
                ) is Ok
                &&& env_number(
                    env,
                    "PATHLOCKD_RAFT_SNAPSHOT_INTERVAL_ENTRIES"@,
                    u64::MAX as nat,
                ) is Ok
                &&& env_number(
                    env,
                    "PATHLOCKD_RAFT_SNAPSHOT_MIN_LOG_ENTRIES"@,
                    u64::MAX as nat,
                ) is Ok
                &&& env_number(env, "PATHLOCKD_RAFT_MAX_INFLIGHT"@, usize::MAX as nat) is Ok
                &&& env_flag(env, "PATHLOCKD_ROCKSDB_WAL_SYNC"@) is Ok
                &&& env_signed(env, "PATHLOCKD_ROCKSDB_MAX_OPEN_FILES"@) is Ok
                &&& env_flag(env, "PATHLOCKD_BOOTSTRAP"@) is Ok
                &&& env_flag(env, "PATHLOCKD_JOIN"@) is Ok
            };
            &&& !readable ==> loaded(file, env) is Err
            &&& readable && loaded(file, env) is Err ==> exists|cfg: ConfigView|
                loaded(file, env) == Err::<ConfigView, Seq<char>>(
                    (#[trigger] config_fault(cfg))->Some_0,
                ) && config_fault(cfg) is Some
        }),
{
    let base = match file {
        Some(f) => file_applied(default_config(), f),
        None => default_config(),
    };
    let cfg = env_applied(base, env, env_count());
    assert(config_fault(cfg) == config_fault(cfg));
}

/// A variable for a truth value is `true` or `false`, and nothing else.
pub proof fn law_flags_are_read(env: Seq<Var>, key: Seq<char>)
    ensures
        env_flag(env, key) == Ok::<Option<bool>, Seq<char>>(Some(true)) <==> env_text(env, key)
            == Some("true"@),
        env_flag(env, key) == Ok::<Option<bool>, Seq<char>>(Some(false)) <==> env_text(env, key)
            == Some("false"@),
        env_flag(env, key) == Ok::<Option<bool>, Seq<char>>(None) <==> env_text(env, key) is None,
{
    reveal_strlit("true");
    reveal_strlit("false");
    assert("true"@.len() == 4 && "false"@.len() == 5);
}

/// A variable for a number is read as the number whose numeral it holds, if that is not too
/// large.
pub proof fn law_numbers_are_read(env: Seq<Var>, key: Seq<char>, max: nat, n: nat)
    ensures
        env_text(env, key) is None ==> env_number(env, key, max) == Ok::<Option<nat>, Seq<char>>(
            None,
        ),
        env_text(env, key) == Some(decimal(n)) && n <= max ==> env_number(env, key, max) == Ok::<
            Option<nat>,
            Seq<char>,
        >(Some(n)),
{
    if n <= max {
        lemma_parse_decimal(n, max);
    }
}

/// The environment wins over the file, and the file over the defaults, setting by
/// setting.
pub proof fn law_precedence(file: FileView, env: Seq<Var>)
    requires
        loaded(Some(file), env) is Ok,
    ensures
        ({
            let cfg = loaded(Some(file), env)->Ok_0;
            &&& cfg.listen == given(env_text(env, "PATHLOCKD_LISTEN"@), given(file.listen, "0.0.0.0:50051"@))
            &&& cfg.node_id == given(env_text(env, "PATHLOCKD_NODE_ID"@), given(file.node_id, "pathlockd-0"@))
            &&& cfg.data_dir == given(env_text(env, "PATHLOCKD_DATA_DIR"@), given(file.data_dir, "/var/lib/pathlockd"@))
            &&& cfg.public_addr == given(env_text(env, "PATHLOCKD_PUBLIC_ADDR"@), given(file.public_addr, "http://localhost:50051"@))
            &&& cfg.raft_addr == given(env_text(env, "PATHLOCKD_RAFT_ADDR"@), given(file.raft_addr, "http://localhost:50052"@))
            &&& cfg.gossip_addr == given(env_text(env, "PATHLOCKD_GOSSIP_ADDR"@), given(file.gossip_addr, "0.0.0.0:7946"@))
            &&& cfg.seed_nodes == given(env_items(env, "PATHLOCKD_SEED_NODES"@), given(file.seed_nodes, Seq::<Seq<char>>::empty()))
            &&& cfg.group_count == env_or(env, "PATHLOCKD_GROUP_COUNT"@, u32_max(), given(file.group_count, 256u32) as nat)
            &&& cfg.replication_factor == env_or(env, "PATHLOCKD_REPLICATION_FACTOR"@, u32_max(), given(file.replication_factor, 3u32) as nat)
            &&& cfg.group_gc_interval_secs == env_or(env, "PATHLOCKD_GROUP_GC_INTERVAL_SECS"@, u64_max(), given(file.group_gc_interval_secs, 1u64) as nat)
            &&& cfg.group_gc_batch == env_or(env, "PATHLOCKD_GROUP_GC_BATCH"@, u32_max(), given(file.group_gc_batch, 1024u32) as nat)
            &&& cfg.event_buffer == env_or(env, "PATHLOCKD_EVENT_BUFFER"@, usize_max(), given(file.event_buffer, 8192usize) as nat)
            &&& cfg.peers == given(env_items(env, "PATHLOCKD_PEERS"@), given(file.peers, Seq::<Seq<char>>::empty()))
            &&& cfg.peer_discovery_dns == given_opt(env_text(env, "PATHLOCKD_PEER_DISCOVERY_DNS"@), given_opt(file.peer_discovery_dns, None::<Seq<char>>))
            &&& cfg.self_ip == given_opt(env_text(env, "PATHLOCKD_SELF_IP"@), given_opt(file.self_ip, None::<Seq<char>>))
            &&& cfg.peer_refresh_secs == env_or(env, "PATHLOCKD_PEER_REFRESH_SECS"@, u64_max(), given(file.peer_refresh_secs, 10u64) as nat)
            &&& cfg.request_timeout_ms == env_or(env, "PATHLOCKD_REQUEST_TIMEOUT_MS"@, u64_max(), given(file.request_timeout_ms, 30_000u64) as nat)
            &&& cfg.max_concurrent_requests_per_connection == env_or(env, "PATHLOCKD_MAX_CONCURRENT_REQUESTS_PER_CONNECTION"@, usize_max(), given(file.max_concurrent_requests_per_connection, 256usize) as nat)
            &&& cfg.bootstrap == flag_or(env, "PATHLOCKD_BOOTSTRAP"@, given(file.bootstrap, false))
            &&& cfg.join == flag_or(env, "PATHLOCKD_JOIN"@, given(file.join, false))
            &&& cfg.raft_snapshot_interval_entries == env_or(env, "PATHLOCKD_RAFT_SNAPSHOT_INTERVAL_ENTRIES"@, u64_max(), given(file.raft_snapshot_interval_entries, 10_000u64) as nat)
            &&& cfg.raft_snapshot_min_log_entries == env_or(env, "PATHLOCKD_RAFT_SNAPSHOT_MIN_LOG_ENTRIES"@, u64_max(), given(file.raft_snapshot_min_log_entries, 5_000u64) as nat)
            &&& cfg.raft_max_inflight == env_or(env, "PATHLOCKD_RAFT_MAX_INFLIGHT"@, usize_max(), given(file.raft_max_inflight, 256usize) as nat)
            &&& cfg.rocksdb_wal_sync == flag_or(env, "PATHLOCKD_ROCKSDB_WAL_SYNC"@, given(file.rocksdb_wal_sync, true))
            &&& cfg.rocksdb_max_open_files == signed_or(env, "PATHLOCKD_ROCKSDB_MAX_OPEN_FILES"@, given(file.rocksdb_max_open_files, 4096i32))
            &&& cfg.log_level == given(env_text(env, "PATHLOCKD_LOG_LEVEL"@), given(file.log_level, "info"@))
        }),
{
    lemma_numbers_fit(file, env);
}

/// To have no file is to have one that sets nothing.
pub proof fn law_no_file_sets_nothing(file: FileView, env: Seq<Var>)
    requires
        file.listen is None,
        file.node_id is None,
        file.data_dir is None,
        file.public_addr is None,
        file.raft_addr is None,
        file.gossip_addr is None,
        file.seed_nodes is None,
        file.group_count is None,
        file.replication_factor is None,
        file.group_gc_interval_secs is None,
        file.group_gc_batch is None,
        file.event_buffer is None,
        file.peers is None,
        file.peer_discovery_dns is None,
        file.self_ip is None,
        file.peer_refresh_secs is None,
        file.request_timeout_ms is None,
        file.max_concurrent_requests_per_connection is None,
        file.bootstrap is None,
        file.join is None,
        file.raft_snapshot_interval_entries is None,
        file.raft_snapshot_min_log_entries is None,
        file.raft_max_inflight is None,
        file.rocksdb_wal_sync is None,
        file.rocksdb_max_open_files is None,
        file.log_level is None,
    ensures
        loaded(Some(file), env) == loaded(None, env),
{
    assert(file_applied(default_config(), file) =~= default_config());
}

proof fn lemma_env_or_fits(env: Seq<Var>, key: Seq<char>, max: nat, before: nat)
    requires
        before <= max,
    ensures
        env_or(env, key, max, before) <= max,
{
    if let Ok(Some(n)) = env_number(env, key, max) {
        let v = env_text(env, key)->0;
        let body = if v[0] == '+' {
            v.drop_first()
        } else {
            v
        };
        assert(body.take(body.len() as int) =~= body);
        lemma_digit_run(body, 0);
    }
}

proof fn lemma_numbers_fit(file: FileView, env: Seq<Var>)
    ensures
        ({
            let base = default_config();
            &&& env_or(env, "PATHLOCKD_GROUP_COUNT"@, u32_max(), given(file.group_count, base.group_count) as nat) <= u32_max()
            &&& env_or(env, "PATHLOCKD_REPLICATION_FACTOR"@, u32_max(), given(file.replication_factor, base.replication_factor) as nat) <= u32_max()
            &&& env_or(env, "PATHLOCKD_GROUP_GC_INTERVAL_SECS"@, u64_max(), given(file.group_gc_interval_secs, base.group_gc_interval_secs) as nat) <= u64_max()
            &&& env_or(env, "PATHLOCKD_GROUP_GC_BATCH"@, u32_max(), given(file.group_gc_batch, base.group_gc_batch) as nat) <= u32_max()
            &&& env_or(env, "PATHLOCKD_EVENT_BUFFER"@, usize_max(), given(file.event_buffer, base.event_buffer) as nat) <= usize_max()
            &&& env_or(env, "PATHLOCKD_PEER_REFRESH_SECS"@, u64_max(), given(file.peer_refresh_secs, base.peer_refresh_secs) as nat) <= u64_max()
            &&& env_or(env, "PATHLOCKD_REQUEST_TIMEOUT_MS"@, u64_max(), given(file.request_timeout_ms, base.request_timeout_ms) as nat) <= u64_max()
            &&& env_or(env, "PATHLOCKD_MAX_CONCURRENT_REQUESTS_PER_CONNECTION"@, usize_max(), given(file.max_concurrent_requests_per_connection, base.max_concurrent_requests_per_connection) as nat) <= usize_max()
            &&& env_or(env, "PATHLOCKD_RAFT_SNAPSHOT_INTERVAL_ENTRIES"@, u64_max(), given(file.raft_snapshot_interval_entries, base.raft_snapshot_interval_entries) as nat) <= u64_max()
            &&& env_or(env, "PATHLOCKD_RAFT_SNAPSHOT_MIN_LOG_ENTRIES"@, u64_max(), given(file.raft_snapshot_min_log_entries, base.raft_snapshot_min_log_entries) as nat) <= u64_max()
            &&& env_or(env, "PATHLOCKD_RAFT_MAX_INFLIGHT"@, usize_max(), given(file.raft_max_inflight, base.raft_max_inflight) as nat) <= usize_max()
        }),
{
    let base = default_config();
    lemma_env_or_fits(env, "PATHLOCKD_GROUP_COUNT"@, u32_max(), given(file.group_count, base.group_count) as nat);
    lemma_env_or_fits(env, "PATHLOCKD_REPLICATION_FACTOR"@, u32_max(), given(file.replication_factor, base.replication_factor) as nat);
    lemma_env_or_fits(env, "PATHLOCKD_GROUP_GC_INTERVAL_SECS"@, u64_max(), given(file.group_gc_interval_secs, base.group_gc_interval_secs) as nat);
    lemma_env_or_fits(env, "PATHLOCKD_GROUP_GC_BATCH"@, u32_max(), given(file.group_gc_batch, base.group_gc_batch) as nat);
    lemma_env_or_fits(env, "PATHLOCKD_EVENT_BUFFER"@, usize_max(), given(file.event_buffer, base.event_buffer) as nat);
    lemma_env_or_fits(env, "PATHLOCKD_PEER_REFRESH_SECS"@, u64_max(), given(file.peer_refresh_secs, base.peer_refresh_secs) as nat);
    lemma_env_or_fits(env, "PATHLOCKD_REQUEST_TIMEOUT_MS"@, u64_max(), given(file.request_timeout_ms, base.request_timeout_ms) as nat);
    lemma_env_or_fits(env, "PATHLOCKD_MAX_CONCURRENT_REQUESTS_PER_CONNECTION"@, usize_max(), given(file.max_concurrent_requests_per_connection, base.max_concurrent_requests_per_connection) as nat);
    lemma_env_or_fits(env, "PATHLOCKD_RAFT_SNAPSHOT_INTERVAL_ENTRIES"@, u64_max(), given(file.raft_snapshot_interval_entries, base.raft_snapshot_interval_entries) as nat);
    lemma_env_or_fits(env, "PATHLOCKD_RAFT_SNAPSHOT_MIN_LOG_ENTRIES"@, u64_max(), given(file.raft_snapshot_min_log_entries, base.raft_snapshot_min_log_entries) as nat);
    lemma_env_or_fits(env, "PATHLOCKD_RAFT_MAX_INFLIGHT"@, usize_max(), given(file.raft_max_inflight, base.raft_max_inflight) as nat);
}

} // verus!
