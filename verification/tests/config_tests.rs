//! Configuration: precedence, parsing and validation.

use pathlockd::config::{
    apply_env, apply_file, env_list, env_parse, env_string, is_host_port, Cli, Config, FileConfig,
    Var,
};

fn env(vars: &[(&str, &str)]) -> Vec<Var> {
    vars.iter()
        .map(|(k, v)| Var { key: k.to_string(), value: v.to_string() })
        .collect()
}

#[test]
fn is_host_port_accepts_dns_and_port() {
    assert!(is_host_port("pathlockd-headless:50051"));
    assert!(is_host_port("pathlockd.default.svc.cluster.local:50051"));
    assert!(is_host_port("10.0.0.1:50051"));
}

#[test]
fn is_host_port_rejects_bad_forms() {
    assert!(!is_host_port("pathlockd-headless"));
    assert!(!is_host_port(":50051"));
    assert!(!is_host_port("host:0"));
    assert!(!is_host_port("host:70000"));
    assert!(!is_host_port("host:grpc"));
}

#[test]
fn the_last_colon_splits_host_and_port() {
    assert!(is_host_port("[::1]:1"));
    assert!(is_host_port("a:b:65535"));
    assert!(is_host_port("h:+7"));
    assert!(!is_host_port("h:65536"));
    assert!(!is_host_port("h:"));
    assert!(!is_host_port(""));
    assert!(!is_host_port("h:-1"));
}

#[test]
fn defaults_load() {
    let cfg = Config::load_from(None, &env(&[])).unwrap();
    assert_eq!(cfg.listen, "0.0.0.0:50051");
    assert_eq!(cfg.node_id, "pathlockd-0");
    assert_eq!(cfg.data_dir, "/var/lib/pathlockd");
    assert_eq!(cfg.public_addr, "http://localhost:50051");
    assert_eq!(cfg.raft_addr, "http://localhost:50052");
    assert_eq!(cfg.gossip_addr, "0.0.0.0:7946");
    assert!(cfg.seed_nodes.is_empty() && cfg.peers.is_empty());
    assert_eq!((cfg.group_count, cfg.replication_factor), (256, 3));
    assert_eq!((cfg.group_gc_interval_secs, cfg.group_gc_batch), (1, 1024));
    assert_eq!(cfg.event_buffer, 8192);
    assert_eq!((cfg.peer_discovery_dns, cfg.self_ip), (None, None));
    assert_eq!((cfg.peer_refresh_secs, cfg.request_timeout_ms), (10, 30_000));
    assert_eq!(cfg.max_concurrent_requests_per_connection, 256);
    assert!(!cfg.bootstrap && !cfg.join && cfg.rocksdb_wal_sync);
    assert_eq!(
        (cfg.raft_snapshot_interval_entries, cfg.raft_snapshot_min_log_entries),
        (10_000, 5_000)
    );
    assert_eq!((cfg.raft_max_inflight, cfg.rocksdb_max_open_files), (256, 4096));
    assert_eq!(cfg.log_level, "info");
}

#[test]
fn the_environment_wins_over_the_file_and_the_file_over_defaults() {
    let file = FileConfig {
        listen: Some("file:1".into()),
        node_id: Some("file-node".into()),
        group_count: Some(7),
        self_ip: Some("10.0.0.1".into()),
        ..FileConfig::default()
    };
    let vars = env(&[
        ("PATHLOCKD_LISTEN", "env:2"),
        ("PATHLOCKD_GROUP_COUNT", "9"),
        ("PATHLOCKD_NODE_ID", ""),
        ("PATHLOCKD_PEERS", " a , ,b,"),
        ("PATHLOCKD_SELF_IP", "10.0.0.2"),
    ]);
    let (cfg, probe) =
        Config::load(Cli { config: Some(file), health_check: true }, &vars).unwrap();
    assert!(probe);
    assert_eq!(cfg.listen, "env:2");
    assert_eq!(cfg.node_id, "file-node");
    assert_eq!(cfg.group_count, 9);
    assert_eq!(cfg.peers, vec!["a", "b"]);
    assert_eq!(cfg.self_ip.as_deref(), Some("10.0.0.2"));
    assert_eq!(cfg.log_level, "info");
}

#[test]
fn a_variable_that_holds_no_number_is_refused() {
    let bad = |v: &str| {
        Config::load_from(None, &env(&[("PATHLOCKD_GROUP_COUNT", v)]))
            .unwrap_err()
            .to_string()
    };
    assert_eq!(
        bad("x"),
        "invalid PATHLOCKD_GROUP_COUNT=x: invalid digit found in string"
    );
    assert_eq!(
        bad("4294967296"),
        "invalid PATHLOCKD_GROUP_COUNT=4294967296: number too large to fit in target type"
    );
    assert_eq!(
        bad("-1"),
        "invalid PATHLOCKD_GROUP_COUNT=-1: invalid digit found in string"
    );
}

#[test]
fn settings_before_a_bad_variable_are_kept() {
    let mut cfg = Config::default();
    let vars = env(&[
        ("PATHLOCKD_LISTEN", "env:2"),
        ("PATHLOCKD_GROUP_COUNT", "x"),
        ("PATHLOCKD_LOG_LEVEL", "debug"),
    ]);
    assert!(apply_env(&mut cfg, &vars).is_err());
    assert_eq!(cfg.listen, "env:2");
    assert_eq!(cfg.log_level, "info");
}

#[test]
fn a_file_overlays_what_it_gives() {
    let mut cfg = Config::default();
    apply_file(
        &mut cfg,
        FileConfig {
            seed_nodes: Some(vec!["s".into()]),
            rocksdb_max_open_files: Some(-1),
            join: Some(true),
            ..FileConfig::default()
        },
    );
    assert_eq!(cfg.seed_nodes, vec!["s"]);
    assert_eq!(cfg.rocksdb_max_open_files, -1);
    assert!(cfg.join);
    assert_eq!(cfg.group_count, 256);
}

#[test]
fn variables_are_read() {
    let vars = env(&[("A", "1"), ("A", "2"), ("E", ""), ("L", "x,\ty ,")]);
    assert_eq!(env_string(&vars, "A"), Some("1".to_string()));
    assert_eq!(env_string(&vars, "E"), None);
    assert_eq!(env_string(&vars, "M"), None);
    assert_eq!(env_list(&vars, "L"), Some(vec!["x".to_string(), "y".to_string()]));
    assert_eq!(env_list(&vars, "E"), None);
    assert_eq!(env_parse(&vars, "A", 10).unwrap(), Some(1));
    assert_eq!(env_parse(&vars, "M", 10).unwrap(), None);
    assert!(env_parse(&vars, "L", 10).is_err());
}

fn refused(change: impl Fn(&mut Config)) -> String {
    let mut cfg = Config::default();
    change(&mut cfg);
    cfg.validate().unwrap_err().to_string()
}

#[test]
fn every_rule_is_enforced() {
    assert!(Config::default().validate().is_ok());
    assert_eq!(
        refused(|c| c.request_timeout_ms = 0),
        "request_timeout_ms must be > 0"
    );
    assert_eq!(
        refused(|c| c.max_concurrent_requests_per_connection = 0),
        "max_concurrent_requests_per_connection must be > 0"
    );
    for n in [0, 1_000_001] {
        assert_eq!(
            refused(|c| c.event_buffer = n),
            "event_buffer must be > 0 and <= 1000000"
        );
    }
    assert_eq!(
        refused(|c| c.replication_factor = 4),
        "replication_factor must be odd"
    );
    assert_eq!(refused(|c| c.group_count = 0), "group_count must be > 0");
    assert_eq!(refused(|c| c.node_id = String::new()), "node_id must not be empty");
    assert_eq!(
        refused(|c| c.join = true),
        "seed_nodes must not be empty for join mode"
    );
    assert_eq!(
        refused(|c| {
            c.join = true;
            c.bootstrap = true;
            c.seed_nodes = vec!["s".into()];
        }),
        "bootstrap and join are mutually exclusive"
    );
    assert_eq!(
        refused(|c| c.peer_discovery_dns = Some("nope".into())),
        "peer_discovery_dns must be \"host:port\": nope"
    );
    assert_eq!(
        refused(|c| {
            c.peer_discovery_dns = Some("h:1".into());
            c.peer_refresh_secs = 0;
        }),
        "peer_refresh_secs must be > 0 when peer_discovery_dns is set"
    );
}

#[test]
fn replication_and_storage_are_set_by_variables() {
    let mut cfg = Config::default();
    apply_env(&mut cfg, &env(&[("PATHLOCKD_BOOTSTRAP", "true")])).unwrap();
    assert!(cfg.bootstrap && !cfg.join && cfg.rocksdb_wal_sync);
    assert_eq!(cfg.raft_max_inflight, 256);
    apply_env(
        &mut cfg,
        &env(&[
            ("PATHLOCKD_BOOTSTRAP", "false"),
            ("PATHLOCKD_JOIN", "true"),
            ("PATHLOCKD_RAFT_SNAPSHOT_INTERVAL_ENTRIES", "11"),
            ("PATHLOCKD_RAFT_SNAPSHOT_MIN_LOG_ENTRIES", "12"),
            ("PATHLOCKD_RAFT_MAX_INFLIGHT", "13"),
            ("PATHLOCKD_ROCKSDB_WAL_SYNC", "false"),
            ("PATHLOCKD_ROCKSDB_MAX_OPEN_FILES", "-1"),
        ]),
    )
    .unwrap();
    assert!(!cfg.bootstrap && cfg.join && !cfg.rocksdb_wal_sync);
    assert_eq!(cfg.raft_snapshot_interval_entries, 11);
    assert_eq!(cfg.raft_snapshot_min_log_entries, 12);
    assert_eq!(cfg.raft_max_inflight, 13);
    assert_eq!(cfg.rocksdb_max_open_files, -1);
}

#[test]
fn bad_values_for_replication_and_storage_are_refused() {
    for (key, value, why) in [
        ("PATHLOCKD_BOOTSTRAP", "yes", "provided string was not `true` or `false`"),
        ("PATHLOCKD_JOIN", "True", "provided string was not `true` or `false`"),
        ("PATHLOCKD_ROCKSDB_WAL_SYNC", "1", "provided string was not `true` or `false`"),
        ("PATHLOCKD_RAFT_MAX_INFLIGHT", "-1", "invalid digit found in string"),
        ("PATHLOCKD_RAFT_SNAPSHOT_INTERVAL_ENTRIES", "x", "invalid digit found in string"),
        (
            "PATHLOCKD_RAFT_SNAPSHOT_MIN_LOG_ENTRIES",
            "18446744073709551616",
            "number too large to fit in target type",
        ),
    ] {
        let mut cfg = Config::default();
        let e = apply_env(&mut cfg, &env(&[(key, value)])).unwrap_err();
        assert_eq!(e.to_string(), format!("invalid {key}={value}: {why}"));
    }
    for value in ["2147483648", "-2147483649", "-", "+", "-+1", "1x", "- 1", "99999999999x"] {
        let mut cfg = Config::default();
        let e = apply_env(&mut cfg, &env(&[("PATHLOCKD_ROCKSDB_MAX_OPEN_FILES", value)])).unwrap_err();
        let why = value.parse::<i32>().unwrap_err();
        assert_eq!(
            e.to_string(),
            format!("invalid PATHLOCKD_ROCKSDB_MAX_OPEN_FILES={value}: {why}")
        );
    }
    for value in ["2147483647", "-2147483648", "+7", "-0", "007"] {
        let mut cfg = Config::default();
        apply_env(&mut cfg, &env(&[("PATHLOCKD_ROCKSDB_MAX_OPEN_FILES", value)])).unwrap();
        assert_eq!(cfg.rocksdb_max_open_files, value.parse::<i32>().unwrap());
    }
}
