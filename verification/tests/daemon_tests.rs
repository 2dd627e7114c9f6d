//! Addresses, peers, and passes in the background.

use pathlockd::daemon::{
    health_probe_url, panic_message, peer_url, resolve_peers, GcNext, GcPass, HostAddr, HostIp,
};

fn v4(a: u8, b: u8, c: u8, d: u8) -> HostIp {
    HostIp::V4 { a, b, c, d }
}

fn v6(text: &str, unspecified: bool) -> HostIp {
    HostIp::V6 { text: text.to_string(), unspecified }
}

fn at(ip: HostIp, port: u16) -> HostAddr {
    HostAddr { ip, port }
}

#[test]
fn health_probe_url_maps_unspecified_binds_to_loopback() {
    assert_eq!(
        health_probe_url(&at(v4(0, 0, 0, 0), 50051)),
        "http://127.0.0.1:50051"
    );
    assert_eq!(
        health_probe_url(&at(v6("::", true), 50051)),
        "http://[::1]:50051"
    );
}

#[test]
fn peer_url_brackets_ipv6() {
    assert_eq!(
        peer_url(&at(v4(10, 0, 0, 1), 50051)),
        "http://10.0.0.1:50051"
    );
    assert_eq!(peer_url(&at(v6("::1", false), 50051)), "http://[::1]:50051");
}

#[test]
fn a_bound_address_is_probed_as_it_is() {
    assert_eq!(
        health_probe_url(&at(v4(192, 168, 0, 7), 1)),
        "http://192.168.0.7:1"
    );
    assert_eq!(health_probe_url(&at(v6("fe80::1", false), 2)), "http://[fe80::1]:2");
}

#[test]
fn peers_are_sorted_without_duplicates_and_without_self() {
    let addrs = vec![
        at(v4(10, 0, 0, 3), 5),
        at(v4(10, 0, 0, 1), 5),
        at(v4(10, 0, 0, 3), 5),
        at(v4(10, 0, 0, 2), 5),
        at(v6("::1", false), 5),
    ];
    assert_eq!(
        resolve_peers(&addrs, &Some(v4(10, 0, 0, 1))),
        vec!["http://10.0.0.2:5", "http://10.0.0.3:5", "http://[::1]:5"]
    );
    assert_eq!(resolve_peers(&addrs, &Some(v6("::1", false))).len(), 3);
    assert_eq!(resolve_peers(&addrs, &None).len(), 4);
    assert!(resolve_peers(&vec![], &None).is_empty());
}

#[test]
fn a_pass_ends_when_nothing_is_due_or_its_time_is_up() {
    let mut pass = GcPass::new(10);
    assert_eq!(pass.after_sweep(Some((10, 7)), 5), GcNext::Sweep);
    assert_eq!(pass.after_sweep(Some((9, 9)), 6), GcNext::Finished);
    assert_eq!((pass.scanned, pass.reclaimed), (19, 16));
    let mut pass = GcPass::new(10);
    assert_eq!(pass.after_sweep(Some((10, 0)), 249), GcNext::Sweep);
    assert_eq!(pass.after_sweep(Some((10, 0)), 250), GcNext::Finished);
    assert_eq!(pass.after_sweep(None, 0), GcNext::Failed);
    assert_eq!(pass.scanned, 20);
}

#[test]
fn the_message_of_a_panic() {
    let text = "text".to_string();
    assert_eq!(panic_message(Some("literal"), Some(&text)), "literal");
    assert_eq!(panic_message(None, Some(&text)), "text");
    assert_eq!(panic_message(None, None), "non-string panic payload");
}
