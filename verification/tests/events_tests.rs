//! Subscriptions and the delivery of events.

use pathlockd::events::{
    first_bad_endpoint, BroadcastError, Broadcaster, Registry, MAX_SUBSCRIBER_QUEUE,
};
use pathlockd::proto::{Event, EventType};

#[test]
fn broadcaster_rejects_invalid_subscriber_queue_sizes() {
    assert!(Broadcaster::new(0, &vec![]).is_err());
    assert!(Broadcaster::new(MAX_SUBSCRIBER_QUEUE + 1, &vec![]).is_err());
    assert!(Broadcaster::new(1, &vec![]).is_ok());
}

#[test]
fn refusals_are_told_apart() {
    assert_eq!(
        Broadcaster::new(0, &vec![]).unwrap_err().to_string(),
        "event_buffer must be > 0"
    );
    assert_eq!(
        Broadcaster::new(1_000_001, &vec![]).unwrap_err().to_string(),
        "event_buffer too large (max 1000000)"
    );
    let peers = vec!["http://ok:1".to_string(), "not a uri".to_string()];
    let e = Broadcaster::new(1, &peers).unwrap_err();
    assert_eq!(e.to_string(), "invalid peer endpoint not a uri: invalid URI");
}

#[test]
fn the_first_bad_endpoint_is_reported() {
    let eps = vec!["a".to_string(), "b".to_string(), "c".to_string()];
    let none = vec![None, None, None];
    assert_eq!(first_bad_endpoint(&eps, &none), None);
    let two = vec![None, Some("x".to_string()), Some("y".to_string())];
    assert_eq!(
        first_bad_endpoint(&eps, &two),
        Some(BroadcastError::BadEndpoint { endpoint: "b".into(), reason: "x".into() })
    );
}

#[test]
fn an_event_goes_to_the_subscriptions_of_its_owner() {
    let mut b = Broadcaster::new(4, &vec!["http://p:1".to_string()]).unwrap();
    let a1 = b.subscribe("alice");
    let b1 = b.subscribe("bob");
    let a2 = b.subscribe("alice");
    assert_eq!((a1.id, b1.id, a2.id), (0, 1, 2));
    let d = b.released("alice");
    assert_eq!(d.subscribers, vec![a1.id, a2.id]);
    assert_eq!(d.peers, vec!["http://p:1"]);
    assert_eq!(d.event.kind, EventType::Released.number());
    assert_eq!(b.killed("bob").subscribers, vec![b1.id]);
    assert_eq!(b.killed("bob").event.kind, EventType::Killed.number());
    assert_eq!(b.revoke("carol").subscribers, Vec::<u64>::new());
    assert_eq!(b.revoke("carol").event.kind, EventType::Revoke.number());
    b.unsubscribe(&a1);
    assert_eq!(b.released("alice").subscribers, vec![a2.id]);
    b.unsubscribe(&a1);
    assert_eq!(b.released("alice").subscribers, vec![a2.id]);
}

#[test]
fn events_of_peers_are_not_forwarded() {
    let b = Broadcaster::new(4, &vec!["http://p:1".to_string()]).unwrap();
    let ev = Event { kind: 0, owner_id: "alice".into() };
    assert!(b.publish_from_peer(ev.clone()).peers.is_empty());
    assert_eq!(b.publish_local(ev).peers.len(), 1);
}

#[test]
fn unregistering_leaves_nothing_behind() {
    let mut r = Registry::new(8).unwrap();
    let keep = r.register("bob");
    let id = r.register("alice");
    r.unregister("bob", id);
    assert_eq!(r.subs.len(), 2);
    r.unregister("alice", id);
    assert_eq!(r.subs.len(), 1);
    assert_eq!(r.subs[0].id, keep);
    assert_eq!(r.capacity, 8);
}
