//! Delivery of the events in the life of an owner: to the subscriptions for that
//! owner on this instance, and to the peers.

use vstd::prelude::*;
use crate::config::{config_fault, ConfigView};
use crate::proto::{event_number, Event, EventType, EventView};
use crate::store_rocksdb::opt_text;
use crate::text::{concat2, concat3, str_eq, texts};

verus! {

/// The deepest queue of a subscriber.
pub const MAX_SUBSCRIBER_QUEUE: usize = 1_000_000;

// ---------------------------------------------------------------------------
// Errors
// ---------------------------------------------------------------------------

/// Why a broadcaster cannot be made.
#[derive(Debug, Clone, PartialEq, Eq)]
pub enum BroadcastError {
    EmptyBuffer,
    BufferTooLarge,
    BadEndpoint { endpoint: String, reason: String },
}

/// Why a broadcaster cannot be made.
pub enum BroadcastFault {
    EmptyBuffer,
    BufferTooLarge,
    BadEndpoint { endpoint: Seq<char>, reason: Seq<char> },
}

impl BroadcastError {
    pub open spec fn view(&self) -> BroadcastFault {
        match self {
            BroadcastError::EmptyBuffer => BroadcastFault::EmptyBuffer,
            BroadcastError::BufferTooLarge => BroadcastFault::BufferTooLarge,
            BroadcastError::BadEndpoint { endpoint, reason } => BroadcastFault::BadEndpoint {
                endpoint: endpoint@,
                reason: reason@,
            },
        }
    }

    /// The message of the error.
    pub fn to_string(&self) -> (r: String)
        ensures
            r@ == (match self@ {
                BroadcastFault::EmptyBuffer => "event_buffer must be > 0"@,
                BroadcastFault::BufferTooLarge => "event_buffer too large (max 1000000)"@,
                BroadcastFault::BadEndpoint { endpoint, reason } => "invalid peer endpoint "@
                    + endpoint + ": "@ + reason,
            }),
    {
        match self {
            BroadcastError::EmptyBuffer => "event_buffer must be > 0".to_owned(),
            BroadcastError::BufferTooLarge => "event_buffer too large (max 1000000)".to_owned(),
            BroadcastError::BadEndpoint { endpoint, reason } => {
                let head = concat3("invalid peer endpoint ", endpoint.as_str(), ": ");
                concat2(head.as_str(), reason.as_str())
            },
        }
    }
}

/// What is wrong with the queue depth of a subscriber.
pub open spec fn buffer_fault(capacity: usize) -> Option<BroadcastFault> {
    if capacity == 0 {
        Some(BroadcastFault::EmptyBuffer)
    } else if capacity > MAX_SUBSCRIBER_QUEUE {
        Some(BroadcastFault::BufferTooLarge)
    } else {
        None
    }
}

/// A queue depth that the configuration accepts is one that a broadcaster accepts.
pub proof fn law_configured_buffer_is_accepted(cfg: ConfigView)
    requires
        config_fault(cfg) is None,
    ensures
        buffer_fault(cfg.event_buffer) is None,
{
}

// ---------------------------------------------------------------------------
// The registry
// ---------------------------------------------------------------------------

/// A subscription to the events of one owner.
#[derive(Debug, Clone)]
pub struct Subscription {
    pub owner: String,
    pub id: u64,
}

/// The subscriptions of an instance, in the order in which they came.
#[derive(Debug, Clone)]
pub struct Registry {
    pub subs: Vec<Subscription>,
    pub next_id: u64,
    /// The queue depth of a subscriber.
    pub capacity: usize,
}

/// Subscriptions: owner and id.
pub type Subs = Seq<(Seq<char>, u64)>;

/// The ids of an owner's subscriptions, in the order in which they came.
pub open spec fn subscribers(subs: Subs, owner: Seq<char>) -> Seq<u64>
    decreases subs.len(),
{
    if subs.len() == 0 {
        Seq::empty()
    } else if subs.last().0 == owner {
        subscribers(subs.drop_last(), owner).push(subs.last().1)
    } else {
        subscribers(subs.drop_last(), owner)
    }
}

/// The subscriptions without the one of `owner` with an id.
pub open spec fn without(subs: Subs, owner: Seq<char>, id: u64) -> Subs
    decreases subs.len(),
{
    if subs.len() == 0 {
        Seq::empty()
    } else if subs.last() == (owner, id) {
        without(subs.drop_last(), owner, id)
    } else {
        without(subs.drop_last(), owner, id).push(subs.last())
    }
}

pub open spec fn subs_view(v: Seq<Subscription>) -> Subs {
    Seq::new(v.len(), |i: int| (v[i].owner@, v[i].id))
}

impl Registry {
    pub open spec fn view(&self) -> Subs {
        subs_view(self.subs@)
    }

    /// Whether the next id is above all the given ones.
    pub open spec fn next_is_fresh(&self) -> bool {
        forall|i: int| 0 <= i < self@.len() ==> (#[trigger] self@[i]).1 < self.next_id
    }

    /// A registry without subscriptions.
    pub fn new(capacity: usize) -> (r: Result<Registry, BroadcastError>)
        ensures
            match (r, buffer_fault(capacity)) {
                (Ok(reg), None) => reg@.len() == 0 && reg.next_id == 0 && reg.capacity == capacity,
                (Err(e), Some(f)) => e@ == f,
                _ => false,
            },
    {
        if capacity == 0 {
            return Err(BroadcastError::EmptyBuffer);
        }
        if capacity > MAX_SUBSCRIBER_QUEUE {
            return Err(BroadcastError::BufferTooLarge);
        }
        Ok(Registry { subs: Vec::new(), next_id: 0, capacity })
    }

    /// The subscriptions that an event goes to: those for its owner.
    pub fn route(&self, ev: &Event) -> (r: Vec<u64>)
        ensures
            r@ == subscribers(self@, ev@.owner),
    {
        let mut out: Vec<u64> = Vec::new();
        let mut i: usize = 0;
        assert(self@.take(0) =~= Seq::<(Seq<char>, u64)>::empty());
        while i < self.subs.len()
            invariant
                i <= self.subs@.len(),
                out@ == subscribers(self@.take(i as int), ev@.owner),
            decreases self.subs@.len() - i,
        {
            assert(self@.take(i + 1).drop_last() =~= self@.take(i as int));
            assert(self@.take(i + 1).last() == (
                self.subs@[i as int].owner@,
                self.subs@[i as int].id,
            ));
            if str_eq(self.subs[i].owner.as_str(), ev.owner_id.as_str()) {
                out.push(self.subs[i].id);
            }
            i = i + 1;
        }
        assert(self@.take(self@.len() as int) =~= self@);
        out
    }

    /// Adds a subscription for an owner, under the next id.
    pub fn register(&mut self, owner: &str) -> (id: u64)
        ensures
            id == old(self).next_id,
            final(self)@ == old(self)@.push((owner@, id)),
            final(self).next_id == id.wrapping_add(1),
            final(self).capacity == old(self).capacity,
            old(self).next_is_fresh() && id < u64::MAX ==> final(self).next_is_fresh(),
    {
        let id: u64 = self.next_id;
        self.next_id = id.wrapping_add(1);
        self.subs.push(Subscription { owner: owner.to_owned(), id });
        assert(self@ =~= old(self)@.push((owner@, id)));
        assert(old(self).next_is_fresh() && id < u64::MAX ==> self.next_is_fresh()) by {
            if old(self).next_is_fresh() && id < u64::MAX {
                assert forall|i: int| 0 <= i < self@.len() implies (#[trigger] self@[i]).1
                    < self.next_id by {
                    if i < old(self)@.len() {
                        assert(self@[i] == old(self)@[i]);
                    }
                }
            }
        }
        id
    }

    /// Removes a subscription.
    pub fn unregister(&mut self, owner: &str, id: u64)
        ensures
            final(self)@ == without(old(self)@, owner@, id),
            final(self).next_id == old(self).next_id,
            final(self).capacity == old(self).capacity,
    {
        let ghost all = old(self)@;
        let mut kept: Vec<Subscription> = Vec::new();
        let mut i: usize = 0;
        assert(all.take(0) =~= Seq::<(Seq<char>, u64)>::empty());
        assert(subs_view(kept@) =~= Seq::<(Seq<char>, u64)>::empty());
        while i < self.subs.len()
            invariant
                *self == *old(self),
                all == self@,
                i <= self.subs@.len(),
                subs_view(kept@) == without(all.take(i as int), owner@, id),
            decreases self.subs@.len() - i,
        {
            let ghost before = subs_view(kept@);
            assert(all.take(i + 1).drop_last() =~= all.take(i as int));
            assert(all.take(i + 1).last() == (self.subs@[i as int].owner@, self.subs@[i as int].id));
            let s = &self.subs[i];
            if !(s.id == id && str_eq(s.owner.as_str(), owner)) {
                kept.push(Subscription { owner: s.owner.clone(), id: s.id });
                assert(subs_view(kept@) =~= before.push((s.owner@, s.id)));
            }
            i = i + 1;
        }
        assert(all.take(all.len() as int) =~= all);
        self.subs = kept;
    }
}

/// A queue has a depth of at least one and at most a million.
pub proof fn law_queues_have_a_depth(capacity: usize)
    ensures
        buffer_fault(capacity) is None <==> 1 <= capacity <= 1_000_000,
        buffer_fault(capacity) == Some(BroadcastFault::EmptyBuffer) <==> capacity == 0,
{
}

/// The first endpoint with a fault is refused for it, and there is a refusal only if there is
/// such an endpoint.
pub proof fn law_first_bad_endpoint_is_refused(
    endpoints: Seq<Seq<char>>,
    faults: Seq<Option<Seq<char>>>,
    i: int,
)
    requires
        endpoints.len() == faults.len(),
        0 <= i <= endpoints.len(),
        forall|j: int| 0 <= j < i ==> #[trigger] faults[j] is None,
    ensures
        i == endpoints.len() ==> endpoints_fault(endpoints, faults) is None,
        i < endpoints.len() ==> (faults[i] matches Some(reason) ==> endpoints_fault(
            endpoints,
            faults,
        ) == Some(BroadcastFault::BadEndpoint { endpoint: endpoints[i], reason })),
    decreases endpoints.len(),
{
    if endpoints.len() > 0 && i > 0 {
        let rest = faults.drop_first();
        assert(faults[0] is None);
        assert forall|j: int| 0 <= j < i - 1 implies #[trigger] rest[j] is None by {
            assert(rest[j] == faults[j + 1]);
        }
        law_first_bad_endpoint_is_refused(endpoints.drop_first(), rest, i - 1);
    }
}

/// An event goes to the subscriptions for its owner and to no others.
pub proof fn law_routed_to_owner_only(subs: Subs, owner: Seq<char>, id: u64)
    ensures
        subscribers(subs, owner).contains(id) <==> subs.contains((owner, id)),
    decreases subs.len(),
{
    if subs.len() > 0 {
        let rest = subs.drop_last();
        law_routed_to_owner_only(rest, owner, id);
        let (now, then) = (subscribers(subs, owner), subscribers(rest, owner));
        if subs.contains((owner, id)) {
            let k = subs.index_of((owner, id));
            if k < rest.len() {
                assert(rest[k] == (owner, id));
                let j = then.index_of(id);
                assert(now[j] == id);
            } else {
                assert(now.last() == id);
            }
        }
        if now.contains(id) {
            let j = now.index_of(id);
            if j < then.len() {
                assert(then[j] == id);
                let k = rest.index_of((owner, id));
                assert(subs[k] == (owner, id));
            } else {
                assert(subs.last() == (owner, id));
            }
        }
    }
}

/// An event of this instance goes on to every peer, one from a peer to none, so that it does
/// not go round; both go, unchanged, to the same subscriptions: those for its owner.
pub proof fn law_events_do_not_go_round(b: BroadcasterView, event: EventView, id: u64)
    ensures
        local_delivery(b, event).peers == b.peers,
        peer_delivery(b, event).peers.len() == 0,
        local_delivery(b, event).event == event,
        peer_delivery(b, event).event == event,
        local_delivery(b, event).subscribers.contains(id) <==> b.subs.contains((event.owner, id)),
        peer_delivery(b, event).subscribers == local_delivery(b, event).subscribers,
{
    law_routed_to_owner_only(b.subs, event.owner, id);
}

/// An event names its owner, and no two kinds of events have the same number: `0` is for
/// locks that were given up, `1` for an owner from which they were taken, `2` for one that is
/// asked to give them up.
pub proof fn law_events_are_told_apart(kind: EventType, owner: Seq<char>)
    ensures
        event_of(kind, owner).owner == owner,
        event_of(kind, owner).kind == 0 <==> kind == EventType::Released,
        event_of(kind, owner).kind == 1 <==> kind == EventType::Killed,
        event_of(kind, owner).kind == 2 <==> kind == EventType::Revoke,
{
}

/// A subscription that goes leaves those of other owners as they were.
pub proof fn law_leaving_affects_no_others(subs: Subs, owner: Seq<char>, id: u64, other: Seq<char>)
    requires
        other != owner,
    ensures
        subscribers(without(subs, owner, id), other) == subscribers(subs, other),
    decreases subs.len(),
{
    if subs.len() > 0 {
        let rest = subs.drop_last();
        law_leaving_affects_no_others(rest, owner, id, other);
        if subs.last() != (owner, id) {
            assert(without(subs, owner, id).drop_last() =~= without(rest, owner, id));
        }
    }
}

/// A subscription that has gone gets no events.
pub proof fn law_left_gets_nothing(subs: Subs, owner: Seq<char>, id: u64)
    ensures
        !subscribers(without(subs, owner, id), owner).contains(id),
    decreases subs.len(),
{
    if subs.len() > 0 {
        let rest = subs.drop_last();
        law_left_gets_nothing(rest, owner, id);
        if subs.last() != (owner, id) {
            let kept = without(rest, owner, id);
            assert(without(subs, owner, id).drop_last() =~= kept);
            let (now, then) = (subscribers(kept.push(subs.last()), owner), subscribers(kept, owner));
            if now.contains(id) {
                let j = now.index_of(id);
                if j < then.len() {
                    assert(then[j] == id);
                }
            }
        }
    }
}

/// Unregistering undoes registering: nothing of a subscription is left behind.
pub proof fn law_unregister_undoes_register(subs: Subs, owner: Seq<char>, id: u64)
    requires
        forall|i: int| 0 <= i < subs.len() ==> (#[trigger] subs[i]).1 < id,
    ensures
        without(subs.push((owner, id)), owner, id) == subs,
{
    assert(subs.push((owner, id)).drop_last() =~= subs);
    lemma_nothing_to_remove(subs, owner, id);
}

proof fn lemma_nothing_to_remove(subs: Subs, owner: Seq<char>, id: u64)
    requires
        forall|i: int| 0 <= i < subs.len() ==> (#[trigger] subs[i]).1 < id,
    ensures
        without(subs, owner, id) == subs,
    decreases subs.len(),
{
    if subs.len() > 0 {
        let rest = subs.drop_last();
        assert forall|i: int| 0 <= i < rest.len() implies (#[trigger] rest[i]).1 < id by {
            assert(rest[i] == subs[i]);
        }
        lemma_nothing_to_remove(rest, owner, id);
        assert(subs[subs.len() - 1].1 < id);
        assert(rest.push(subs.last()) =~= subs);
    } else {
        assert(without(subs, owner, id) =~= subs);
    }
}

// ---------------------------------------------------------------------------
// The broadcaster
// ---------------------------------------------------------------------------

/// Why a text is no endpoint, or `None` if it is one.
pub uninterp spec fn endpoint_fault(endpoint: Seq<char>) -> Option<Seq<char>>;

/// `tonic::transport::Endpoint::from_shared`: whether a text is an endpoint, and the
/// text of the error if it is none. The contract names the result; which texts are
/// URIs is left unsaid.
#[verifier::external_body]
fn check_endpoint(endpoint: &str) -> (r: Option<String>)
    ensures
        opt_text(r) == endpoint_fault(endpoint@),
{
    match tonic::transport::Endpoint::from_shared(endpoint.to_owned()) {
        Ok(_) => None,
        Err(e) => Some(e.to_string()),
    }
}

/// The first endpoint with a fault.
pub open spec fn endpoints_fault(
    endpoints: Seq<Seq<char>>,
    faults: Seq<Option<Seq<char>>>,
) -> Option<BroadcastFault>
    decreases endpoints.len(),
{
    if endpoints.len() == 0 {
        None
    } else if let Some(reason) = faults[0] {
        Some(BroadcastFault::BadEndpoint { endpoint: endpoints[0], reason })
    } else {
        endpoints_fault(endpoints.drop_first(), faults.drop_first())
    }
}

pub open spec fn opt_all(v: Seq<Option<String>>) -> Seq<Option<Seq<char>>> {
    Seq::new(v.len(), |i: int| opt_text(v[i]))
}

/// The first endpoint with a fault, given what is wrong with each.
pub fn first_bad_endpoint(endpoints: &Vec<String>, faults: &Vec<Option<String>>) -> (r: Option<
    BroadcastError,
>)
    requires
        endpoints@.len() == faults@.len(),
    ensures
        match (r, endpoints_fault(texts(endpoints@), opt_all(faults@))) {
            (None, None) => true,
            (Some(e), Some(f)) => e@ == f,
            _ => false,
        },
{
    let ghost (all, bad) = (texts(endpoints@), opt_all(faults@));
    let mut i: usize = 0;
    assert(all.skip(0) =~= all && bad.skip(0) =~= bad);
    while i < endpoints.len()
        invariant
            i <= endpoints@.len() == faults@.len(),
            all == texts(endpoints@),
            bad == opt_all(faults@),
            endpoints_fault(all, bad) == endpoints_fault(all.skip(i as int), bad.skip(i as int)),
        decreases endpoints@.len() - i,
    {
        assert(all.skip(i as int)[0] == endpoints@[i as int]@);
        assert(bad.skip(i as int)[0] == opt_text(faults@[i as int]));
        assert(all.skip(i as int).drop_first() =~= all.skip(i + 1));
        assert(bad.skip(i as int).drop_first() =~= bad.skip(i + 1));
        if let Some(reason) = &faults[i] {
            return Some(
                BroadcastError::BadEndpoint {
                    endpoint: endpoints[i].clone(),
                    reason: reason.clone(),
                },
            );
        }
        i = i + 1;
    }
    None
}

/// What is wrong with each endpoint.
pub open spec fn endpoint_faults(endpoints: Seq<Seq<char>>) -> Seq<Option<Seq<char>>> {
    Seq::new(endpoints.len(), |i: int| endpoint_fault(endpoints[i]))
}

/// Where an event goes.
#[derive(Debug, Clone)]
pub struct Delivery {
    pub event: Event,
    /// The subscriptions on this instance.
    pub subscribers: Vec<u64>,
    /// The endpoints of the peers.
    pub peers: Vec<String>,
}

/// Where an event goes.
pub struct DeliveryView {
    pub event: EventView,
    pub subscribers: Seq<u64>,
    pub peers: Seq<Seq<char>>,
}

impl Delivery {
    pub open spec fn view(&self) -> DeliveryView {
        DeliveryView {
            event: self.event@,
            subscribers: self.subscribers@,
            peers: texts(self.peers@),
        }
    }
}

/// The events of an instance: its subscriptions, and its peers.
#[derive(Debug, Clone)]
pub struct Broadcaster {
    pub registry: Registry,
    pub peers: Vec<String>,
}

/// The events of an instance: its subscriptions, and its peers.
pub struct BroadcasterView {
    pub subs: Subs,
    pub next_id: u64,
    pub capacity: usize,
    pub peers: Seq<Seq<char>>,
}

/// Where an event of this instance goes: to the subscriptions for its owner, and to
/// every peer.
pub open spec fn local_delivery(b: BroadcasterView, event: EventView) -> DeliveryView {
    DeliveryView { event, subscribers: subscribers(b.subs, event.owner), peers: b.peers }
}

/// Where an event from a peer goes: to the subscriptions for its owner alone.
pub open spec fn peer_delivery(b: BroadcasterView, event: EventView) -> DeliveryView {
    DeliveryView { event, subscribers: subscribers(b.subs, event.owner), peers: Seq::empty() }
}

/// An event of the given type.
pub open spec fn event_of(kind: EventType, owner: Seq<char>) -> EventView {
    EventView { kind: event_number(kind), owner }
}

fn copy_texts(v: &Vec<String>) -> (r: Vec<String>)
    ensures
        texts(r@) == texts(v@),
{
    let mut out: Vec<String> = Vec::new();
    let mut i: usize = 0;
    while i < v.len()
        invariant
            i <= v@.len(),
            texts(out@) == texts(v@).take(i as int),
        decreases v@.len() - i,
    {
        let ghost before = texts(out@);
        out.push(v[i].clone());
        assert(texts(out@) =~= before.push(v@[i as int]@));
        i = i + 1;
        assert(texts(v@).take(i as int) =~= before.push(texts(v@)[i - 1]));
    }
    assert(texts(v@).take(v@.len() as int) =~= texts(v@));
    out
}

impl Broadcaster {
    pub open spec fn view(&self) -> BroadcasterView {
        BroadcasterView {
            subs: self.registry@,
            next_id: self.registry.next_id,
            capacity: self.registry.capacity,
            peers: texts(self.peers@),
        }
    }

    /// A broadcaster without subscriptions, for the given peers.
    pub fn new(capacity: usize, peer_endpoints: &Vec<String>) -> (r: Result<
        Broadcaster,
        BroadcastError,
    >)
        ensures
            match (r, buffer_fault(capacity)) {
                (Err(e), Some(f)) => e@ == f,
                (Ok(_), Some(_)) => false,
                (Ok(b), None) => {
                    &&& endpoints_fault(
                        texts(peer_endpoints@),
                        endpoint_faults(texts(peer_endpoints@)),
                    ) is None
                    &&& b@ == (BroadcasterView {
                        subs: Seq::empty(),
                        next_id: 0,
                        capacity,
                        peers: texts(peer_endpoints@),
                    })
                },
                (Err(e), None) => endpoints_fault(
                    texts(peer_endpoints@),
                    endpoint_faults(texts(peer_endpoints@)),
                ) == Some(e@),
            },
    {
        let registry = match Registry::new(capacity) {
            Err(e) => {
                return Err(e);
            },
            Ok(registry) => registry,
        };
        let mut faults: Vec<Option<String>> = Vec::new();
        let mut i: usize = 0;
        while i < peer_endpoints.len()
            invariant
                i <= peer_endpoints@.len(),
                faults@.len() == i,
                forall|k: int|
                    0 <= k < i ==> opt_text(#[trigger] faults@[k]) == endpoint_fault(
                        peer_endpoints@[k]@,
                    ),
            decreases peer_endpoints@.len() - i,
        {
            faults.push(check_endpoint(peer_endpoints[i].as_str()));
            i = i + 1;
        }
        assert(opt_all(faults@) =~= endpoint_faults(texts(peer_endpoints@)));
        match first_bad_endpoint(peer_endpoints, &faults) {
            Some(e) => Err(e),
            None => {
                let b = Broadcaster { registry, peers: copy_texts(peer_endpoints) };
                assert(b@.subs =~= Seq::<(Seq<char>, u64)>::empty());
                Ok(b)
            },
        }
    }

    /// Adds a subscription for an owner.
    pub fn subscribe(&mut self, owner: &str) -> (r: Subscription)
        ensures
            r.owner@ == owner@,
            r.id == old(self)@.next_id,
            final(self)@ == (BroadcasterView {
                subs: old(self)@.subs.push((owner@, r.id)),
                next_id: r.id.wrapping_add(1),
                ..old(self)@
            }),
    {
        let id = self.registry.register(owner);
        Subscription { owner: owner.to_owned(), id }
    }

    /// Removes a subscription.
    pub fn unsubscribe(&mut self, sub: &Subscription)
        ensures
            final(self)@ == (BroadcasterView {
                subs: without(old(self)@.subs, sub.owner@, sub.id),
                ..old(self)@
            }),
    {
        self.registry.unregister(sub.owner.as_str(), sub.id);
    }

    /// Where an event of this instance goes.
    pub fn publish_local(&self, ev: Event) -> (r: Delivery)
        ensures
            r@ == local_delivery(self@, ev@),
    {
        let subscribers = self.registry.route(&ev);
        Delivery { event: ev, subscribers, peers: copy_texts(&self.peers) }
    }

    /// Where an event from a peer goes. It is not forwarded again.
    pub fn publish_from_peer(&self, ev: Event) -> (r: Delivery)
        ensures
            r@ == peer_delivery(self@, ev@),
    {
        let subscribers = self.registry.route(&ev);
        let peers: Vec<String> = Vec::new();
        assert(texts(peers@) =~= Seq::<Seq<char>>::empty());
        Delivery { event: ev, subscribers, peers }
    }

    /// Locks of an owner were given up.
    pub fn released(&self, owner: &str) -> (r: Delivery)
        ensures
            r@ == local_delivery(self@, event_of(EventType::Released, owner@)),
    {
        self.publish_local(
            Event { kind: EventType::Released.number(), owner_id: owner.to_owned() },
        )
    }

    /// An owner lost its locks.
    pub fn killed(&self, owner: &str) -> (r: Delivery)
        ensures
            r@ == local_delivery(self@, event_of(EventType::Killed, owner@)),
    {
        self.publish_local(Event { kind: EventType::Killed.number(), owner_id: owner.to_owned() })
    }

    /// An owner is asked to give up its locks.
    pub fn revoke(&self, owner: &str) -> (r: Delivery)
        ensures
            r@ == local_delivery(self@, event_of(EventType::Revoke, owner@)),
    {
        self.publish_local(Event { kind: EventType::Revoke.number(), owner_id: owner.to_owned() })
    }
}

} // verus!
