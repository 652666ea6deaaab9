//! The router: what one frame from one connection does to the registry and
//! to the peers' interest sets, and which frames go out because of it.
//!
//! The router sends nothing itself. It hands back a list of deliveries, made
//! while it has the registry and the peer map to itself; whoever holds the
//! connections sends them afterwards, with no shared state held.

use crate::buffer::bytes_contents;
use crate::connection::{Connection, ConnectionView, Inbound, Role};
use crate::federation::{
    addresses, connected, distinct_peers, distinct_peers_are_kept, interested_in,
    interested_in_lists_each_once, next_action, next_phase, peer_wants, peers_after, texts,
    with_interest, without_interest, Federation, FederationView, LinkAction, LinkEvent, LinkPhase,
    PeerLink, PeerLinkView,
};
use crate::flags::{decode, decoded_is_encodable, encode, Msg, MsgView};
use crate::registry::{
    cleanup_subscriptions, disconnected, empty_registry, membership_after_step, subscribed,
    unsubscribed,
    well_formed, well_formed_after_disconnect, well_formed_is_kept, without_keeps_others, Registry,
    RegistryOp, RegistryView,
};
use bytes::Bytes;
use vstd::prelude::*;

verus! {

/// Where a frame is to be sent.
#[derive(Debug, Clone, PartialEq, Eq)]
pub enum Target {
    /// The local client with this identifier.
    Client(u32),
    /// The peer broker at this address.
    Peer(String),
}

/// Where a frame is to be sent, as a mathematical object.
pub enum TargetView {
    Client(u32),
    Peer(Seq<char>),
}

impl View for Target {
    type V = TargetView;

    open spec fn view(&self) -> TargetView {
        match self {
            Target::Client(id) => TargetView::Client(*id),
            Target::Peer(address) => TargetView::Peer(address@),
        }
    }
}

/// One frame for one receiver.
#[derive(Debug, Clone, PartialEq, Eq)]
pub struct Delivery {
    pub target: Target,
    pub frame: Bytes,
}

/// One frame for one receiver, as a mathematical object.
pub struct DeliveryView {
    pub target: TargetView,
    pub frame: Seq<u8>,
}

impl View for Delivery {
    type V = DeliveryView;

    open spec fn view(&self) -> DeliveryView {
        DeliveryView { target: self.target@, frame: bytes_contents(&self.frame) }
    }
}

/// What each delivery of a list says.
pub open spec fn deliveries(v: Seq<Delivery>) -> Seq<DeliveryView> {
    v.map_values(|d: Delivery| d@)
}

/// `frame` for each of the clients `ids`, in their order.
pub open spec fn to_clients(ids: Seq<u32>, frame: Seq<u8>) -> Seq<DeliveryView> {
    Seq::new(ids.len(), |i: int| DeliveryView { target: TargetView::Client(ids[i]), frame })
}

/// `frame` for each of the peers at `addrs`, in their order.
pub open spec fn to_peers(addrs: Seq<Seq<char>>, frame: Seq<u8>) -> Seq<DeliveryView> {
    Seq::new(addrs.len(), |i: int| DeliveryView { target: TargetView::Peer(addrs[i]), frame })
}

/// The router's state as a mathematical object.
pub struct RouterView {
    pub registry: RegistryView,
    pub peers: FederationView,
}

/// Whether what arrives on `c` is a peer broker speaking: the connection is
/// a link to a peer, or it comes from the address of a connected peer.
pub open spec fn is_peer_traffic(peers: FederationView, c: ConnectionView) -> bool {
    c.role == Role::PeerLink || connected(peers, c.address)
}

/// The state after the message `m` arrived on `c`.
pub open spec fn routed(s: RouterView, c: ConnectionView, m: MsgView) -> RouterView {
    let peer = is_peer_traffic(s.peers, c);
    match m {
        MsgView::Subscribe(topic) => if peer {
            RouterView { registry: s.registry, peers: with_interest(s.peers, c.address, topic) }
        } else {
            RouterView { registry: subscribed(s.registry, topic, c.id), peers: s.peers }
        },
        MsgView::Unsubscribe(topic) => if peer {
            RouterView { registry: s.registry, peers: without_interest(s.peers, c.address, topic) }
        } else {
            RouterView { registry: unsubscribed(s.registry, topic, c.id), peers: s.peers }
        },
        MsgView::Publish(_, _) => s,
    }
}

/// The connection `c` after the message `m` arrived on it: its set of
/// topics follows its subscriptions.
pub open spec fn noted(c: ConnectionView, m: MsgView) -> ConnectionView {
    match m {
        MsgView::Subscribe(topic) => ConnectionView { topics: c.topics.insert(topic), ..c },
        MsgView::Unsubscribe(topic) => ConnectionView { topics: c.topics.remove(topic), ..c },
        MsgView::Publish(_, _) => c,
    }
}

/// The frames that go out because the message `m` arrived on `c`.
///
/// A subscription of a local client is announced to every connected peer.
/// A published message goes to every local subscriber of its topic and,
/// unless a peer sent it, to every peer that asked for the topic.
pub open spec fn sent(s: RouterView, c: ConnectionView, m: MsgView) -> Seq<DeliveryView> {
    let peer = is_peer_traffic(s.peers, c);
    match m {
        MsgView::Subscribe(_) => if peer {
            Seq::empty()
        } else {
            to_peers(addresses(s.peers), encode(m))
        },
        MsgView::Unsubscribe(_) => Seq::empty(),
        MsgView::Publish(topic, _) => to_clients(s.registry[topic], encode(m)) + if peer {
            Seq::empty()
        } else {
            to_peers(interested_in(s.peers, topic), encode(m))
        },
    }
}

/// The state after the connection `c` ended: its identifier is taken out of
/// the topics that were subscribed to over it.
pub open spec fn dropped(s: RouterView, c: ConnectionView) -> RouterView {
    RouterView { registry: disconnected(s.registry, c.topics, c.id), peers: s.peers }
}

/// The message that an inbound event carries, if it carries one.
pub open spec fn carried(event: Inbound) -> Option<MsgView> {
    match event {
        Inbound::Data(frame) => decode(bytes_contents(&frame)),
        _ => None,
    }
}

/// What the owner of a connection is to do after an inbound event.
pub struct Outcome {
    /// The frames to send, in this order.
    pub deliveries: Vec<Delivery>,
    /// Whether the connection has ended and is to be read no further.
    pub finished: bool,
}

/// Appends one delivery of `frame` for each client in `ids`.
fn push_for_clients(out: &mut Vec<Delivery>, ids: &Vec<u32>, frame: &Bytes)
    ensures
        deliveries(final(out)@) == deliveries(old(out)@) + to_clients(
            ids@,
            bytes_contents(frame),
        ),
{
    let mut i: usize = 0;
    assert(deliveries(out@) =~= deliveries(old(out)@) + to_clients(
        ids@.take(0),
        bytes_contents(frame),
    ));
    while i < ids.len()
        invariant
            i <= ids@.len(),
            deliveries(out@) == deliveries(old(out)@) + to_clients(
                ids@.take(i as int),
                bytes_contents(frame),
            ),
        decreases ids@.len() - i,
    {
        let ghost before = out@;
        out.push(Delivery { target: Target::Client(ids[i]), frame: frame.clone() });
        assert(deliveries(out@) =~= deliveries(before).push(
            DeliveryView { target: TargetView::Client(ids@[i as int]), frame: bytes_contents(frame) },
        ));
        assert(to_clients(ids@.take(i + 1), bytes_contents(frame)) =~= to_clients(
            ids@.take(i as int),
            bytes_contents(frame),
        ).push(
            DeliveryView { target: TargetView::Client(ids@[i as int]), frame: bytes_contents(frame) },
        ));
        i += 1;
    }
    assert(ids@.take(ids@.len() as int) == ids@);
}

/// Appends one delivery of `frame` for each peer in `addrs`.
fn push_for_peers(out: &mut Vec<Delivery>, addrs: &Vec<String>, frame: &Bytes)
    ensures
        deliveries(final(out)@) == deliveries(old(out)@) + to_peers(
            texts(addrs@),
            bytes_contents(frame),
        ),
{
    let mut i: usize = 0;
    assert(deliveries(out@) =~= deliveries(old(out)@) + to_peers(
        texts(addrs@).take(0),
        bytes_contents(frame),
    ));
    while i < addrs.len()
        invariant
            i <= addrs@.len(),
            deliveries(out@) == deliveries(old(out)@) + to_peers(
                texts(addrs@).take(i as int),
                bytes_contents(frame),
            ),
        decreases addrs@.len() - i,
    {
        let ghost before = out@;
        out.push(Delivery { target: Target::Peer(addrs[i].clone()), frame: frame.clone() });
        assert(deliveries(out@) =~= deliveries(before).push(
            DeliveryView {
                target: TargetView::Peer(texts(addrs@)[i as int]),
                frame: bytes_contents(frame),
            },
        ));
        assert(to_peers(texts(addrs@).take(i + 1), bytes_contents(frame)) =~= to_peers(
            texts(addrs@).take(i as int),
            bytes_contents(frame),
        ).push(
            DeliveryView {
                target: TargetView::Peer(texts(addrs@)[i as int]),
                frame: bytes_contents(frame),
            },
        ));
        i += 1;
    }
    assert(texts(addrs@).take(addrs@.len() as int) == texts(addrs@));
}

/// The registry and the peer map, and the rules by which frames change them.
pub struct Router {
    registry: Registry,
    federation: Federation,
}

impl View for Router {
    type V = RouterView;

    closed spec fn view(&self) -> RouterView {
        RouterView { registry: self.registry@, peers: self.federation@ }
    }
}

impl Router {
    /// A router over the given registry and peer map.
    pub fn new(registry: Registry, federation: Federation) -> (r: Router)
        ensures
            r@ == (RouterView { registry: registry@, peers: federation@ }),
    {
        Router { registry, federation }
    }

    /// The subscription registry.
    pub fn registry(&self) -> (r: &Registry)
        ensures
            r@ == self@.registry,
    {
        &self.registry
    }

    /// The connected peers.
    pub fn federation(&self) -> (f: &Federation)
        ensures
            f@ == self@.peers,
    {
        &self.federation
    }

    /// Tells whether what arrives on `origin` is a peer broker speaking.
    pub fn from_peer(&self, origin: &Connection) -> (r: bool)
        ensures
            r == is_peer_traffic(self@.peers, origin@),
    {
        match origin.role() {
            Role::PeerLink => true,
            Role::LocalClient => self.federation.is_peer(origin.address()),
        }
    }

    /// Handles one message that arrived on `origin`: brings the registry,
    /// the peers' interest sets and the connection's own set of topics up
    /// to date, and hands back the frames to send.
    pub fn route(&mut self, origin: &mut Connection, msg: Msg) -> (out: Vec<Delivery>)
        requires
            msg@.encodable(),
        ensures
            final(self)@ == routed(old(self)@, old(origin)@, msg@),
            final(origin)@ == noted(old(origin)@, msg@),
            deliveries(out@) == sent(old(self)@, old(origin)@, msg@),
    {
        let peer = self.from_peer(origin);
        let mut out: Vec<Delivery> = Vec::new();
        assert(deliveries(out@) =~= Seq::<DeliveryView>::empty());
        match msg {
            Msg::SUBSCRIBE(topic) => {
                origin.track(topic.clone());
                if peer {
                    self.federation.add_interest(origin.address(), &topic);
                } else {
                    self.registry.add_subscriber(topic.clone(), origin.id());
                    let peers = self.federation.peers();
                    let frame = Msg::build_message(Msg::SUBSCRIBE(topic));
                    push_for_peers(&mut out, &peers, &frame);
                }
            },
            Msg::UNSUBSCRIBE(topic) => {
                origin.untrack(&topic);
                if peer {
                    self.federation.remove_interest(origin.address(), &topic);
                } else {
                    self.registry.remove_subscriber(&topic, origin.id());
                }
            },
            Msg::PUBLISH(topic, payload) => {
                let ids = self.registry.fan_out(&topic);
                let peers = if peer {
                    Vec::new()
                } else {
                    self.federation.interested_peers(&topic)
                };
                let frame = Msg::build_message(Msg::PUBLISH(topic, payload));
                push_for_clients(&mut out, &ids, &frame);
                push_for_peers(&mut out, &peers, &frame);
                assert(peer ==> texts(peers@) =~= Seq::<Seq<char>>::empty());
            },
        }
        assert(deliveries(out@) =~= sent(old(self)@, old(origin)@, msg@));
        out
    }

    /// Takes note of what the transport reports of the link to a peer, and
    /// says what is to be done next for that link. The registry is left as
    /// it is.
    pub fn on_link_event(&mut self, link: &mut PeerLink, event: LinkEvent) -> (action: LinkAction)
        ensures
            action == next_action(old(link)@.phase, event, old(link)@.backoff_secs),
            final(link)@ == (PeerLinkView {
                phase: next_phase(old(link)@.phase, event),
                ..old(link)@
            }),
            final(self)@ == (RouterView {
                registry: old(self)@.registry,
                peers: peers_after(
                    old(self)@.peers,
                    old(link)@.address,
                    old(link)@.phase,
                    event,
                ),
            }),
    {
        self.federation.on_link_event(link, event)
    }

    /// Takes note that the connection `conn` has ended: whatever the
    /// registry lists under its identifier and the topics subscribed to
    /// over it is taken out.
    pub fn disconnect(&mut self, conn: &Connection)
        ensures
            final(self)@ == dropped(old(self)@, conn@),
    {
        cleanup_subscriptions(&mut self.registry, conn.topics(), conn.id());
    }

    /// Handles what arrived on `conn`. A frame that decodes is routed.
    /// Anything else ends the connection: a close or control message, a
    /// transport error, and a frame that does not decode.
    pub fn receive(&mut self, conn: &mut Connection, event: Inbound) -> (r: Outcome)
        ensures
            match carried(event) {
                Some(m) => {
                    &&& !r.finished
                    &&& final(self)@ == routed(old(self)@, old(conn)@, m)
                    &&& final(conn)@ == noted(old(conn)@, m)
                    &&& deliveries(r.deliveries@) == sent(old(self)@, old(conn)@, m)
                },
                None => {
                    &&& r.finished
                    &&& final(self)@ == dropped(old(self)@, old(conn)@)
                    &&& final(conn)@ == old(conn)@
                    &&& r.deliveries@.len() == 0
                },
            },
    {
        let parsed = match event {
            Inbound::Data(frame) => {
                proof {
                    if decode(bytes_contents(&frame)) is Some {
                        decoded_is_encodable(bytes_contents(&frame));
                    }
                }
                Msg::parse_message(frame)
            },
            _ => None,
        };
        match parsed {
            Some(msg) => {
                let out = self.route(conn, msg);
                Outcome { deliveries: out, finished: false }
            },
            None => {
                self.disconnect(conn);
                Outcome { deliveries: Vec::new(), finished: true }
            },
        }
    }
}

/// The number of deliveries in `out` that go to `target`.
pub open spec fn copies_for(out: Seq<DeliveryView>, target: TargetView) -> nat
    decreases out.len(),
{
    if out.len() == 0 {
        0
    } else {
        copies_for(out.drop_last(), target) + if out.last().target == target {
            1nat
        } else {
            0nat
        }
    }
}

/// The copies in two lists add up.
pub proof fn copies_add_up(a: Seq<DeliveryView>, b: Seq<DeliveryView>, target: TargetView)
    ensures
        copies_for(a + b, target) == copies_for(a, target) + copies_for(b, target),
    decreases b.len(),
{
    if b.len() == 0 {
        assert(a + b == a);
    } else {
        assert((a + b).drop_last() == a + b.drop_last());
        copies_add_up(a, b.drop_last(), target);
    }
}

/// A list in which no delivery goes to `target` holds no copy for it.
pub proof fn copies_none(out: Seq<DeliveryView>, target: TargetView)
    requires
        forall|i: int| 0 <= i < out.len() ==> (#[trigger] out[i]).target != target,
    ensures
        copies_for(out, target) == 0,
    decreases out.len(),
{
    if out.len() > 0 {
        copies_none(out.drop_last(), target);
    }
}

/// A list in which the delivery at `k`, and no other, goes to `target`
/// holds one copy for it.
pub proof fn copies_one(out: Seq<DeliveryView>, target: TargetView, k: int)
    requires
        0 <= k < out.len(),
        forall|i: int| 0 <= i < out.len() ==> ((#[trigger] out[i]).target == target <==> i == k),
    ensures
        copies_for(out, target) == 1,
    decreases out.len(),
{
    if k == out.len() - 1 {
        copies_none(out.drop_last(), target);
    } else {
        copies_one(out.drop_last(), target, k);
    }
}

/// Every frame that goes out because of one message is the same frame: the
/// encoding of that message.
pub proof fn one_frame_for_all(s: RouterView, c: ConnectionView, m: MsgView, i: int)
    requires
        0 <= i < sent(s, c, m).len(),
    ensures
        sent(s, c, m)[i].frame == encode(m),
{
}

/// A published message goes once to each local subscriber of its topic and
/// to no other local client, whoever published it.
pub proof fn publish_reaches_each_subscriber_once(
    s: RouterView,
    c: ConnectionView,
    topic: Seq<char>,
    payload: Seq<u8>,
    id: u32,
)
    requires
        s.registry[topic].no_duplicates(),
    ensures
        copies_for(sent(s, c, MsgView::Publish(topic, payload)), TargetView::Client(id)) == if s.registry[topic].contains(
            id,
        ) {
            1nat
        } else {
            0nat
        },
{
    let m = MsgView::Publish(topic, payload);
    let ids = s.registry[topic];
    let local = to_clients(ids, encode(m));
    let remote = if is_peer_traffic(s.peers, c) {
        Seq::<DeliveryView>::empty()
    } else {
        to_peers(interested_in(s.peers, topic), encode(m))
    };
    let target = TargetView::Client(id);
    copies_add_up(local, remote, target);
    copies_none(remote, target);
    if ids.contains(id) {
        let k = choose|k: int| 0 <= k < ids.len() && ids[k] == id;
        assert forall|i: int| 0 <= i < local.len() implies ((#[trigger] local[i]).target == target
            <==> i == k) by {
            if i != k {
                assert(ids[i] != ids[k]);
            }
        }
        copies_one(local, target, k);
    } else {
        assert forall|i: int| 0 <= i < local.len() implies (#[trigger] local[i]).target
            != target by {
            assert(ids[i] != id);
        }
        copies_none(local, target);
    }
}

/// A message that a local client published goes once to each connected
/// peer that asked for its topic, and to no other peer.
pub proof fn publish_reaches_each_interested_peer_once(
    s: RouterView,
    c: ConnectionView,
    topic: Seq<char>,
    payload: Seq<u8>,
    address: Seq<char>,
)
    requires
        distinct_peers(s.peers),
        !is_peer_traffic(s.peers, c),
    ensures
        copies_for(sent(s, c, MsgView::Publish(topic, payload)), TargetView::Peer(address)) == if peer_wants(
            s.peers,
            address,
            topic,
        ) {
            1nat
        } else {
            0nat
        },
{
    let m = MsgView::Publish(topic, payload);
    let local = to_clients(s.registry[topic], encode(m));
    let names = interested_in(s.peers, topic);
    let remote = to_peers(names, encode(m));
    let target = TargetView::Peer(address);
    copies_add_up(local, remote, target);
    copies_none(local, target);
    interested_in_lists_each_once(s.peers, topic);
    if peer_wants(s.peers, address, topic) {
        assert(names.contains(address));
        let k = choose|k: int| 0 <= k < names.len() && names[k] == address;
        assert forall|i: int| 0 <= i < remote.len() implies ((#[trigger] remote[i]).target == target
            <==> i == k) by {
            if i != k {
                assert(names[i] != names[k]);
            }
        }
        copies_one(remote, target, k);
    } else {
        assert(!names.contains(address));
        assert forall|i: int| 0 <= i < remote.len() implies (#[trigger] remote[i]).target
            != target by {
            assert(names[i] != address);
        }
        copies_none(remote, target);
    }
}

/// A message that a peer broker published is forwarded to no peer.
pub proof fn peer_publish_stays_local(
    s: RouterView,
    c: ConnectionView,
    topic: Seq<char>,
    payload: Seq<u8>,
    address: Seq<char>,
)
    requires
        is_peer_traffic(s.peers, c),
    ensures
        copies_for(sent(s, c, MsgView::Publish(topic, payload)), TargetView::Peer(address)) == 0,
{
    let m = MsgView::Publish(topic, payload);
    let local = to_clients(s.registry[topic], encode(m));
    assert(sent(s, c, m) == local + Seq::<DeliveryView>::empty());
    assert(local + Seq::<DeliveryView>::empty() == local);
    copies_none(local, TargetView::Peer(address));
}

/// One message as it arrives: the connection it came on, and what it says.
pub struct Arrival {
    pub from: ConnectionView,
    pub msg: MsgView,
}

/// The router's state after the arrivals `later`, first to last.
pub open spec fn run(s: RouterView, later: Seq<Arrival>) -> RouterView
    decreases later.len(),
{
    if later.len() == 0 {
        s
    } else {
        routed(run(s, later.drop_last()), later.last().from, later.last().msg)
    }
}

/// Whether `a` is the client `id` subscribing to `topic`.
pub open spec fn subscribes(a: Arrival, topic: Seq<char>, id: u32) -> bool {
    a.msg == MsgView::Subscribe(topic) && a.from.id == id
}

/// Whether `a` is the client `id` unsubscribing from `topic`.
pub open spec fn unsubscribes(a: Arrival, topic: Seq<char>, id: u32) -> bool {
    a.msg == MsgView::Unsubscribe(topic) && a.from.id == id
}

/// What one arrival does to who is subscribed: nobody leaves a topic but
/// by unsubscribing under its own identifier, and nobody joins one but by
/// subscribing under its own identifier. The registry stays well-formed and
/// the peers keep distinct addresses.
pub proof fn arrival_changes_only_its_own(s: RouterView, a: Arrival, topic: Seq<char>, id: u32)
    requires
        well_formed(s.registry),
    ensures
        well_formed(routed(s, a.from, a.msg).registry),
        distinct_peers(s.peers) ==> distinct_peers(routed(s, a.from, a.msg).peers),
        s.registry[topic].contains(id) && !unsubscribes(a, topic, id) ==> routed(
            s,
            a.from,
            a.msg,
        ).registry[topic].contains(id),
        !s.registry[topic].contains(id) && !subscribes(a, topic, id) ==> !routed(
            s,
            a.from,
            a.msg,
        ).registry[topic].contains(id),
{
    let peer = is_peer_traffic(s.peers, a.from);
    match a.msg {
        MsgView::Subscribe(t) => {
            let op = RegistryOp::Subscribe { topic: t, id: a.from.id };
            if !peer {
                well_formed_is_kept(s.registry, op);
                membership_after_step(s.registry, op, topic, id);
            }
            if distinct_peers(s.peers) {
                distinct_peers_are_kept(s.peers, a.from.address, t);
            }
        },
        MsgView::Unsubscribe(t) => {
            let op = RegistryOp::Unsubscribe { topic: t, id: a.from.id };
            if !peer {
                well_formed_is_kept(s.registry, op);
                membership_after_step(s.registry, op, topic, id);
            }
            if distinct_peers(s.peers) {
                distinct_peers_are_kept(s.peers, a.from.address, t);
            }
        },
        MsgView::Publish(_, _) => {},
    }
}

/// Once a local client has subscribed to a topic, and whatever arrives
/// afterwards on whatever connection, as long as nothing unsubscribes its
/// identifier from that topic: a message published on the topic goes to
/// the client exactly once.
pub proof fn subscriber_is_served_once(
    s: RouterView,
    c: ConnectionView,
    topic: Seq<char>,
    later: Seq<Arrival>,
    publisher: ConnectionView,
    payload: Seq<u8>,
)
    requires
        well_formed(s.registry),
        !is_peer_traffic(s.peers, c),
        forall|i: int| 0 <= i < later.len() ==> !unsubscribes(#[trigger] later[i], topic, c.id),
    ensures
        well_formed(run(routed(s, c, MsgView::Subscribe(topic)), later).registry),
        run(routed(s, c, MsgView::Subscribe(topic)), later).registry[topic].contains(c.id),
        copies_for(
            sent(
                run(routed(s, c, MsgView::Subscribe(topic)), later),
                publisher,
                MsgView::Publish(topic, payload),
            ),
            TargetView::Client(c.id),
        ) == 1,
    decreases later.len(),
{
    let start = routed(s, c, MsgView::Subscribe(topic));
    let first = Arrival { from: c, msg: MsgView::Subscribe(topic) };
    if later.len() == 0 {
        arrival_changes_only_its_own(s, first, topic, c.id);
        membership_after_step(
            s.registry,
            RegistryOp::Subscribe { topic, id: c.id },
            topic,
            c.id,
        );
    } else {
        subscriber_is_served_once(s, c, topic, later.drop_last(), publisher, payload);
        arrival_changes_only_its_own(run(start, later.drop_last()), later.last(), topic, c.id);
    }
    let end = run(start, later);
    assert(end.registry.dom().contains(topic));
    publish_reaches_each_subscriber_once(end, publisher, topic, payload, c.id);
}

/// Once a local client has unsubscribed from a topic, and whatever arrives
/// afterwards on whatever connection, as long as nothing subscribes its
/// identifier to that topic again: no message published on the topic goes
/// to the client.
pub proof fn unsubscribed_is_not_served(
    s: RouterView,
    c: ConnectionView,
    topic: Seq<char>,
    later: Seq<Arrival>,
    publisher: ConnectionView,
    payload: Seq<u8>,
)
    requires
        well_formed(s.registry),
        !is_peer_traffic(s.peers, c),
        forall|i: int| 0 <= i < later.len() ==> !subscribes(#[trigger] later[i], topic, c.id),
    ensures
        well_formed(run(routed(s, c, MsgView::Unsubscribe(topic)), later).registry),
        !run(routed(s, c, MsgView::Unsubscribe(topic)), later).registry[topic].contains(c.id),
        copies_for(
            sent(
                run(routed(s, c, MsgView::Unsubscribe(topic)), later),
                publisher,
                MsgView::Publish(topic, payload),
            ),
            TargetView::Client(c.id),
        ) == 0,
    decreases later.len(),
{
    let start = routed(s, c, MsgView::Unsubscribe(topic));
    let first = Arrival { from: c, msg: MsgView::Unsubscribe(topic) };
    if later.len() == 0 {
        arrival_changes_only_its_own(s, first, topic, c.id);
        membership_after_step(
            s.registry,
            RegistryOp::Unsubscribe { topic, id: c.id },
            topic,
            c.id,
        );
    } else {
        unsubscribed_is_not_served(s, c, topic, later.drop_last(), publisher, payload);
        arrival_changes_only_its_own(run(start, later.drop_last()), later.last(), topic, c.id);
    }
    let end = run(start, later);
    assert(end.registry.dom().contains(topic));
    publish_reaches_each_subscriber_once(end, publisher, topic, payload, c.id);
}

/// Whether the connection's own set of topics names every topic under
/// which the registry lists its identifier.
pub open spec fn covers(s: RouterView, c: ConnectionView) -> bool {
    forall|t: Seq<char>| (#[trigger] s.registry[t]).contains(c.id) ==> c.topics.contains(t)
}

/// A client's set of topics keeps up with the registry: it covers the
/// client's entries when the client connects under an identifier that the
/// registry does not list, it still does after each of the client's own
/// frames, and after each frame of a connection with another identifier.
pub proof fn topics_keep_up(s: RouterView, c: ConnectionView, a: Arrival)
    requires
        well_formed(s.registry),
    ensures
        (forall|t: Seq<char>| !(#[trigger] s.registry[t]).contains(c.id)) ==> covers(s, c),
        covers(s, c) && a.from == c && !is_peer_traffic(s.peers, c) ==> covers(
            routed(s, c, a.msg),
            noted(c, a.msg),
        ),
        covers(s, c) && a.from.id != c.id ==> covers(routed(s, a.from, a.msg), c),
{
    if covers(s, c) && a.from == c && !is_peer_traffic(s.peers, c) {
        let after = routed(s, c, a.msg);
        assert forall|t: Seq<char>| (#[trigger] after.registry[t]).contains(c.id) implies noted(
            c,
            a.msg,
        ).topics.contains(t) by {
            arrival_changes_only_its_own(s, a, t, c.id);
            assert(s.registry[t].contains(c.id) || subscribes(a, t, c.id));
            match a.msg {
                MsgView::Unsubscribe(u) => {
                    if u == t {
                        membership_after_step(
                            s.registry,
                            RegistryOp::Unsubscribe { topic: u, id: c.id },
                            t,
                            c.id,
                        );
                    }
                },
                _ => {},
            }
        }
    }
    if covers(s, c) && a.from.id != c.id {
        let after = routed(s, a.from, a.msg);
        assert forall|t: Seq<char>| (#[trigger] after.registry[t]).contains(c.id) implies c.topics.contains(
            t,
        ) by {
            arrival_changes_only_its_own(s, a, t, c.id);
        }
    }
}

/// After a connection ended, no message published on a topic that was
/// subscribed to over it goes to it. Where its set of topics covers its
/// entries, the registry lists it under no topic at all.
pub proof fn disconnected_is_not_served(
    s: RouterView,
    c: ConnectionView,
    publisher: ConnectionView,
    topic: Seq<char>,
    payload: Seq<u8>,
)
    requires
        well_formed(s.registry),
    ensures
        well_formed(dropped(s, c).registry),
        c.topics.contains(topic) || covers(s, c) ==> copies_for(
            sent(dropped(s, c), publisher, MsgView::Publish(topic, payload)),
            TargetView::Client(c.id),
        ) == 0,
        covers(s, c) ==> forall|t: Seq<char>| !(#[trigger] dropped(s, c).registry[t]).contains(c.id),
{
    let after = dropped(s, c);
    well_formed_after_disconnect(s.registry, c.topics, c.id);
    assert forall|t: Seq<char>|
        c.topics.contains(t) || covers(s, c) implies !(#[trigger] after.registry[t]).contains(
        c.id,
    ) by {
        without_keeps_others(s.registry[t], c.id);
    }
    assert(after.registry.dom().contains(topic));
    publish_reaches_each_subscriber_once(after, publisher, topic, payload, c.id);
}

/// One thing that happens to a broker.
pub enum Happening {
    /// A message arrives on a connection.
    Message(Arrival),
    /// The transport reports of the link to the peer at `address`, which
    /// stands in `phase`.
    Link { address: Seq<char>, phase: LinkPhase, event: LinkEvent },
    /// A connection ends.
    End(ConnectionView),
}

/// The router's state after `h` happened.
pub open spec fn after(s: RouterView, h: Happening) -> RouterView {
    match h {
        Happening::Message(a) => routed(s, a.from, a.msg),
        Happening::Link { address, phase, event } => RouterView {
            registry: s.registry,
            peers: peers_after(s.peers, address, phase, event),
        },
        Happening::End(c) => dropped(s, c),
    }
}

/// The state of a router that started without subscribers and without
/// peers, after all of `past` happened, first to last.
pub open spec fn state_after(past: Seq<Happening>) -> RouterView
    decreases past.len(),
{
    if past.len() == 0 {
        RouterView { registry: empty_registry(), peers: Seq::empty() }
    } else {
        after(state_after(past.drop_last()), past.last())
    }
}

/// Whatever happens to a broker, in whatever order: its registry lists
/// nobody twice under one topic, and no two of its peers share an address.
pub proof fn every_state_is_sound(past: Seq<Happening>)
    ensures
        well_formed(state_after(past).registry),
        distinct_peers(state_after(past).peers),
    decreases past.len(),
{
    if past.len() == 0 {
        well_formed_is_kept(empty_registry(), RegistryOp::Publish { topic: Seq::empty() });
    } else {
        let before = state_after(past.drop_last());
        every_state_is_sound(past.drop_last());
        match past.last() {
            Happening::Message(a) => {
                arrival_changes_only_its_own(before, a, Seq::empty(), 0);
            },
            Happening::Link { address, phase, event } => {
                distinct_peers_are_kept(before.peers, address, Seq::empty());
            },
            Happening::End(c) => {
                well_formed_after_disconnect(before.registry, c.topics, c.id);
            },
        }
    }
}

} // verus!
