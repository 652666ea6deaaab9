use autobahn::connection::{Connection, Inbound, Role, CLIENT_ID_SPACE, PEER_LINK_ID};
use autobahn::federation::{Federation, LinkEvent, PeerLink};
use autobahn::flags::Msg;
use autobahn::registry::Registry;
use autobahn::router::{Delivery, Router, Target};
use bytes::Bytes;

fn t(s: &str) -> String {
    s.to_string()
}

fn broker() -> Router {
    Router::new(Registry::new(), Federation::new())
}

fn broker_with_peers(peers: &[&str]) -> Router {
    let mut r = broker();
    for p in peers {
        let mut link = PeerLink::new(t(p), 5);
        r.on_link_event(&mut link, LinkEvent::Established);
    }
    r
}

fn publish_frame(topic: &str, payload: &[u8]) -> Bytes {
    Msg::build_message(Msg::PUBLISH(t(topic), Bytes::copy_from_slice(payload)))
}

fn copies_for(out: &[Delivery], target: &Target) -> usize {
    out.iter().filter(|d| &d.target == target).count()
}

#[test]
fn client_identifier_is_the_draw_modulo_a_million() {
    assert_eq!(Connection::client(5, t("a")).id(), 5);
    assert_eq!(Connection::client(1_000_000, t("a")).id(), 0);
    assert_eq!(Connection::client(3_123_456, t("a")).id(), 123_456);
    assert_eq!(Connection::client(u32::MAX, t("a")).id(), 967_295);
    assert_eq!(CLIENT_ID_SPACE, 1_000_000);
}

#[test]
fn accepted_client_starts_without_topics() {
    let c = Connection::accept(t("192.168.1.5"));
    assert!(c.id() < 1_000_000);
    assert_eq!(c.role(), Role::LocalClient);
    assert_eq!(c.address(), "192.168.1.5");
    assert_eq!(c.topics().len(), 0);
}

#[test]
fn peer_link_carries_the_sentinel_identifier() {
    let c = Connection::peer_link(t("10.0.0.2"));
    assert_eq!(c.id(), 0);
    assert_eq!(PEER_LINK_ID, 0);
    assert_eq!(c.role(), Role::PeerLink);
    assert_eq!(c.address(), "10.0.0.2");
}

#[test]
fn connection_tracks_and_untracks_topics() {
    let mut c = Connection::client(1, t("a"));
    c.track(t("x"));
    c.track(t("y"));
    assert!(c.topics().contains(&t("x")));
    c.untrack(&t("x"));
    assert!(!c.topics().contains(&t("x")));
    assert!(c.topics().contains(&t("y")));
    assert_eq!(c.id(), 1);
}

#[test]
fn publish_after_subscribe_is_delivered_exactly_once() {
    let mut r = broker();
    let mut c = Connection::client(11, t("192.168.1.5"));
    let mut d = Connection::client(22, t("192.168.1.6"));
    assert!(r.route(&mut c, Msg::SUBSCRIBE(t("T"))).is_empty());
    // Subscribing again changes nothing.
    r.route(&mut c, Msg::SUBSCRIBE(t("T")));
    let out = r.route(&mut d, Msg::PUBLISH(t("T"), Bytes::from(vec![1])));
    assert_eq!(
        out,
        vec![Delivery { target: Target::Client(11), frame: publish_frame("T", &[1]) }]
    );
    assert_eq!(copies_for(&out, &Target::Client(11)), 1);
    assert!(c.topics().contains(&t("T")));
}

#[test]
fn publish_after_unsubscribe_is_not_delivered() {
    let mut r = broker();
    let mut c = Connection::client(11, t("192.168.1.5"));
    let mut d = Connection::client(22, t("192.168.1.6"));
    r.route(&mut c, Msg::SUBSCRIBE(t("T")));
    r.route(&mut d, Msg::SUBSCRIBE(t("T")));
    assert!(r.route(&mut c, Msg::UNSUBSCRIBE(t("T"))).is_empty());
    let out = r.route(&mut d, Msg::PUBLISH(t("T"), Bytes::from(vec![1])));
    assert_eq!(copies_for(&out, &Target::Client(11)), 0);
    assert_eq!(copies_for(&out, &Target::Client(22)), 1);
    assert!(!c.topics().contains(&t("T")));
}

#[test]
fn publish_on_another_topic_is_not_delivered() {
    let mut r = broker();
    let mut c = Connection::client(11, t("192.168.1.5"));
    r.route(&mut c, Msg::SUBSCRIBE(t("T")));
    assert!(r.route(&mut c, Msg::PUBLISH(t("U"), Bytes::new())).is_empty());
}

#[test]
fn publisher_that_subscribed_gets_its_own_message() {
    let mut r = broker();
    let mut c = Connection::client(11, t("192.168.1.5"));
    r.route(&mut c, Msg::SUBSCRIBE(t("T")));
    let out = r.route(&mut c, Msg::PUBLISH(t("T"), Bytes::new()));
    assert_eq!(copies_for(&out, &Target::Client(11)), 1);
}

#[test]
fn two_subscribers_get_byte_identical_frames() {
    let mut r = broker();
    let mut a = Connection::client(1, t("192.168.1.5"));
    let mut b = Connection::client(2, t("192.168.1.6"));
    let mut p = Connection::client(3, t("192.168.1.7"));
    r.route(&mut a, Msg::SUBSCRIBE(t("cam")));
    r.route(&mut b, Msg::SUBSCRIBE(t("cam")));
    let out = r.route(&mut p, Msg::PUBLISH(t("cam"), Bytes::from(vec![0xde, 0xad])));
    assert_eq!(out.len(), 2);
    assert_eq!(out[0].target, Target::Client(1));
    assert_eq!(out[1].target, Target::Client(2));
    assert_eq!(out[0].frame, out[1].frame);
    assert_eq!(
        &out[0].frame[..],
        &[0x03, 0, 0, 0, 3, b'c', b'a', b'm', 0, 0, 0, 2, 0xde, 0xad][..]
    );
}

#[test]
fn disconnect_removes_the_clients_entries() {
    let mut r = broker();
    let mut c = Connection::client(11, t("192.168.1.5"));
    let mut d = Connection::client(22, t("192.168.1.6"));
    r.route(&mut c, Msg::SUBSCRIBE(t("a")));
    r.route(&mut c, Msg::SUBSCRIBE(t("b")));
    r.route(&mut d, Msg::SUBSCRIBE(t("a")));
    r.disconnect(&c);
    let out_a = r.route(&mut d, Msg::PUBLISH(t("a"), Bytes::new()));
    let out_b = r.route(&mut d, Msg::PUBLISH(t("b"), Bytes::new()));
    assert_eq!(out_a.len(), 1);
    assert_eq!(out_a[0].target, Target::Client(22));
    assert!(out_b.is_empty());
    assert!(r.registry().fan_out(&t("b")).is_empty());
}

#[test]
fn close_control_and_errors_end_the_connection() {
    for case in 0..3 {
        let mut r = broker();
        let mut c = Connection::client(11, t("192.168.1.5"));
        r.route(&mut c, Msg::SUBSCRIBE(t("a")));
        let event = match case {
            0 => Inbound::Close,
            1 => Inbound::Control,
            _ => Inbound::Failed,
        };
        let outcome = r.receive(&mut c, event);
        assert!(outcome.finished);
        assert!(outcome.deliveries.is_empty());
        assert!(r.registry().fan_out(&t("a")).is_empty());
    }
}

#[test]
fn undecodable_frame_ends_the_connection() {
    let mut r = broker();
    let mut c = Connection::client(11, t("192.168.1.5"));
    r.route(&mut c, Msg::SUBSCRIBE(t("a")));
    let outcome = r.receive(&mut c, Inbound::Data(Bytes::from(vec![0x09, 0, 0, 0, 0])));
    assert!(outcome.finished);
    assert!(outcome.deliveries.is_empty());
    assert!(r.registry().fan_out(&t("a")).is_empty());
}

#[test]
fn decodable_frame_is_routed() {
    let mut r = broker();
    let mut c = Connection::client(11, t("192.168.1.5"));
    let sub = Msg::build_message(Msg::SUBSCRIBE(t("a")));
    let outcome = r.receive(&mut c, Inbound::Data(sub));
    assert!(!outcome.finished);
    assert!(outcome.deliveries.is_empty());
    assert_eq!(r.registry().fan_out(&t("a")), vec![11]);
    let outcome = r.receive(&mut c, Inbound::Data(publish_frame("a", &[5])));
    assert!(!outcome.finished);
    assert_eq!(
        outcome.deliveries,
        vec![Delivery { target: Target::Client(11), frame: publish_frame("a", &[5]) }]
    );
}

#[test]
fn local_subscription_is_announced_to_every_peer() {
    let mut r = broker_with_peers(&["10.0.0.2", "10.0.0.3"]);
    let mut c = Connection::client(11, t("192.168.1.5"));
    let out = r.route(&mut c, Msg::SUBSCRIBE(t("a")));
    let frame = Msg::build_message(Msg::SUBSCRIBE(t("a")));
    assert_eq!(
        out,
        vec![
            Delivery { target: Target::Peer(t("10.0.0.2")), frame: frame.clone() },
            Delivery { target: Target::Peer(t("10.0.0.3")), frame },
        ]
    );
}

#[test]
fn subscription_from_a_peer_address_sets_interest_only() {
    let mut r = broker_with_peers(&["10.0.0.2", "10.0.0.3"]);
    let mut from_peer = Connection::client(77, t("10.0.0.2"));
    assert!(r.from_peer(&from_peer));
    let out = r.route(&mut from_peer, Msg::SUBSCRIBE(t("a")));
    assert!(out.is_empty());
    assert!(r.registry().fan_out(&t("a")).is_empty());
    assert_eq!(r.federation().interested_peers(&t("a")), vec![t("10.0.0.2")]);
    r.route(&mut from_peer, Msg::UNSUBSCRIBE(t("a")));
    assert!(r.federation().interested_peers(&t("a")).is_empty());
}

#[test]
fn frames_on_a_peer_link_set_that_peers_interest() {
    let mut r = broker_with_peers(&["10.0.0.2"]);
    let mut link = Connection::peer_link(t("10.0.0.2"));
    assert!(r.from_peer(&link));
    assert!(r.route(&mut link, Msg::SUBSCRIBE(t("a"))).is_empty());
    assert_eq!(r.federation().interested_peers(&t("a")), vec![t("10.0.0.2")]);
    assert!(r.registry().fan_out(&t("a")).is_empty());
}

#[test]
fn publish_reaches_interested_peers_and_no_others() {
    let mut r = broker_with_peers(&["alpha", "beta", "gamma"]);
    let mut alpha = Connection::client(1, t("alpha"));
    let mut gamma = Connection::client(3, t("gamma"));
    r.route(&mut alpha, Msg::SUBSCRIBE(t("T")));
    r.route(&mut gamma, Msg::SUBSCRIBE(t("T")));
    r.route(&mut gamma, Msg::SUBSCRIBE(t("U")));
    let mut c = Connection::client(11, t("192.168.1.5"));
    let out = r.route(&mut c, Msg::PUBLISH(t("T"), Bytes::from(vec![1])));
    assert_eq!(copies_for(&out, &Target::Peer(t("alpha"))), 1);
    assert_eq!(copies_for(&out, &Target::Peer(t("beta"))), 0);
    assert_eq!(copies_for(&out, &Target::Peer(t("gamma"))), 1);
    assert_eq!(out.len(), 2);
    let out = r.route(&mut c, Msg::PUBLISH(t("U"), Bytes::from(vec![1])));
    assert_eq!(
        out,
        vec![Delivery { target: Target::Peer(t("gamma")), frame: publish_frame("U", &[1]) }]
    );
}

#[test]
fn publish_from_a_peer_is_not_forwarded_to_peers() {
    let mut r = broker_with_peers(&["alpha", "beta"]);
    let mut beta = Connection::client(2, t("beta"));
    r.route(&mut beta, Msg::SUBSCRIBE(t("T")));
    let mut local = Connection::client(11, t("192.168.1.5"));
    // The peers are told of the local subscription.
    assert_eq!(r.route(&mut local, Msg::SUBSCRIBE(t("T"))).len(), 2);
    let mut alpha = Connection::client(1, t("alpha"));
    let out = r.route(&mut alpha, Msg::PUBLISH(t("T"), Bytes::from(vec![1])));
    assert_eq!(
        out,
        vec![Delivery { target: Target::Client(11), frame: publish_frame("T", &[1]) }]
    );
}

#[test]
fn lost_peer_gets_nothing_until_it_is_back_and_asks_again() {
    let mut r = broker();
    let mut link = PeerLink::new(t("alpha"), 5);
    r.on_link_event(&mut link, LinkEvent::Established);
    let mut alpha = Connection::client(1, t("alpha"));
    r.route(&mut alpha, Msg::SUBSCRIBE(t("T")));
    let mut c = Connection::client(11, t("192.168.1.5"));
    assert_eq!(r.route(&mut c, Msg::PUBLISH(t("T"), Bytes::new())).len(), 1);
    r.on_link_event(&mut link, LinkEvent::Lost);
    assert!(r.route(&mut c, Msg::PUBLISH(t("T"), Bytes::new())).is_empty());
    r.on_link_event(&mut link, LinkEvent::BackoffElapsed);
    r.on_link_event(&mut link, LinkEvent::Established);
    assert!(r.route(&mut c, Msg::PUBLISH(t("T"), Bytes::new())).is_empty());
    r.route(&mut alpha, Msg::SUBSCRIBE(t("T")));
    assert_eq!(r.route(&mut c, Msg::PUBLISH(t("T"), Bytes::new())).len(), 1);
}

#[test]
fn ended_connection_is_purged_under_its_identifier_and_topics() {
    let mut r = broker_with_peers(&["alpha"]);
    let mut c = Connection::client(5, t("192.168.1.5"));
    let mut d = Connection::client(6, t("192.168.1.6"));
    r.route(&mut c, Msg::SUBSCRIBE(t("T")));
    r.route(&mut d, Msg::SUBSCRIBE(t("T")));
    r.route(&mut d, Msg::SUBSCRIBE(t("U")));
    // A link to a peer lists nothing in the registry; its end changes nothing there.
    let mut link = Connection::peer_link(t("alpha"));
    r.route(&mut link, Msg::SUBSCRIBE(t("T")));
    let outcome = r.receive(&mut link, Inbound::Failed);
    assert!(outcome.finished);
    assert_eq!(r.registry().fan_out(&t("T")), vec![5, 6]);
    let outcome = r.receive(&mut d, Inbound::Close);
    assert!(outcome.finished);
    assert_eq!(r.registry().fan_out(&t("T")), vec![5]);
    assert!(r.registry().fan_out(&t("U")).is_empty());
}

#[test]
fn federated_publish_reaches_a_subscriber_on_the_other_broker() {
    // B1 listens at 10.0.0.1, B2 at 10.0.0.2; each has a link to the other.
    let mut b1 = broker();
    let mut b2 = broker();
    let mut b1_to_b2 = PeerLink::new(t("10.0.0.2"), 5);
    let mut b2_to_b1 = PeerLink::new(t("10.0.0.1"), 5);
    b1.on_link_event(&mut b1_to_b2, LinkEvent::Established);
    b2.on_link_event(&mut b2_to_b1, LinkEvent::Established);

    // Client A subscribes at B1; B1 announces the subscription to B2.
    let mut a = Connection::client(42, t("192.168.1.5"));
    let announced = b1.route(&mut a, Msg::SUBSCRIBE(t("sensors/x")));
    assert_eq!(announced.len(), 1);
    assert_eq!(announced[0].target, Target::Peer(t("10.0.0.2")));

    // The announcement arrives at B2 on a connection from B1's address.
    let mut b1_at_b2 = Connection::client(7, t("10.0.0.1"));
    let outcome = b2.receive(&mut b1_at_b2, Inbound::Data(announced[0].frame.clone()));
    assert!(!outcome.finished);
    assert!(outcome.deliveries.is_empty());

    // Client D publishes at B2; B2 forwards to B1.
    let mut d = Connection::client(43, t("192.168.2.9"));
    let publish = Msg::build_message(Msg::PUBLISH(t("sensors/x"), Bytes::from(vec![1, 2, 3])));
    let forwarded = b2.receive(&mut d, Inbound::Data(publish)).deliveries;
    assert_eq!(forwarded.len(), 1);
    assert_eq!(forwarded[0].target, Target::Peer(t("10.0.0.1")));

    // The forwarded frame arrives at B1 on a connection from B2's address.
    let mut b2_at_b1 = Connection::client(8, t("10.0.0.2"));
    let delivered = b1.receive(&mut b2_at_b1, Inbound::Data(forwarded[0].frame.clone())).deliveries;
    assert_eq!(delivered.len(), 1);
    assert_eq!(delivered[0].target, Target::Client(42));
    assert_eq!(
        Msg::parse_message(delivered[0].frame.clone()),
        Some(Msg::PUBLISH(t("sensors/x"), Bytes::from(vec![1, 2, 3])))
    );
}
