use autobahn::config::{AutobahnConfig, Config, LoggingConfig, OtherConfig, ServerConfig};
use autobahn::federation::{
    Federation, LinkAction, LinkEvent, LinkPhase, PeerLink, DEFAULT_BACKOFF_SECS,
};
use std::collections::HashMap;

fn t(s: &str) -> String {
    s.to_string()
}

#[test]
fn new_federation_has_no_peers() {
    let f = Federation::new();
    assert_eq!(f.len(), 0);
    assert!(f.peers().is_empty());
    assert!(!f.is_peer(&t("10.0.0.2")));
}

#[test]
fn inserted_peer_is_connected_and_wants_nothing() {
    let mut f = Federation::new();
    f.insert(t("10.0.0.2"));
    assert!(f.is_peer(&t("10.0.0.2")));
    assert!(!f.is_peer(&t("10.0.0.3")));
    assert_eq!(f.peers(), vec![t("10.0.0.2")]);
    assert!(f.interested_peers(&t("a")).is_empty());
    assert_eq!(f.get(0).address(), "10.0.0.2");
    assert_eq!(f.get(0).interested_topics().len(), 0);
}

#[test]
fn interest_is_kept_per_peer() {
    let mut f = Federation::new();
    f.insert(t("alpha"));
    f.insert(t("beta"));
    f.insert(t("gamma"));
    f.add_interest(&t("alpha"), &t("a"));
    f.add_interest(&t("gamma"), &t("a"));
    f.add_interest(&t("beta"), &t("b"));
    assert_eq!(f.interested_peers(&t("a")), vec![t("alpha"), t("gamma")]);
    assert_eq!(f.interested_peers(&t("b")), vec![t("beta")]);
    assert!(f.interested_peers(&t("c")).is_empty());
    f.remove_interest(&t("alpha"), &t("a"));
    assert_eq!(f.interested_peers(&t("a")), vec![t("gamma")]);
}

#[test]
fn interest_of_an_unknown_peer_is_not_recorded() {
    let mut f = Federation::new();
    f.insert(t("alpha"));
    f.add_interest(&t("omega"), &t("a"));
    assert!(f.interested_peers(&t("a")).is_empty());
    assert_eq!(f.len(), 1);
}

#[test]
fn removed_peer_is_forgotten_with_its_interest() {
    let mut f = Federation::new();
    f.insert(t("alpha"));
    f.insert(t("beta"));
    f.add_interest(&t("alpha"), &t("a"));
    f.remove(&t("alpha"));
    assert!(!f.is_peer(&t("alpha")));
    assert_eq!(f.peers(), vec![t("beta")]);
    assert!(f.interested_peers(&t("a")).is_empty());
    // Coming back, the peer wants nothing until it says so.
    f.insert(t("alpha"));
    assert_eq!(f.peers(), vec![t("beta"), t("alpha")]);
    assert!(f.interested_peers(&t("a")).is_empty());
}

#[test]
fn inserting_a_connected_peer_again_resets_it() {
    let mut f = Federation::new();
    f.insert(t("alpha"));
    f.add_interest(&t("alpha"), &t("a"));
    f.insert(t("alpha"));
    assert_eq!(f.len(), 1);
    assert!(f.interested_peers(&t("a")).is_empty());
}

#[test]
fn new_link_is_connecting() {
    let link = PeerLink::new(t("alpha"), 7);
    assert_eq!(link.phase(), LinkPhase::Connecting);
    assert_eq!(link.backoff_secs(), 7);
    assert_eq!(link.address(), "alpha");
}

#[test]
fn established_link_is_read_and_entered() {
    let mut f = Federation::new();
    let mut link = PeerLink::new(t("alpha"), 5);
    assert_eq!(f.on_link_event(&mut link, LinkEvent::Established), LinkAction::Read);
    assert_eq!(link.phase(), LinkPhase::Connected);
    assert!(f.is_peer(&t("alpha")));
}

#[test]
fn refused_dial_waits_for_the_backoff() {
    let mut f = Federation::new();
    let mut link = PeerLink::new(t("alpha"), 9);
    assert_eq!(f.on_link_event(&mut link, LinkEvent::Refused), LinkAction::Wait(9));
    assert_eq!(link.phase(), LinkPhase::Disconnected);
    assert!(!f.is_peer(&t("alpha")));
    assert_eq!(f.on_link_event(&mut link, LinkEvent::BackoffElapsed), LinkAction::Dial);
    assert_eq!(link.phase(), LinkPhase::Connecting);
}

#[test]
fn lost_link_is_dialled_again_after_the_backoff() {
    let mut f = Federation::new();
    let mut link = PeerLink::new(t("alpha"), DEFAULT_BACKOFF_SECS);
    f.on_link_event(&mut link, LinkEvent::Established);
    f.add_interest(&t("alpha"), &t("a"));
    // The transport dies.
    assert_eq!(f.on_link_event(&mut link, LinkEvent::Lost), LinkAction::Wait(5));
    assert_eq!(link.phase(), LinkPhase::Disconnected);
    assert!(!f.is_peer(&t("alpha")));
    assert!(f.interested_peers(&t("a")).is_empty());
    // The backoff passes, the dial succeeds: the peer is back.
    assert_eq!(f.on_link_event(&mut link, LinkEvent::BackoffElapsed), LinkAction::Dial);
    assert_eq!(f.on_link_event(&mut link, LinkEvent::Established), LinkAction::Read);
    assert_eq!(link.phase(), LinkPhase::Connected);
    assert!(f.is_peer(&t("alpha")));
}

#[test]
fn events_out_of_phase_are_ignored() {
    let mut f = Federation::new();
    let mut link = PeerLink::new(t("alpha"), 5);
    assert_eq!(f.on_link_event(&mut link, LinkEvent::Lost), LinkAction::Ignore);
    assert_eq!(f.on_link_event(&mut link, LinkEvent::BackoffElapsed), LinkAction::Ignore);
    assert_eq!(link.phase(), LinkPhase::Connecting);
    f.on_link_event(&mut link, LinkEvent::Established);
    assert_eq!(f.on_link_event(&mut link, LinkEvent::Established), LinkAction::Ignore);
    assert_eq!(f.on_link_event(&mut link, LinkEvent::Refused), LinkAction::Ignore);
    assert_eq!(f.on_link_event(&mut link, LinkEvent::BackoffElapsed), LinkAction::Ignore);
    assert_eq!(link.phase(), LinkPhase::Connected);
    assert!(f.is_peer(&t("alpha")));
    f.on_link_event(&mut link, LinkEvent::Lost);
    assert_eq!(f.on_link_event(&mut link, LinkEvent::Lost), LinkAction::Ignore);
    assert_eq!(f.on_link_event(&mut link, LinkEvent::Established), LinkAction::Ignore);
    assert_eq!(link.phase(), LinkPhase::Disconnected);
}

#[test]
fn default_backoff_is_five_seconds() {
    assert_eq!(DEFAULT_BACKOFF_SECS, 5);
}

#[test]
fn configured_peer_gives_a_link_to_its_address() {
    let other = OtherConfig { port: 8081, ip_addr_v4: t("10.0.0.2") };
    let link = other.link();
    assert_eq!(link.address(), "10.0.0.2");
    assert_eq!(link.backoff_secs(), 5);
    assert_eq!(link.phase(), LinkPhase::Connecting);
}

#[test]
fn debug_is_off_unless_asked_for() {
    let mut config = Config {
        server: ServerConfig { port: 8080 },
        others: HashMap::new(),
        debug: None,
    };
    assert!(!config.debug_enabled());
    config.debug = Some(false);
    assert!(!config.debug_enabled());
    config.debug = Some(true);
    assert!(config.debug_enabled());
    assert_eq!(config.server.port, 8080);
}

#[test]
fn stack_configuration_holds_what_it_is_given() {
    let a = AutobahnConfig { host: t("localhost"), port: 8080 };
    let l = LoggingConfig {
        global_log_pub_topic: t("log"),
        global_logging_publishing_enabled: true,
        global_logging_level: t("info"),
    };
    assert_eq!(a.clone().host, "localhost");
    assert_eq!(a.port, 8080);
    assert_eq!(l.clone().global_log_pub_topic, "log");
    assert!(l.global_logging_publishing_enabled);
    assert_eq!(l.global_logging_level, "info");
}
