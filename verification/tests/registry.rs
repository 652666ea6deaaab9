use autobahn::registry::{cleanup_subscriptions, Registry};
use autobahn::topics::{same_topic, TopicSet};

fn t(s: &str) -> String {
    s.to_string()
}

#[test]
fn new_registry_has_no_subscribers() {
    let r = Registry::new();
    assert!(r.fan_out(&t("a")).is_empty());
}

#[test]
fn subscribers_come_in_order_of_subscription() {
    let mut r = Registry::new();
    r.add_subscriber(t("a"), 3);
    r.add_subscriber(t("a"), 1);
    r.add_subscriber(t("b"), 2);
    r.add_subscriber(t("a"), 2);
    assert_eq!(r.fan_out(&t("a")), vec![3, 1, 2]);
    assert_eq!(r.fan_out(&t("b")), vec![2]);
    assert!(r.fan_out(&t("c")).is_empty());
}

#[test]
fn subscribing_twice_is_subscribing_once() {
    let mut r = Registry::new();
    r.add_subscriber(t("a"), 7);
    r.add_subscriber(t("a"), 7);
    assert_eq!(r.fan_out(&t("a")), vec![7]);
}

#[test]
fn unsubscribing_takes_only_that_subscriber_out() {
    let mut r = Registry::new();
    r.add_subscriber(t("a"), 1);
    r.add_subscriber(t("a"), 2);
    r.add_subscriber(t("b"), 1);
    r.remove_subscriber(&t("a"), 1);
    assert_eq!(r.fan_out(&t("a")), vec![2]);
    assert_eq!(r.fan_out(&t("b")), vec![1]);
}

#[test]
fn unsubscribing_what_was_never_subscribed_changes_nothing() {
    let mut r = Registry::new();
    r.add_subscriber(t("a"), 1);
    r.remove_subscriber(&t("a"), 9);
    r.remove_subscriber(&t("zz"), 1);
    assert_eq!(r.fan_out(&t("a")), vec![1]);
}

#[test]
fn subscribe_after_unsubscribe_goes_to_the_end() {
    let mut r = Registry::new();
    r.add_subscriber(t("a"), 1);
    r.add_subscriber(t("a"), 2);
    r.remove_subscriber(&t("a"), 1);
    r.add_subscriber(t("a"), 1);
    assert_eq!(r.fan_out(&t("a")), vec![2, 1]);
}

#[test]
fn topics_are_compared_exactly() {
    let mut r = Registry::new();
    r.add_subscriber(t("a/b"), 1);
    assert!(r.fan_out(&t("a")).is_empty());
    assert!(r.fan_out(&t("a/b/")).is_empty());
    assert!(r.fan_out(&t("A/b")).is_empty());
    assert!(same_topic(&t("a/b"), &t("a/b")));
    assert!(!same_topic(&t("a/b"), &t("a/B")));
}

#[test]
fn cleanup_takes_the_client_out_of_its_topics() {
    let mut r = Registry::new();
    r.add_subscriber(t("a"), 1);
    r.add_subscriber(t("a"), 2);
    r.add_subscriber(t("b"), 1);
    r.add_subscriber(t("c"), 1);
    let mut topics = TopicSet::new();
    topics.insert(t("a"));
    topics.insert(t("b"));
    cleanup_subscriptions(&mut r, &topics, 1);
    assert_eq!(r.fan_out(&t("a")), vec![2]);
    assert!(r.fan_out(&t("b")).is_empty());
    // "c" was not among the client's topics and is left alone.
    assert_eq!(r.fan_out(&t("c")), vec![1]);
}

#[test]
fn cleanup_with_no_topics_changes_nothing() {
    let mut r = Registry::new();
    r.add_subscriber(t("a"), 1);
    cleanup_subscriptions(&mut r, &TopicSet::new(), 1);
    assert_eq!(r.fan_out(&t("a")), vec![1]);
}

#[test]
fn topic_set_insert_remove_contains() {
    let mut s = TopicSet::new();
    assert_eq!(s.len(), 0);
    s.insert(t("a"));
    s.insert(t("b"));
    s.insert(t("a"));
    assert_eq!(s.len(), 2);
    assert!(s.contains(&t("a")));
    assert!(s.contains(&t("b")));
    assert!(!s.contains(&t("c")));
    assert_eq!(s.get(0), "a");
    assert_eq!(s.get(1), "b");
    s.remove(&t("a"));
    assert!(!s.contains(&t("a")));
    assert!(s.contains(&t("b")));
    assert_eq!(s.len(), 1);
    s.remove(&t("zz"));
    assert_eq!(s.len(), 1);
}
