use rusty_mqtt::client_registry::ConnectionCommand;
use rusty_mqtt::subscribe_handlers::storage::{create_router, topic_matches, TopicRouter};
use tokio::sync::mpsc;

fn dummy_tx() -> mpsc::Sender<ConnectionCommand> {
    let (tx, _rx) = mpsc::channel(1);
    tx
}

// --- topic_matches tests ---

#[test]
fn test_exact_match() {
    assert!(topic_matches("home/temp", "home/temp"));
    assert!(!topic_matches("home/temp", "home/humidity"));
}

#[test]
fn test_plus_single_level() {
    assert!(topic_matches("home/+/temp", "home/kitchen/temp"));
    assert!(topic_matches("home/+/temp", "home/livingroom/temp"));
    assert!(!topic_matches("home/+/temp", "home/temp"));
    assert!(!topic_matches("home/+/temp", "home/a/b/temp"));
}

#[test]
fn test_hash_multi_level() {
    assert!(topic_matches("#", "anything"));
    assert!(topic_matches("#", "a/b/c/d"));
    assert!(topic_matches("home/#", "home/kitchen/temp"));
    assert!(topic_matches("home/#", "home"));
    assert!(topic_matches("home/#", "home/a/b/c"));
}

#[test]
fn test_hash_alone_matches_everything() {
    assert!(topic_matches("#", ""));
    assert!(topic_matches("#", "a"));
    assert!(topic_matches("#", "a/b/c"));
}

#[test]
fn test_plus_and_hash_combined() {
    assert!(topic_matches("+/news/#", "sport/news/articles/123"));
    assert!(topic_matches("+/news/#", "tech/news"));
    assert!(!topic_matches("+/news/#", "sport/articles/123"));
}

#[test]
fn test_leading_slash() {
    assert!(topic_matches("/news/#", "/news/articles/123"));
    assert!(topic_matches("/+/news", "/sport/news"));
    assert!(!topic_matches("/news/#", "news/articles"));
}

// --- TopicRouter tests ---

#[test]
fn test_subscribe_and_lookup() {
    let mut router = TopicRouter::new();
    let granted = router.subscribe("client-1", &[("home/temp".to_string(), 0)], &dummy_tx());
    assert_eq!(granted, vec![0]);

    let subs = router.get_subscribers_for_topic("home/temp");
    assert_eq!(subs.len(), 1);
    assert_eq!(subs[0].client_id, "client-1");
    assert_eq!(subs[0].qos, 0);
}

#[test]
fn test_subscribe_replace_semantics() {
    let mut router = TopicRouter::new();
    router.subscribe("client-1", &[("home/temp".to_string(), 0)], &dummy_tx());
    router.subscribe("client-1", &[("home/temp".to_string(), 1)], &dummy_tx());

    let subs = router.get_subscribers_for_topic("home/temp");
    assert_eq!(subs.len(), 1, "Should replace, not duplicate");
    assert_eq!(subs[0].qos, 1, "QoS should be updated to 1");
}

#[test]
fn test_multiple_clients_same_topic() {
    let mut router = TopicRouter::new();
    router.subscribe("client-1", &[("home/temp".to_string(), 0)], &dummy_tx());
    router.subscribe("client-2", &[("home/temp".to_string(), 1)], &dummy_tx());

    let subs = router.get_subscribers_for_topic("home/temp");
    assert_eq!(subs.len(), 2);
}

#[test]
fn test_wildcard_subscription_lookup() {
    let mut router = TopicRouter::new();
    router.subscribe("client-1", &[("home/+/temp".to_string(), 0)], &dummy_tx());

    let subs = router.get_subscribers_for_topic("home/kitchen/temp");
    assert_eq!(subs.len(), 1);

    let subs = router.get_subscribers_for_topic("home/temp");
    assert_eq!(subs.len(), 0);
}

#[test]
fn test_remove_client() {
    let mut router = TopicRouter::new();
    router.subscribe("client-1", &[("home/temp".to_string(), 0)], &dummy_tx());
    router.subscribe("client-2", &[("home/temp".to_string(), 1)], &dummy_tx());

    router.remove_client("client-1");

    let subs = router.get_subscribers_for_topic("home/temp");
    assert_eq!(subs.len(), 1);
    assert_eq!(subs[0].client_id, "client-2");
}

// --- further cases ---

#[test]
fn topic_matches_edge_cases() {
    assert!(topic_matches("", ""));
    assert!(!topic_matches("a", ""));
    assert!(topic_matches("+", ""));
    assert!(!topic_matches("+", "a/b"));
    assert!(topic_matches("a/+", "a/"));
    assert!(topic_matches("a/#/b", "a/x/b"));
    assert!(topic_matches("a/#", "a/"));
    assert!(!topic_matches("a/b", "a/b/c"));
}

#[test]
fn subscribe_returns_granted_qos_in_order() {
    let mut router = create_router();
    let granted = router.subscribe(
        "c",
        &[("a".to_string(), 1), ("b/#".to_string(), 0), ("c/+".to_string(), 2)],
        &dummy_tx(),
    );
    assert_eq!(granted, vec![1, 0, 2]);
    assert_eq!(router.get_subscribers_for_topic("b/x/y").len(), 1);
    assert_eq!(router.get_subscribers_for_topic("c/z")[0].qos, 2);
}

#[test]
fn overlapping_filters_deliver_once_per_filter() {
    let mut router = TopicRouter::new();
    router.subscribe("c", &[("a/+".to_string(), 0), ("a/#".to_string(), 1)], &dummy_tx());
    let subs = router.get_subscribers_for_topic("a/b");
    assert_eq!(subs.len(), 2);
    assert_eq!(subs[0].qos, 0);
    assert_eq!(subs[1].qos, 1);
}

#[test]
fn unsubscribe_removes_only_named_filters() {
    let mut router = TopicRouter::new();
    router.subscribe("c1", &[("a".to_string(), 0), ("b".to_string(), 0)], &dummy_tx());
    router.subscribe("c2", &[("a".to_string(), 1)], &dummy_tx());
    router.unsubscribe("c1", &["a".to_string(), "zzz".to_string()]);
    let subs = router.get_subscribers_for_topic("a");
    assert_eq!(subs.len(), 1);
    assert_eq!(subs[0].client_id, "c2");
    assert_eq!(router.get_subscribers_for_topic("b").len(), 1);
}

#[test]
fn removed_client_receives_nothing() {
    let mut router = TopicRouter::default();
    router.subscribe("c1", &[("#".to_string(), 0)], &dummy_tx());
    router.remove_client("c1");
    assert!(router.get_subscribers_for_topic("any/topic").is_empty());
    router.remove_client("c1");
    assert!(router.get_subscribers_for_topic("").is_empty());
}

#[test]
fn subscriber_keeps_its_channel() {
    let mut router = TopicRouter::new();
    let (tx, _rx) = mpsc::channel::<ConnectionCommand>(1);
    router.subscribe("c1", &[("t".to_string(), 0)], &tx);
    let subs = router.get_subscribers_for_topic("t");
    assert!(subs[0].tx.same_channel(&tx));
}

#[test]
fn subscribe_list_keeps_last_qos_per_filter() {
    let mut router = TopicRouter::new();
    let (tx_other, _r1) = mpsc::channel::<ConnectionCommand>(1);
    router.subscribe("other", &[("a".to_string(), 1)], &tx_other);
    let granted = router.subscribe(
        "c",
        &[("a".to_string(), 0), ("b".to_string(), 0), ("a".to_string(), 1)],
        &dummy_tx(),
    );
    assert_eq!(granted, vec![0, 0, 1]);
    let subs = router.get_subscribers_for_topic("a");
    assert_eq!(subs.len(), 2);
    assert_eq!(subs[0].client_id, "other");
    assert_eq!(subs[1].client_id, "c");
    assert_eq!(subs[1].qos, 1);
}
