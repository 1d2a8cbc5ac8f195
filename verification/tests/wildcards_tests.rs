use rusty_mqtt::subscribe_handlers::wildcards::{
    get_empty_router, topic_match_wildcard, Subscription, TopicRouter,
};
use rusty_mqtt::subscribe_handlers::topic_matches;

#[test]
fn wildcards_router_keeps_subscriptions_per_client_in_order() {
    let mut router = get_empty_router();
    assert!(router.get_subscriptions("c1").is_none());
    router.register_subscription("c1", 1, 0, "home/+/temp");
    router.add_subscription(
        "c1".to_string(),
        Subscription { packet_id: 2, qos: 1, topic_filter: "home/#".to_string() },
    );
    router.register_subscription("c2", 3, 0, "other");
    let subs = router.get_subscriptions("c1").expect("c1 has subscriptions");
    assert_eq!(subs.len(), 2);
    assert_eq!(subs[0].packet_id, 1);
    assert_eq!(subs[1].topic_filter, "home/#");
    assert_eq!(router.get_subscriptions("c2").unwrap()[0].qos, 0);
}

#[test]
fn wildcards_router_matches_by_topic() {
    let mut router = TopicRouter::new();
    router.register_subscription("c1", 1, 0, "home/+/temp");
    router.register_subscription("c1", 2, 1, "home/#");
    router.register_subscription("c1", 3, 0, "garden");
    let m = router.get_subscriptions_for_topic("c1", "home/kitchen/temp");
    assert_eq!(m.iter().map(|s| s.packet_id).collect::<Vec<_>>(), vec![1, 2]);
    assert_eq!(router.matching_subscription_count("c1", "home"), 1);
    assert_eq!(router.matching_subscription_count("c1", "garden"), 1);
    assert_eq!(router.matching_subscription_count("nobody", "garden"), 0);
    let m = router.match_and_return_subs("c1", "home/kitchen/temp");
    assert_eq!(m.len(), 2);
    assert!(router.match_and_return_subs("c9", "home").is_empty());
}

#[test]
fn wildcards_pattern_matching() {
    assert!(TopicRouter::topic_matches_pattern("a/b", "a/b"));
    assert!(!TopicRouter::topic_matches_pattern("a/b", "a/c"));
    assert!(TopicRouter::topic_matches_pattern("/home/user/+/news", "/home/user/bob/news"));
    assert!(!TopicRouter::topic_matches_pattern("/home/user/+/news", "/home/user/news"));
    assert!(TopicRouter::topic_matches_pattern("a/#", "a/b/c"));
    assert!(TopicRouter::topic_matches_pattern("a/#", "a"));
}

#[test]
fn topic_match_wildcard_is_level_matching() {
    assert!(topic_match_wildcard("home/+/temp", "home/kitchen/temp"));
    assert!(!topic_match_wildcard("home/+/temp", "home/kitchen/hall/temp"));
    assert!(topic_match_wildcard("home/#", "home/a/b"));
    assert!(!topic_match_wildcard("+/news", "123456/x"));
    for (p, t) in [("a/+", "a/b"), ("+", ""), ("a/#/b", "a/x/b"), ("x", "y"), ("#", "")] {
        assert_eq!(topic_match_wildcard(p, t), topic_matches(p, t));
    }
}
