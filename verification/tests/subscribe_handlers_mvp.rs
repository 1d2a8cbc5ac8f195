use rusty_mqtt::subscribe_handlers::mvp::{exact_match, extract_packet_id, SubscribeHandler, TopicRouter};

#[test]
fn test_extract_packet_id() {
    assert_eq!(extract_packet_id(&[0x30, 0x39]), Some(0x3039));
}

#[test]
fn test_generate_suback() {
    let response = SubscribeHandler::generate_suback(45u16, 2);
    // the SUBACK starts with its packet type; the return codes are success codes
    assert_eq!(response[0], 0x90u8);
    assert_eq!(response, vec![0x90u8, 4, 0x00, 45, 0x00, 0x00]);
}

#[test]
fn test_wildcard_match_exact() {
    assert!(SubscribeHandler::wildcard_match("/home", "/home"));
    assert!(!SubscribeHandler::wildcard_match("/home", "/news"));
}

#[test]
fn test_plus_wildcard() {
    assert!(SubscribeHandler::wildcard_match("+/news", "1/news"));
    assert!(!SubscribeHandler::wildcard_match("+/news", "123456/news"));
    assert!(!SubscribeHandler::wildcard_match("+/news", "/news"));
}

#[test]
fn subscribe_handlers_test_hash_wildcard() {
    assert!(SubscribeHandler::wildcard_match(
        "/news/#",
        "/news/articles/123"
    ));
}

#[test]
fn mvp_extract_packet_id_needs_two_bytes() {
    assert_eq!(extract_packet_id(&[0x30]), None);
    assert_eq!(extract_packet_id(&[]), None);
    assert_eq!(SubscribeHandler::extract_packet_id(&[0x01, 0x02, 0xFF]), Some(0x0102));
}

#[test]
fn mvp_generate_suback_layout() {
    let response = SubscribeHandler::generate_suback(45u16, 2);
    assert_eq!(response, vec![0x90u8, 4, 0x00, 45, 0x00, 0x00]);
    assert_eq!(SubscribeHandler::generate_suback(7u16, 0), vec![0x90u8, 2, 0x00, 7]);
    assert_eq!(SubscribeHandler::generate_suback(255u16, 127).len(), 4 + 127);
}

#[test]
fn mvp_exact_match_is_string_equality() {
    assert!(exact_match("a/b", "a/b"));
    assert!(!exact_match("a/b", "a/+"));
    assert!(SubscribeHandler::exact_match("x", "x"));
    assert!(!SubscribeHandler::exact_match("x", "y"));
}

#[test]
fn mvp_hash_accepts_rest_of_topic() {
    assert!(!SubscribeHandler::wildcard_match("#", ""));
    assert!(SubscribeHandler::wildcard_match("#", "x"));
    assert!(SubscribeHandler::wildcard_match("a#", "abc/d"));
    assert!(!SubscribeHandler::wildcard_match("ab", "abc"));
}

#[test]
fn mvp_router_stores_filters_by_packet_id() {
    let mut router = TopicRouter::new();
    router.subscribe(10, vec![("a/+".to_string(), 0), ("b".to_string(), 1)]);
    router.subscribe(11, vec![("c".to_string(), 0)]);
    let ids = router.get_subscribers_for_topic("a/x");
    assert_eq!(ids, vec![10]);
    let ids = router.get_subscribers_for_topic("c");
    assert_eq!(ids, vec![11]);
    router.subscribe(10, vec![("c".to_string(), 1)]);
    let mut ids = router.get_subscribers_for_topic("c");
    ids.sort();
    assert_eq!(ids, vec![10, 11]);
    assert!(router.get_subscribers_for_topic("a/x").is_empty());
}
