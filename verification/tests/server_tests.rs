use rusty_mqtt::client_registry::ConnectionCommand;
use rusty_mqtt::mqtt_protocol::MqttConnection;
use rusty_mqtt::client_registry::ClientRegistry;
use rusty_mqtt::server::{
    accept_connect, check_connect, complete_frame_length, end_session, fanout_senders,
    ConnectionSession, SessionAction, TakeoverStep,
};
use rusty_mqtt::subscribe_handlers::TopicRouter;
use rusty_mqtt::{extract_packet_id, BrokerConfig, MqttPacket, MqttServer};
use tokio::sync::mpsc;

fn connect_frame(client_id: &[u8]) -> Vec<u8> {
    let mut packet = vec![0x10, 0x00, 0x00, 0x04, b'M', b'Q', b'T', b'T', 0x04, 0x02, 0x00, 0x3C];
    packet.push(0x00);
    packet.push(client_id.len() as u8);
    packet.extend_from_slice(client_id);
    packet[1] = (packet.len() - 2) as u8;
    packet
}

fn subscribe_frame(packet_id: u16, filters: &[(&str, u8)]) -> Vec<u8> {
    let mut body = vec![(packet_id >> 8) as u8, packet_id as u8];
    for (f, q) in filters {
        body.push(0x00);
        body.push(f.len() as u8);
        body.extend_from_slice(f.as_bytes());
        body.push(*q);
    }
    let mut frame = vec![0x82, body.len() as u8];
    frame.extend_from_slice(&body);
    frame
}

#[test]
fn parse_packet_classifies() {
    assert!(matches!(MqttServer::parse_packet(&[0x10, 0x00]), MqttPacket::Connect));
    assert!(matches!(MqttServer::parse_packet(&[0x30, 0x00]), MqttPacket::Publish(ref s) if s.is_empty()));
    assert!(matches!(MqttServer::parse_packet(&[0x82, 0x02, 0x12, 0x34]), MqttPacket::Subscribe(0x1234)));
    assert!(matches!(MqttServer::parse_packet(&[0x82, 0x02, 0x12]), MqttPacket::Unknown));
    assert!(matches!(MqttServer::parse_packet(&[0xC0, 0x00]), MqttPacket::PINGREQ));
    assert!(matches!(MqttServer::parse_packet(&[0xE0, 0x00]), MqttPacket::Disconnect));
    assert!(matches!(MqttServer::parse_packet(&[0xA2, 0x00]), MqttPacket::Unknown));
    assert!(matches!(MqttServer::parse_packet(&[]), MqttPacket::Unknown));
}

#[test]
fn extract_packet_id_masks_high_nibble() {
    assert_eq!(extract_packet_id(&[0xF1, 0x02], 0), Ok(0x0102));
    assert_eq!(MqttServer::extract_packet_id(&[0x00, 0xAB, 0xCD], 1), Ok(0x0BCD));
    assert_eq!(
        extract_packet_id(&[0x01], 0),
        Err("Buffer zu kurz fuer Packet ID".to_string())
    );
    assert!(extract_packet_id(&[0x01, 0x02], 1).is_err());
}

#[test]
fn connect_client_id_falls_back_to_unknown() {
    assert_eq!(MqttServer::parse_connect_client_id(&[0x10, 0x00]), "unknown");
    let mut frame = connect_frame(b"abc");
    frame.truncate(frame.len() - 1);
    assert_eq!(MqttServer::parse_connect_client_id(&frame), "unknown");
    assert_eq!(MqttServer::parse_connect_client_id(&connect_frame(b"")), "");
}

#[test]
fn handle_subscribe_impl_stores_and_acks() {
    let mut router = TopicRouter::new();
    let (tx, _rx) = mpsc::channel::<ConnectionCommand>(1);
    let frame = subscribe_frame(10, &[("a/b", 1), ("c/#", 0)]);
    let ack = MqttServer::handle_subscribe_impl(&frame, "cl", &mut router, &tx).expect("ok");
    // QoS 1 is requested for a/b, but only QoS 0 is delivered: granted 0
    assert_eq!(ack, vec![0x90, 4, 0x00, 10, 0, 0]);
    assert_eq!(router.get_subscribers_for_topic("a/b")[0].client_id, "cl");
    assert_eq!(router.get_subscribers_for_topic("a/b")[0].qos, 0);
    assert_eq!(router.get_subscribers_for_topic("c/x/y")[0].qos, 0);
}

#[test]
fn handle_subscribe_impl_short_buffer() {
    let mut router = TopicRouter::new();
    let (tx, _rx) = mpsc::channel::<ConnectionCommand>(1);
    let r = MqttServer::handle_subscribe_impl(&[0x82, 0x02, 0x00], "cl", &mut router, &tx);
    assert_eq!(r, Err("Buffer too short for SUBSCRIBE".to_string()));
    // a header alone stores nothing and acks no filter
    let r = MqttServer::handle_subscribe_impl(&[0x82, 0x02, 0x00, 0x07], "cl", &mut router, &tx);
    assert_eq!(r, Ok(vec![0x90, 2, 0x00, 7]));
    assert!(router.get_subscribers_for_topic("").is_empty());
}

#[test]
fn handle_subscribe_impl_decodes_invalid_utf8_lossily() {
    let mut router = TopicRouter::new();
    let (tx, _rx) = mpsc::channel::<ConnectionCommand>(1);
    let frame = vec![0x82, 0x06, 0x00, 0x01, 0x00, 0x01, 0xFF, 0x00];
    let ack = MqttServer::handle_subscribe_impl(&frame, "cl", &mut router, &tx).expect("ok");
    assert_eq!(ack, vec![0x90, 3, 0x00, 1, 0]);
    assert_eq!(router.get_subscribers_for_topic("\u{FFFD}").len(), 1);
}

#[test]
fn server_from_config_uses_address() {
    let server = MqttServer::from_config(BrokerConfig { host: "0.0.0.0".to_string(), port: 9999 });
    assert_eq!(server.get_address(), "0.0.0.0:9999");
}

#[test]
fn complete_frame_length_waits_for_body() {
    assert_eq!(complete_frame_length(&[0x30, 0x03, 0x00]), None);
    assert_eq!(complete_frame_length(&[0x30, 0x01, 0x00, 0xE0]), Some(3));
    assert_eq!(complete_frame_length(&[0x30]), None);
}

#[test]
fn parse_incoming_packet_reads_first_frame() {
    assert!(MqttConnection::parse_incoming_packet(&[0xC0]).is_none());
    assert!(MqttConnection::parse_incoming_packet(&[0x30, 0x05, 0x00]).is_none());
    match MqttConnection::parse_incoming_packet(&[0x82, 0x02, 0x00, 0x09, 0xC0, 0x00]) {
        Some((MqttPacket::Subscribe(9), 4)) => {}
        other => panic!("unexpected {:?}", other.map(|(_, n)| n)),
    }
    match MqttConnection::parse_incoming_packet(&[0xC0, 0x00, 0xFF]) {
        Some((MqttPacket::PINGREQ, 2)) => {}
        _ => panic!("expected PINGREQ"),
    }
}

#[test]
fn session_connect_then_subscribe() {
    let mut session = ConnectionSession::new();
    assert!(session.client_id().is_none());
    let frame = subscribe_frame(3, &[("t", 0)]);
    match session.on_frame(&frame) {
        Some(SessionAction::Subscribe { client_id, frame: f }) => {
            assert_eq!(client_id, "unknown");
            assert_eq!(f, frame);
        }
        _ => panic!("expected Subscribe"),
    }
    match session.on_frame(&connect_frame(b"dev-1")) {
        Some(SessionAction::Connect { client_id, connack }) => {
            assert_eq!(client_id, "dev-1");
            assert_eq!(connack, vec![0x20, 0x02, 0x00, 0x00]);
        }
        _ => panic!("expected Connect"),
    }
    assert_eq!(session.client_id(), Some("dev-1"));
    match session.on_frame(&frame) {
        Some(SessionAction::Subscribe { client_id, .. }) => assert_eq!(client_id, "dev-1"),
        _ => panic!("expected Subscribe"),
    }
}

#[test]
fn session_ping_publish_disconnect() {
    let mut session = ConnectionSession::new();
    match session.on_frame(&[0xC0, 0x00]) {
        Some(SessionAction::Reply(b)) => assert_eq!(b, vec![0xD0, 0x00]),
        _ => panic!("expected PINGRESP"),
    }
    match session.on_frame(&[0x31, 0x04, 0x00, 0x01, b'k', b'v']) {
        Some(SessionAction::Publish { topic, frame }) => {
            assert_eq!(topic, "k");
            assert_eq!(&frame[..], &[0x30, 0x04, 0x00, 0x01, b'k', b'v']);
        }
        _ => panic!("expected Publish"),
    }
    assert!(session.on_frame(&[0x32, 0x04, 0x00, 0x01, b'k', 0x00]).is_none());
    assert!(session.on_frame(&[0xA2, 0x00]).is_none());
    assert!(session.on_frame(&[0x82, 0x02, 0x00]).is_none());
    assert!(matches!(session.on_frame(&[0xE0, 0x00]), Some(SessionAction::Close)));
    assert!(session.client_id().is_none());
}

#[test]
fn fanout_reaches_matching_subscribers_in_order() {
    let mut router = TopicRouter::new();
    let (tx1, _rx1) = mpsc::channel::<ConnectionCommand>(1);
    let (tx2, _rx2) = mpsc::channel::<ConnectionCommand>(1);
    router.subscribe("a", &[("home/+/temp".to_string(), 0)], &tx1);
    router.subscribe("b", &[("home/#".to_string(), 0)], &tx2);
    router.subscribe("b", &[("other".to_string(), 0)], &tx2);
    let senders = fanout_senders(&router, "home/kitchen/temp");
    assert_eq!(senders.len(), 2);
    assert!(senders[0].same_channel(&tx1));
    assert!(senders[1].same_channel(&tx2));
    assert!(fanout_senders(&router, "nope").is_empty());
}

#[test]
fn session_drops_publish_with_wildcard_topic() {
    let mut session = ConnectionSession::new();
    assert!(session.on_frame(&[0x30, 0x04, 0x00, 0x01, b'+', b'v']).is_none());
    assert!(session.on_frame(&[0x30, 0x03, 0x00, 0x01, b'#']).is_none());
}

#[test]
fn handle_subscribe_impl_stores_valid_filter_as_text() {
    let mut router = TopicRouter::new();
    let (tx, _rx) = mpsc::channel::<ConnectionCommand>(1);
    let frame = subscribe_frame(2, &[("home/+/temp", 2)]);
    let ack = MqttServer::handle_subscribe_impl(&frame, "cl", &mut router, &tx).expect("ok");
    assert_eq!(ack, vec![0x90, 3, 0x00, 2, 0]);
    assert_eq!(router.get_subscribers_for_topic("home/kitchen/temp").len(), 1);
}

#[test]
fn connect_validation() {
    let ok = connect_frame(b"dev");
    assert_eq!(check_connect(&ok), Some(0));
    let mut bad_name = ok.clone();
    bad_name[4] = b'X';
    assert_eq!(check_connect(&bad_name), None);
    let mut bad_level = ok.clone();
    bad_level[8] = 3;
    assert_eq!(check_connect(&bad_level), Some(1));
    let mut reserved = ok.clone();
    reserved[9] = 0x03;
    assert_eq!(check_connect(&reserved), None);
    assert_eq!(check_connect(&connect_frame(b"")), Some(2));
    assert_eq!(check_connect(&[0x10, 0x02, 0x00, 0x04]), None);
}

#[test]
fn session_refuses_bad_connects() {
    let mut session = ConnectionSession::new();
    let mut bad_level = connect_frame(b"dev");
    bad_level[8] = 5;
    match session.on_frame(&bad_level) {
        Some(SessionAction::Refuse(b)) => assert_eq!(b, vec![0x20, 0x02, 0x00, 0x01]),
        _ => panic!("expected refusal"),
    }
    match session.on_frame(&connect_frame(b"")) {
        Some(SessionAction::Refuse(b)) => assert_eq!(b, vec![0x20, 0x02, 0x00, 0x02]),
        _ => panic!("expected refusal"),
    }
    let mut bad_name = connect_frame(b"dev");
    bad_name[5] = b'x';
    match session.on_frame(&bad_name) {
        Some(SessionAction::Refuse(b)) => assert!(b.is_empty()),
        _ => panic!("expected refusal"),
    }
    assert!(session.client_id().is_none());
    assert_eq!(session.read_timeout_ms(), Some(300_000));
}

#[test]
fn session_keep_alive_timeout() {
    let mut session = ConnectionSession::new();
    // keep alive 60 s
    session.on_frame(&connect_frame(b"dev"));
    assert_eq!(session.read_timeout_ms(), Some(90_000));
    let mut zero = connect_frame(b"dev2");
    zero[10] = 0;
    zero[11] = 0;
    session.on_frame(&zero);
    assert_eq!(session.read_timeout_ms(), None);
}

fn unsubscribe_frame(packet_id: u16, filters: &[&str]) -> Vec<u8> {
    let mut body = vec![(packet_id >> 8) as u8, packet_id as u8];
    for f in filters {
        body.push(0x00);
        body.push(f.len() as u8);
        body.extend_from_slice(f.as_bytes());
    }
    let mut frame = vec![0xA2, body.len() as u8];
    frame.extend_from_slice(&body);
    frame
}

#[test]
fn unsubscribe_removes_filters_and_acks() {
    let mut router = TopicRouter::new();
    let (tx, _rx) = mpsc::channel::<ConnectionCommand>(1);
    MqttServer::handle_subscribe_impl(&subscribe_frame(1, &[("a", 0), ("b/#", 0)]), "cl", &mut router, &tx)
        .expect("ok");
    let ack = MqttServer::handle_unsubscribe_impl(&unsubscribe_frame(0x0203, &["a", "zzz"]), "cl", &mut router)
        .expect("ok");
    assert_eq!(ack, vec![0xB0, 0x02, 0x02, 0x03]);
    assert!(router.get_subscribers_for_topic("a").is_empty());
    assert_eq!(router.get_subscribers_for_topic("b/c").len(), 1);
    assert_eq!(
        MqttServer::handle_unsubscribe_impl(&[0xA2, 0x01, 0x00], "cl", &mut router),
        Err("Buffer too short for UNSUBSCRIBE".to_string())
    );
}

#[test]
fn session_and_parser_see_unsubscribe() {
    let frame = unsubscribe_frame(9, &["t"]);
    assert!(matches!(MqttServer::parse_packet(&frame), MqttPacket::Unsubscribe(9)));
    match MqttConnection::parse_incoming_packet(&frame) {
        Some((MqttPacket::Unsubscribe(9), n)) => assert_eq!(n, frame.len()),
        _ => panic!("expected Unsubscribe"),
    }
    let mut session = ConnectionSession::new();
    session.on_frame(&connect_frame(b"dev"));
    match session.on_frame(&frame) {
        Some(SessionAction::Unsubscribe { client_id, frame: f }) => {
            assert_eq!(client_id, "dev");
            assert_eq!(f, frame);
        }
        _ => panic!("expected Unsubscribe"),
    }
    assert!(session.on_frame(&[0xA2, 0x01, 0x00]).is_none());
}

#[test]
fn takeover_kicks_before_connack_and_cleanup_keeps_successor() {
    let mut registry = ClientRegistry::new();
    let mut router = TopicRouter::new();
    let (old_tx, _r1) = mpsc::channel::<ConnectionCommand>(1);
    let (new_tx, _r2) = mpsc::channel::<ConnectionCommand>(1);

    let mut old_session = ConnectionSession::new();
    old_session.on_frame(&connect_frame(b"dup-id"));
    let steps = accept_connect(&mut registry, "dup-id", &old_tx, vec![0x20, 0x02, 0x00, 0x00]);
    assert_eq!(steps.len(), 1);
    assert!(matches!(&steps[0], TakeoverStep::Acknowledge(b) if b == &vec![0x20, 0x02, 0x00, 0x00]));
    MqttServer::handle_subscribe_impl(&subscribe_frame(1, &[("t", 0)]), "dup-id", &mut router, &old_tx)
        .expect("ok");

    let steps = accept_connect(&mut registry, "dup-id", &new_tx, vec![0x20, 0x02, 0x00, 0x00]);
    assert_eq!(steps.len(), 2);
    match &steps[0] {
        TakeoverStep::Kick(k) => assert!(k.same_channel(&old_tx)),
        _ => panic!("kick first"),
    }
    assert!(matches!(&steps[1], TakeoverStep::Acknowledge(_)));

    // the displaced session cleans up
    end_session(&old_session, &mut router, &mut registry, &old_tx);
    assert!(router.get_subscribers_for_topic("t").is_empty());
    let still = registry.swap_in("dup-id", old_tx.clone()).expect("newcomer stays registered");
    assert!(still.same_channel(&new_tx));
}

#[test]
fn end_session_without_connect_changes_nothing() {
    let mut registry = ClientRegistry::new();
    let mut router = TopicRouter::new();
    let (tx, _r) = mpsc::channel::<ConnectionCommand>(1);
    router.subscribe("unknown", &[("t".to_string(), 0)], &tx);
    end_session(&ConnectionSession::new(), &mut router, &mut registry, &tx);
    assert_eq!(router.get_subscribers_for_topic("t").len(), 1);
}
