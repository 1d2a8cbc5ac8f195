use rusty_mqtt::codec::{encode_publish, encode_remaining_length, frame_length, parse_publish};

#[test]
fn frame_length_single_byte_length() {
    assert_eq!(frame_length(&[0x30, 0x02, 0x00, 0x00]), Some(4));
    assert_eq!(frame_length(&[0xC0, 0x00]), Some(2));
    // only the header matters: the body need not be there yet
    assert_eq!(frame_length(&[0x30, 0x05]), Some(7));
}

#[test]
fn frame_length_multi_byte_length() {
    assert_eq!(frame_length(&[0x30, 0x80, 0x01]), Some(3 + 128));
    assert_eq!(frame_length(&[0x30, 0xFF, 0xFF, 0xFF, 0x7F]), Some(5 + 268_435_455));
}

#[test]
fn frame_length_incomplete_or_overlong() {
    assert_eq!(frame_length(&[]), None);
    assert_eq!(frame_length(&[0x30]), None);
    assert_eq!(frame_length(&[0x30, 0x80]), None);
    assert_eq!(frame_length(&[0x30, 0x80, 0x80, 0x80, 0x80, 0x01]), None);
}

#[test]
fn encode_remaining_length_values() {
    let mut out = vec![0xAA];
    encode_remaining_length(0, &mut out);
    assert_eq!(out, vec![0xAA, 0x00]);
    let mut out = Vec::new();
    encode_remaining_length(127, &mut out);
    assert_eq!(out, vec![0x7F]);
    let mut out = Vec::new();
    encode_remaining_length(128, &mut out);
    assert_eq!(out, vec![0x80, 0x01]);
    let mut out = Vec::new();
    encode_remaining_length(16_383, &mut out);
    assert_eq!(out, vec![0xFF, 0x7F]);
    let mut out = Vec::new();
    encode_remaining_length(2_097_152, &mut out);
    assert_eq!(out, vec![0x80, 0x80, 0x80, 0x01]);
}

#[test]
fn encode_publish_layout() {
    let frame = encode_publish("a/b", b"hi");
    assert_eq!(frame, vec![0x30, 7, 0x00, 0x03, b'a', b'/', b'b', b'h', b'i']);
    let frame = encode_publish("", b"");
    assert_eq!(frame, vec![0x30, 2, 0x00, 0x00]);
}

#[test]
fn encode_publish_long_payload_uses_multibyte_length() {
    let payload = vec![0x5Au8; 200];
    let frame = encode_publish("t", &payload);
    assert_eq!(&frame[..6], &[0x30, 0xCB, 0x01, 0x00, 0x01, b't']);
    assert_eq!(frame.len(), 3 + 203);
    assert_eq!(frame_length(&frame), Some(frame.len()));
}

#[test]
fn publish_round_trip() {
    let payload: Vec<u8> = (0..=255u8).cycle().take(500).collect();
    let frame = encode_publish("bin/data", &payload);
    let (topic, body) = parse_publish(&frame).expect("frame parses");
    assert_eq!(topic, "bin/data");
    assert_eq!(&body[..], &payload[..]);
}

#[test]
fn parse_publish_ignores_trailing_bytes() {
    let mut frame = encode_publish("x", b"yz");
    frame.extend_from_slice(&[0xE0, 0x00]);
    let (topic, body) = parse_publish(&frame).expect("frame parses");
    assert_eq!(topic, "x");
    assert_eq!(&body[..], b"yz");
}

#[test]
fn parse_publish_rejects() {
    // not a PUBLISH
    assert!(parse_publish(&[0x10, 0x02, 0x00, 0x00]).is_none());
    assert!(parse_publish(&[]).is_none());
    // QoS 1
    assert!(parse_publish(&[0x32, 0x04, 0x00, 0x01, b'a', 0x00]).is_none());
    // body shorter than announced
    assert!(parse_publish(&[0x30, 0x05, 0x00, 0x01, b'a']).is_none());
    // no room for the topic length
    assert!(parse_publish(&[0x30, 0x01, 0x00]).is_none());
    // topic longer than the body
    assert!(parse_publish(&[0x30, 0x03, 0x00, 0x05, b'a']).is_none());
    // topic is not UTF-8
    assert!(parse_publish(&[0x30, 0x03, 0x00, 0x01, 0xFF]).is_none());
    // length header cut off
    assert!(parse_publish(&[0x30, 0x80]).is_none());
}

#[test]
fn parse_publish_retain_flag_is_accepted() {
    let (topic, body) = parse_publish(&[0x31, 0x04, 0x00, 0x01, b'k', b'v']).expect("parses");
    assert_eq!(topic, "k");
    assert_eq!(&body[..], b"v");
}

#[test]
fn parse_publish_discards_wildcard_topics() {
    assert!(parse_publish(&encode_publish("home/+/temp", b"21.5")).is_none());
    assert!(parse_publish(&encode_publish("sensors/#", b"x")).is_none());
    assert!(parse_publish(&encode_publish("#", b"")).is_none());
    assert!(parse_publish(&encode_publish("home/kitchen/temp", b"21.5")).is_some());
}

#[test]
fn parse_publish_rejects_five_byte_length() {
    // four length bytes that all carry the continuation bit: malformed
    assert!(parse_publish(&[0x30, 0x83, 0x80, 0x80, 0x80, 0x00, 0x01, b'a']).is_none());
    assert!(parse_publish(&[0x30, 0x03, 0x00, 0x01, b'a']).is_some());
}
