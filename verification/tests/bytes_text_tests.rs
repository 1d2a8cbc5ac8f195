use rusty_mqtt::bytes_text::{bytes_equal, bytes_to_vec, str_equal, utf8_lossy, utf8_str};
use rusty_mqtt::platform::{bytes_as_slice, bytes_copy_from_slice, bytes_from_vec, sender_same_channel};
use rusty_mqtt::client_registry::ConnectionCommand;

#[test]
fn equality_helpers() {
    assert!(bytes_equal(b"ab", b"ab"));
    assert!(!bytes_equal(b"ab", b"abc"));
    assert!(str_equal("x/y", "x/y"));
    assert!(!str_equal("x/y", "x/z"));
    assert_eq!(bytes_to_vec(&[1, 2, 3]), vec![1, 2, 3]);
}

#[test]
fn utf8_decoding() {
    assert_eq!(utf8_lossy(b"abc"), "abc");
    assert_eq!(utf8_lossy(&[b'a', 0xFF]), "a\u{FFFD}");
    assert_eq!(utf8_str("h\u{e9}".as_bytes()), Some("h\u{e9}"));
    assert_eq!(utf8_str(&[0xC3]), None);
}

#[test]
fn bytes_wrappers_keep_content() {
    let b = bytes_copy_from_slice(&[9, 8, 7]);
    assert_eq!(bytes_as_slice(&b), &[9, 8, 7]);
    let b = bytes_from_vec(vec![4, 5]);
    assert_eq!(bytes_as_slice(&b), &[4, 5]);
}

#[test]
fn channel_identity() {
    let (a, _ra) = tokio::sync::mpsc::channel::<ConnectionCommand>(1);
    let (b, _rb) = tokio::sync::mpsc::channel::<ConnectionCommand>(1);
    assert!(sender_same_channel(&a, &a.clone()));
    assert!(!sender_same_channel(&a, &b));
}
