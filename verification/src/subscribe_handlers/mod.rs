//! Subscribe handler: SUBACK generation and wildcard-matching helpers.
use vstd::prelude::*;

use vstd::string::StringSliceAdditionalSpecFns;

use crate::bytes_text::{be16, str_equal};
use crate::codec::{encode_remaining_length, encode_varint};

pub mod mvp;
pub mod storage;
pub mod wildcards;

pub use storage::{create_router, topic_matches, Subscriber, TopicRouter};

verus! {

/// Internal record of a subscription (Packet ID, QoS, filter).
#[derive(Debug, Clone)]
pub struct SubscriptionRecord {
    /// Packet Identifier of the original SUBSCRIBE packet.
    pub packet_id: u16,
    /// Requested QoS level.
    pub qos: u8,
    /// Topic Filter string.
    pub topic_filter: String,
}

/// Subscribe Handler for parsing SUBSCRIBE packets and generating SUBACK responses
pub struct SubscribeHandler {
    _subscriptions: Option<Vec<SubscriptionRecord>>,
}

impl Default for SubscribeHandler {
    fn default() -> (r: Self)
        ensures
            r.records() == Some(Seq::<SubscriptionRecord>::empty()),
    {
        Self::new()
    }
}

/// A SUBACK frame: packet type 0x90, the Remaining Length `2 + n` as a
/// Variable Byte Integer, the packet ID big-endian, then one return code per
/// subscription.
pub open spec fn suback_frame(packet_id: u16, granted_qos: Seq<u8>) -> Seq<u8> {
    seq![0x90u8] + encode_varint((2 + granted_qos.len()) as nat) + seq![
        (packet_id / 256) as u8,
        (packet_id % 256) as u8,
    ] + granted_qos
}

impl SubscribeHandler {
    /// The records the handler holds.
    pub closed spec fn records(&self) -> Option<Seq<SubscriptionRecord>> {
        match self._subscriptions {
            Some(v) => Some(v@),
            None => None,
        }
    }

    /// Creates a new `SubscribeHandler`.
    pub fn new() -> (r: Self)
        ensures
            r.records() == Some(Seq::<SubscriptionRecord>::empty()),
    {
        let subs: Vec<SubscriptionRecord> = Vec::new();
        Self { _subscriptions: Some(subs) }
    }

    /// Extracts the 2-byte packet ID from buffer
    pub fn extract_packet_id(buffer: &[u8]) -> (r: Option<u16>)
        ensures
            buffer@.len() >= 2 ==> r == Some(be16(buffer@[0], buffer@[1]) as u16),
            buffer@.len() < 2 ==> r is None,
    {
        if buffer.len() >= 2 {
            Some((buffer[0] as u16) * 256 + (buffer[1] as u16))
        } else {
            None
        }
    }

    /// Generates SUBACK response per MQTT v3.1.1 spec.
    /// `granted_qos` contains the actually granted QoS values (1 byte per subscription).
    pub fn generate_suback(packet_id: u16, granted_qos: &[u8]) -> (r: Vec<u8>)
        requires
            granted_qos@.len() + 2 <= usize::MAX,
        ensures
            r@ == suback_frame(packet_id, granted_qos@),
    {
        let mut response: Vec<u8> = Vec::new();
        response.push(0x90);
        encode_remaining_length(2 + granted_qos.len(), &mut response);
        response.push((packet_id / 256) as u8);
        response.push((packet_id % 256) as u8);
        let ghost head = response@;
        assert(head =~= seq![0x90u8] + encode_varint((2 + granted_qos@.len()) as nat) + seq![
            (packet_id / 256) as u8,
            (packet_id % 256) as u8,
        ]);
        let n = granted_qos.len();
        let mut i: usize = 0;
        while i < n
            invariant
                n == granted_qos@.len(),
                i <= n,
                response@ == head + granted_qos@.take(i as int),
            decreases n - i,
        {
            response.push(granted_qos[i]);
            assert(granted_qos@.take(i + 1) =~= granted_qos@.take(i as int).push(granted_qos@[i as int]));
            i = i + 1;
        }
        assert(granted_qos@.take(n as int) =~= granted_qos@);
        response
    }

    /// Topic wildcard matching: `+` matches exactly one level, a trailing `#`
    /// any number of remaining levels.
    pub fn wildcard_match(filter: &str, topic: &str) -> (r: bool)
        ensures
            r == storage::topic_match_spec(filter.spec_bytes(), topic.spec_bytes()),
    {
        topic_matches(filter, topic)
    }
}

/// Checks whether `topic` exactly matches `filter` (no wildcard matching).
pub fn exact_match(topic: &str, filter: &str) -> (r: bool)
    ensures
        r == (topic@ == filter@),
{
    str_equal(topic, filter)
}

} // verus!
