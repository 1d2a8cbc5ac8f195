//! MQTT protocol handling: reading packets off an incoming byte stream.
use vstd::prelude::*;

use crate::codec::frame_length_spec;
use crate::server::{complete_frame_length, packet_type, MqttPacket, MqttServer};
use crate::bytes_text::be16;

verus! {

/// Protocol handling of one connection.
pub struct MqttConnection;

impl MqttConnection {
    /// Parses incoming bytes to determine the packet type of the first frame
    /// and how many bytes it takes. `None` while the buffer holds fewer than
    /// two bytes or no complete frame yet.
    pub fn parse_incoming_packet(buffer: &[u8]) -> (r: Option<(MqttPacket, usize)>)
        ensures
            buffer@.len() < 2 ==> r is None,
            buffer@.len() >= 2 ==> match frame_length_spec(buffer@) {
                Some(n) => if n <= buffer@.len() {
                    r matches Some((p, len)) && len == n && (packet_type(buffer@) == 1 ==> p is Connect)
                        && (packet_type(buffer@) == 3 ==> p is Publish)
                        && (packet_type(buffer@) == 8 && n > 3 ==> (p matches MqttPacket::Subscribe(id)
                        && id == be16(buffer@[2], buffer@[3])))
                        && (packet_type(buffer@) == 8 && n <= 3 ==> p is Unknown)
                        && (packet_type(buffer@) == 10 && n > 3 ==> (p matches MqttPacket::Unsubscribe(
                        id,
                    ) && id == be16(buffer@[2], buffer@[3])))
                        && (packet_type(buffer@) == 10 && n <= 3 ==> p is Unknown)
                        && (packet_type(buffer@) == 12 ==> p is PINGREQ)
                        && (packet_type(buffer@) == 14 ==> p is Disconnect)
                        && (packet_type(buffer@) != 1 && packet_type(buffer@) != 3
                        && packet_type(buffer@) != 8 && packet_type(buffer@) != 10
                        && packet_type(buffer@) != 12 && packet_type(buffer@) != 14 ==> p is Unknown)
                } else {
                    r is None
                },
                None => r is None,
            },
    {
        if buffer.len() < 2 {
            return None;
        }
        match complete_frame_length(buffer) {
            Some(len) => {
                proof {
                    crate::codec::lemma_frame_length_small(buffer@);
                }
                assert(len <= buffer@.len());
                let frame = &buffer[0..len];
                proof {
                    if len > 3 {
                        assert(frame@[2] == buffer@[2] && frame@[3] == buffer@[3]);
                    }
                }
                let packet = MqttServer::parse_packet(frame);
                Some((packet, len))
            },
            None => None,
        }
    }
}

} // verus!
