//! The broker server: packet classification, CONNECT and SUBSCRIBE parsing,
//! and the per-connection decisions taken for each incoming frame.
use vstd::prelude::*;

use std::sync::{Arc, Mutex};

use bytes::Bytes;
use tokio::sync::mpsc::Sender;
use vstd::string::{StringExecFns, StringSliceAdditionalSpecFns};
use vstd::utf8::{decode_utf8, decode_utf8_encode_utf8, encode_utf8, valid_utf8};

use crate::bytes_text::{be16, lossy_text, utf8_lossy};
use crate::client_registry::{
    after_remove_if_owner, after_swap_in, displaced, ClientRegistry, ConnectionCommand,
};
use crate::bytes_text::has_wildcard_byte;
use crate::codec::{
    encode_publish, frame_length, frame_length_spec, lemma_parse_publish_small,
    lemma_publish_round_trip, parse_publish, parse_publish_spec, pow128, publish_frame,
};
use crate::config::BrokerConfig;
use crate::platform::{bytes_as_slice, bytes_content, bytes_from_vec, new_mutex};
use crate::subscribe_handlers::storage::{
    filter_listed, filters_view, holds_only, lemma_matching_includes, lemma_remove_client_clears,
    lemma_subscribe_all, last_qos, matching_subscribers, remove_client_spec, router_wf,
    strings_view, subscribe_spec, topic_match_spec, unsubscribe_spec, SubscriberView,
};
use crate::subscribe_handlers::{suback_frame, SubscribeHandler, TopicRouter};

verus! {

/// Capacity of the per-connection mpsc channel for frames to deliver.
pub const SUBSCRIBER_CHANNEL_CAPACITY: usize = 32;

/// The highest QoS the broker delivers; higher requests are granted this.
pub const MAX_SUPPORTED_QOS: u8 = 0;

/// The control packet types the broker tells apart.
#[derive(Debug, PartialEq)]
#[allow(non_camel_case_types)]
pub enum MqttPacket {
    Connect,
    Subscribe(u16),
    Unsubscribe(u16),
    Publish(String),
    Disconnect,
    PINGREQ,
    Unknown,
}

/// The control packet type of a frame: the high nibble of its first byte.
pub open spec fn packet_type(frame: Seq<u8>) -> int {
    if frame.len() == 0 {
        -1
    } else {
        (frame[0] / 16) as int
    }
}

/// The client ID bytes of a CONNECT frame: the length-prefixed string after
/// the ten bytes of variable header; `None` when the frame is too short for it.
pub open spec fn connect_client_id_bytes(buf: Seq<u8>) -> Option<Seq<u8>> {
    if buf.len() < 14 {
        None
    } else {
        let len = be16(buf[12], buf[13]);
        if buf.len() < 14 + len {
            None
        } else {
            Some(buf.subrange(14, 14 + len))
        }
    }
}

/// The client ID of a CONNECT frame: its client ID bytes read as UTF-8 with
/// invalid sequences replaced; `unknown` when the frame is too short for it.
pub open spec fn connect_client_id_spec(buf: Seq<u8>) -> Seq<char> {
    match connect_client_id_bytes(buf) {
        None => "unknown"@,
        Some(b) => lossy_text(b),
    }
}

/// The (topic filter bytes, requested QoS) pairs of a SUBSCRIBE payload from
/// `offset` on: each is a two-byte big-endian length, the filter and a QoS
/// byte. Reading stops at the first pair that does not fit completely.
pub open spec fn subscribe_entries(buf: Seq<u8>, offset: int) -> Seq<(Seq<u8>, u8)>
    decreases buf.len() - offset,
{
    if offset < 0 || offset + 2 >= buf.len() {
        Seq::empty()
    } else {
        let len = be16(buf[offset], buf[offset + 1]);
        let start = offset + 2;
        if start + len >= buf.len() {
            Seq::empty()
        } else {
            seq![(buf.subrange(start, start + len), buf[start + len])] + subscribe_entries(
                buf,
                start + len + 1,
            )
        }
    }
}

proof fn lemma_subscribe_entries_len(buf: Seq<u8>, offset: int)
    requires
        0 <= offset,
    ensures
        subscribe_entries(buf, offset).len() <= if offset <= buf.len() {
            buf.len() - offset
        } else {
            0
        },
    decreases buf.len() - offset,
{
    if offset + 2 < buf.len() {
        let len = be16(buf[offset], buf[offset + 1]);
        let start = offset + 2;
        if start + len < buf.len() {
            lemma_subscribe_entries_len(buf, start + len + 1);
        }
    }
}

/// The QoS the broker grants for a requested QoS: the requested one, capped
/// at the highest QoS the broker delivers (silent downgrade).
pub open spec fn granted_qos(requested: u8) -> u8 {
    if requested > MAX_SUPPORTED_QOS {
        MAX_SUPPORTED_QOS
    } else {
        requested
    }
}

/// The filters of a SUBSCRIBE frame as the router receives them, each with
/// its granted QoS.
pub open spec fn subscribe_filters_spec(buf: Seq<u8>) -> Seq<(Seq<char>, u8)> {
    subscribe_entries(buf, 4).map_values(|e: (Seq<u8>, u8)| (lossy_text(e.0), granted_qos(e.1)))
}

/// The granted QoS values of a SUBSCRIBE frame, in order.
pub open spec fn subscribe_qos_spec(buf: Seq<u8>) -> Seq<u8> {
    subscribe_entries(buf, 4).map_values(|e: (Seq<u8>, u8)| granted_qos(e.1))
}

/// The topic filter bytes of an UNSUBSCRIBE payload from `offset` on: each is
/// a two-byte big-endian length and the filter. Reading stops at the first
/// filter that does not fit completely.
pub open spec fn unsubscribe_entries(buf: Seq<u8>, offset: int) -> Seq<Seq<u8>>
    decreases buf.len() - offset,
{
    if offset < 0 || offset + 2 > buf.len() {
        Seq::empty()
    } else {
        let len = be16(buf[offset], buf[offset + 1]);
        let start = offset + 2;
        if start + len > buf.len() {
            Seq::empty()
        } else {
            seq![buf.subrange(start, start + len)] + unsubscribe_entries(buf, start + len)
        }
    }
}

/// The filters of an UNSUBSCRIBE frame as the router receives them.
pub open spec fn unsubscribe_filters_spec(buf: Seq<u8>) -> Seq<Seq<char>> {
    unsubscribe_entries(buf, 4).map_values(|b: Seq<u8>| lossy_text(b))
}

/// The UNSUBACK for the packet ID `packet_id`.
pub open spec fn unsuback_frame(packet_id: u16) -> Seq<u8> {
    seq![0xB0u8, 0x02u8, (packet_id / 256) as u8, (packet_id % 256) as u8]
}

/// The broker: its bind address and the state its connections share.
pub struct MqttServer {
    address: String,
    topic_router: Arc<Mutex<TopicRouter>>,
    client_registry: Arc<Mutex<ClientRegistry>>,
}

impl MqttServer {
    /// The bind address.
    pub closed spec fn address_view(&self) -> Seq<char> {
        self.address@
    }

    /// Creates a server for the bind address `addr`, with an empty router and
    /// an empty client registry.
    pub fn new(addr: &str) -> (r: Self)
        ensures
            r.address_view() == addr@,
    {
        Self {
            address: <String as StringExecFns>::from_str(addr),
            topic_router: Arc::new(new_mutex(TopicRouter::new())),
            client_registry: Arc::new(new_mutex(ClientRegistry::new())),
        }
    }

    /// Creates a server from a `BrokerConfig`.
    pub fn from_config(config: BrokerConfig) -> (r: Self)
        ensures
            r.address_view() == config.address_text(),
    {
        Self {
            address: config.address(),
            topic_router: Arc::new(new_mutex(TopicRouter::new())),
            client_registry: Arc::new(new_mutex(ClientRegistry::new())),
        }
    }

    /// The bind address.
    pub fn get_address(&self) -> (r: &str)
        ensures
            r@ == self.address_view(),
    {
        self.address.as_str()
    }

    /// The handle of the shared topic router.
    pub closed spec fn router_handle(&self) -> Arc<Mutex<TopicRouter>> {
        self.topic_router
    }

    /// The handle of the shared client registry.
    pub closed spec fn registry_handle(&self) -> Arc<Mutex<ClientRegistry>> {
        self.client_registry
    }

    /// The topic router that all connections share.
    pub fn topic_router(&self) -> (r: &Arc<Mutex<TopicRouter>>)
        ensures
            *r == self.router_handle(),
    {
        &self.topic_router
    }

    /// The client registry that all connections share.
    pub fn client_registry(&self) -> (r: &Arc<Mutex<ClientRegistry>>)
        ensures
            *r == self.registry_handle(),
    {
        &self.client_registry
    }

    /// Parses a SUBSCRIBE frame, stores its subscriptions in the router for
    /// `client_id` with the channel `tx`, and returns a SUBACK with the granted
    /// QoS values. A filter that is valid UTF-8 is stored as its text; each
    /// requested QoS is granted up to `MAX_SUPPORTED_QOS`.
    pub fn handle_subscribe_impl(
        buffer: &[u8],
        client_id: &str,
        router: &mut TopicRouter,
        tx: &Sender<ConnectionCommand>,
    ) -> (r: Result<Vec<u8>, String>)
        ensures
            buffer@.len() < 4 ==> (r matches Err(e) && e@ == "Buffer too short for SUBSCRIBE"@
                && final(router)@ == old(router)@),
            buffer@.len() >= 4 ==> (r matches Ok(suback) && suback@ == suback_frame(
                be16(buffer@[2], buffer@[3]) as u16,
                subscribe_qos_spec(buffer@),
            ) && final(router)@ == subscribe_spec(
                old(router)@,
                client_id@,
                subscribe_filters_spec(buffer@),
                *tx,
            )),
            buffer@.len() >= 4 ==> forall|i: int|
                0 <= i < subscribe_entries(buffer@, 4).len() && valid_utf8(
                    #[trigger] subscribe_entries(buffer@, 4)[i].0,
                ) ==> subscribe_filters_spec(buffer@)[i].0 == decode_utf8(
                    subscribe_entries(buffer@, 4)[i].0,
                ),
            router_wf(old(router)@) ==> router_wf(final(router)@),
    {
        if buffer.len() < 4 {
            return Err(<String as StringExecFns>::from_str("Buffer too short for SUBSCRIBE"));
        }
        let packet_id = (buffer[2] as u16) * 256 + (buffer[3] as u16);
        let ghost buf = buffer@;
        let mut topic_filters: Vec<(String, u8)> = Vec::new();
        let mut offset: usize = 4;
        let ghost mut seen: Seq<(Seq<u8>, u8)> = Seq::empty();
        assert(seen + subscribe_entries(buf, 4) =~= subscribe_entries(buf, 4));
        while buffer.len() - offset > 2
            invariant_except_break
                buf == buffer@,
                4 <= offset <= buf.len(),
                seen + subscribe_entries(buf, offset as int) == subscribe_entries(buf, 4),
                forall|k: int|
                    0 <= k < seen.len() && valid_utf8(#[trigger] seen[k].0) ==> lossy_text(seen[k].0)
                        == decode_utf8(seen[k].0),
                filters_view(topic_filters@) + subscribe_entries(buf, offset as int).map_values(
                    |e: (Seq<u8>, u8)| (lossy_text(e.0), granted_qos(e.1)),
                ) == subscribe_filters_spec(buf),
                topic_filters@.map_values(|p: (String, u8)| p.1) + subscribe_entries(
                    buf,
                    offset as int,
                ).map_values(|e: (Seq<u8>, u8)| granted_qos(e.1)) == subscribe_qos_spec(buf),
            ensures
                filters_view(topic_filters@) == subscribe_filters_spec(buf),
                topic_filters@.map_values(|p: (String, u8)| p.1) == subscribe_qos_spec(buf),
                seen == subscribe_entries(buf, 4),
                forall|k: int|
                    0 <= k < seen.len() && valid_utf8(#[trigger] seen[k].0) ==> lossy_text(seen[k].0)
                        == decode_utf8(seen[k].0),
            decreases buf.len() - offset,
        {
            let ghost before = topic_filters@;
            let ghost rest = subscribe_entries(buf, offset as int);
            let topic_len = (buffer[offset] as usize) * 256 + (buffer[offset + 1] as usize);
            let start = offset + 2;
            if topic_len >= buffer.len() - start {
                assert(rest =~= Seq::<(Seq<u8>, u8)>::empty());
                assert(seen =~= seen + rest);
                assert(filters_view(topic_filters@) =~= filters_view(topic_filters@) + rest.map_values(
                    |e: (Seq<u8>, u8)| (lossy_text(e.0), granted_qos(e.1)),
                ));
                assert(topic_filters@.map_values(|p: (String, u8)| p.1) =~= topic_filters@.map_values(
                    |p: (String, u8)| p.1,
                ) + rest.map_values(|e: (Seq<u8>, u8)| granted_qos(e.1)));
                break;
            }
            let topic_bytes = &buffer[start..start + topic_len];
            assert(topic_bytes@ == buf.subrange(start as int, start + topic_len));
            let topic = utf8_lossy(topic_bytes);
            let requested = buffer[start + topic_len];
            let qos = if requested > MAX_SUPPORTED_QOS {
                MAX_SUPPORTED_QOS
            } else {
                requested
            };
            offset = start + topic_len + 1;
            topic_filters.push((topic, qos));
            proof {
                let e = (buf.subrange(start as int, start + topic_len), requested);
                let old_seen = seen;
                seen = seen.push(e);
                let next = subscribe_entries(buf, offset as int);
                assert(rest == seq![e] + next);
                assert(seen + next =~= old_seen + rest);
                assert forall|k: int|
                    0 <= k < seen.len() && valid_utf8(#[trigger] seen[k].0) implies lossy_text(
                    seen[k].0,
                ) == decode_utf8(seen[k].0) by {
                    if k < old_seen.len() {
                        assert(seen[k] == old_seen[k]);
                    }
                }
                assert(filters_view(topic_filters@) =~= filters_view(before).push(
                    (lossy_text(e.0), granted_qos(e.1)),
                ));
                assert(rest.map_values(|x: (Seq<u8>, u8)| (lossy_text(x.0), granted_qos(x.1))) =~= seq![
                    (lossy_text(e.0), granted_qos(e.1)),
                ] + next.map_values(|x: (Seq<u8>, u8)| (lossy_text(x.0), granted_qos(x.1))));
                assert(filters_view(topic_filters@) + next.map_values(
                    |x: (Seq<u8>, u8)| (lossy_text(x.0), granted_qos(x.1)),
                ) =~= filters_view(before) + rest.map_values(
                    |x: (Seq<u8>, u8)| (lossy_text(x.0), granted_qos(x.1)),
                ));
                assert(topic_filters@.map_values(|p: (String, u8)| p.1) =~= before.map_values(
                    |p: (String, u8)| p.1,
                ).push(qos));
                assert(rest.map_values(|x: (Seq<u8>, u8)| granted_qos(x.1)) =~= seq![granted_qos(e.1)] + next.map_values(
                    |x: (Seq<u8>, u8)| granted_qos(x.1),
                ));
                assert(topic_filters@.map_values(|p: (String, u8)| p.1) + next.map_values(
                    |x: (Seq<u8>, u8)| granted_qos(x.1),
                ) =~= before.map_values(|p: (String, u8)| p.1) + rest.map_values(
                    |x: (Seq<u8>, u8)| granted_qos(x.1),
                ));
            }
        }
        proof {
            let entries = subscribe_entries(buf, 4);
            assert forall|i: int|
                0 <= i < entries.len() && valid_utf8(#[trigger] entries[i].0) implies subscribe_filters_spec(
                buf,
            )[i].0 == decode_utf8(entries[i].0) by {
                assert(seen[i] == entries[i]);
            }
        }
        let granted = router.subscribe(client_id, topic_filters.as_slice(), tx);
        proof {
            lemma_subscribe_entries_len(buf, 4);
            assert(granted@.len() == subscribe_qos_spec(buf).len());
        }
        Ok(SubscribeHandler::generate_suback(packet_id, granted.as_slice()))
    }

    /// Parses an UNSUBSCRIBE frame, removes the subscriptions of `client_id`
    /// to its topic filters from the router (filters that are not stored are
    /// ignored), and returns the UNSUBACK with the same packet ID. A filter
    /// that is valid UTF-8 is taken as its text.
    pub fn handle_unsubscribe_impl(buffer: &[u8], client_id: &str, router: &mut TopicRouter) -> (r:
        Result<Vec<u8>, String>)
        ensures
            buffer@.len() < 4 ==> (r matches Err(e) && e@ == "Buffer too short for UNSUBSCRIBE"@
                && final(router)@ == old(router)@),
            buffer@.len() >= 4 ==> (r matches Ok(ack) && ack@ == unsuback_frame(
                be16(buffer@[2], buffer@[3]) as u16,
            ) && final(router)@ == unsubscribe_spec(
                old(router)@,
                client_id@,
                unsubscribe_filters_spec(buffer@),
            )),
            buffer@.len() >= 4 ==> forall|i: int|
                0 <= i < unsubscribe_entries(buffer@, 4).len() && valid_utf8(
                    #[trigger] unsubscribe_entries(buffer@, 4)[i],
                ) ==> unsubscribe_filters_spec(buffer@)[i] == decode_utf8(
                    unsubscribe_entries(buffer@, 4)[i],
                ),
            router_wf(old(router)@) ==> router_wf(final(router)@),
    {
        if buffer.len() < 4 {
            return Err(<String as StringExecFns>::from_str("Buffer too short for UNSUBSCRIBE"));
        }
        let packet_id = (buffer[2] as u16) * 256 + (buffer[3] as u16);
        let ghost buf = buffer@;
        let mut filters: Vec<String> = Vec::new();
        let mut offset: usize = 4;
        let ghost mut seen: Seq<Seq<u8>> = Seq::empty();
        assert(seen + unsubscribe_entries(buf, 4) =~= unsubscribe_entries(buf, 4));
        assert(strings_view(filters@) =~= seen.map_values(|b: Seq<u8>| lossy_text(b)));
        while buffer.len() - offset >= 2
            invariant_except_break
                buf == buffer@,
                4 <= offset <= buf.len(),
                seen + unsubscribe_entries(buf, offset as int) == unsubscribe_entries(buf, 4),
                strings_view(filters@) == seen.map_values(|b: Seq<u8>| lossy_text(b)),
                forall|k: int|
                    0 <= k < seen.len() && valid_utf8(#[trigger] seen[k]) ==> lossy_text(seen[k])
                        == decode_utf8(seen[k]),
            ensures
                seen == unsubscribe_entries(buf, 4),
                strings_view(filters@) == seen.map_values(|b: Seq<u8>| lossy_text(b)),
                forall|k: int|
                    0 <= k < seen.len() && valid_utf8(#[trigger] seen[k]) ==> lossy_text(seen[k])
                        == decode_utf8(seen[k]),
            decreases buf.len() - offset,
        {
            let ghost rest = unsubscribe_entries(buf, offset as int);
            let filter_len = (buffer[offset] as usize) * 256 + (buffer[offset + 1] as usize);
            let start = offset + 2;
            if filter_len > buffer.len() - start {
                assert(rest =~= Seq::<Seq<u8>>::empty());
                assert(seen =~= seen + rest);
                break;
            }
            let filter_bytes = &buffer[start..start + filter_len];
            assert(filter_bytes@ == buf.subrange(start as int, start + filter_len));
            let filter = utf8_lossy(filter_bytes);
            let ghost before = filters@;
            filters.push(filter);
            offset = start + filter_len;
            proof {
                let e = buf.subrange(start as int, start + filter_len);
                let old_seen = seen;
                seen = seen.push(e);
                let next = unsubscribe_entries(buf, offset as int);
                assert(rest == seq![e] + next);
                assert(seen + next =~= old_seen + rest);
                assert(strings_view(filters@) =~= strings_view(before).push(lossy_text(e)));
                assert(seen.map_values(|b: Seq<u8>| lossy_text(b)) =~= old_seen.map_values(
                    |b: Seq<u8>| lossy_text(b),
                ).push(lossy_text(e)));
                assert forall|k: int|
                    0 <= k < seen.len() && valid_utf8(#[trigger] seen[k]) implies lossy_text(seen[k])
                    == decode_utf8(seen[k]) by {
                    if k < old_seen.len() {
                        assert(seen[k] == old_seen[k]);
                    }
                }
            }
        }
        proof {
            if buf.len() - offset < 2 {
                assert(unsubscribe_entries(buf, offset as int) =~= Seq::<Seq<u8>>::empty());
            }
        }
        router.unsubscribe(client_id, filters.as_slice());
        let mut ack: Vec<u8> = Vec::new();
        ack.push(0xB0);
        ack.push(0x02);
        ack.push((packet_id / 256) as u8);
        ack.push((packet_id % 256) as u8);
        assert(ack@ =~= unsuback_frame(packet_id));
        Ok(ack)
    }

    /// Extracts the client ID from a CONNECT packet (MQTT 3.1.1): byte 0 is the
    /// fixed header, byte 1 the Remaining Length (one byte), bytes 2 to 11 the
    /// variable header (protocol name, level, flags, keep alive), then the
    /// length-prefixed client ID.
    pub fn parse_connect_client_id(buffer: &[u8]) -> (r: String)
        ensures
            r@ == connect_client_id_spec(buffer@),
            connect_client_id_bytes(buffer@) matches Some(b) ==> (valid_utf8(b) ==> r@
                == decode_utf8(b)),
    {
        if buffer.len() < 14 {
            return <String as StringExecFns>::from_str("unknown");
        }
        let client_id_len = (buffer[12] as usize) * 256 + (buffer[13] as usize);
        if buffer.len() < 14 + client_id_len {
            return <String as StringExecFns>::from_str("unknown");
        }
        let id_bytes = &buffer[14..14 + client_id_len];
        assert(id_bytes@ == buffer@.subrange(14, 14 + client_id_len as int));
        utf8_lossy(id_bytes)
    }

    /// Classifies a frame by its control packet type.
    pub fn parse_packet(buffer: &[u8]) -> (r: MqttPacket)
        ensures
            packet_type(buffer@) == 1 ==> r is Connect,
            packet_type(buffer@) == 3 ==> (r matches MqttPacket::Publish(s) && s@
                == Seq::<char>::empty()),
            packet_type(buffer@) == 8 && buffer@.len() > 3 ==> (r matches MqttPacket::Subscribe(id)
                && id == be16(buffer@[2], buffer@[3])),
            packet_type(buffer@) == 8 && buffer@.len() <= 3 ==> r is Unknown,
            packet_type(buffer@) == 10 && buffer@.len() > 3 ==> (r matches MqttPacket::Unsubscribe(
                id,
            ) && id == be16(buffer@[2], buffer@[3])),
            packet_type(buffer@) == 10 && buffer@.len() <= 3 ==> r is Unknown,
            packet_type(buffer@) == 12 ==> r is PINGREQ,
            packet_type(buffer@) == 14 ==> r is Disconnect,
            packet_type(buffer@) != 1 && packet_type(buffer@) != 3 && packet_type(buffer@) != 8
                && packet_type(buffer@) != 10 && packet_type(buffer@) != 12 && packet_type(buffer@)
                != 14 ==> r is Unknown,
    {
        if buffer.len() == 0 {
            return MqttPacket::Unknown;
        }
        let control_packet_type = buffer[0] / 16;
        if control_packet_type == 1 {
            MqttPacket::Connect
        } else if control_packet_type == 3 {
            MqttPacket::Publish(String::new())
        } else if control_packet_type == 8 {
            if buffer.len() > 3 {
                let packet_id = (buffer[2] as u16) * 256 + (buffer[3] as u16);
                MqttPacket::Subscribe(packet_id)
            } else {
                MqttPacket::Unknown
            }
        } else if control_packet_type == 10 {
            if buffer.len() > 3 {
                let packet_id = (buffer[2] as u16) * 256 + (buffer[3] as u16);
                MqttPacket::Unsubscribe(packet_id)
            } else {
                MqttPacket::Unknown
            }
        } else if control_packet_type == 12 {
            MqttPacket::PINGREQ
        } else if control_packet_type == 14 {
            MqttPacket::Disconnect
        } else {
            MqttPacket::Unknown
        }
    }

    /// Reads a packet ID at `offset`: the low nibble of the first byte and
    /// the second byte, big-endian.
    pub fn extract_packet_id(buffer: &[u8], offset: usize) -> (r: Result<u16, String>)
        requires
            offset < usize::MAX,
        ensures
            buffer@.len() > offset + 1 ==> r == Ok::<u16, String>(
                ((buffer@[offset as int] % 16) * 256 + buffer@[offset + 1]) as u16,
            ),
            buffer@.len() <= offset + 1 ==> (r matches Err(e) && e@
                == "Buffer zu kurz fuer Packet ID"@),
    {
        if buffer.len() > offset + 1 {
            let byte1 = buffer[offset] % 16;
            let byte2 = buffer[offset + 1];
            Ok((byte1 as u16) * 256 + (byte2 as u16))
        } else {
            Err(<String as StringExecFns>::from_str("Buffer zu kurz fuer Packet ID"))
        }
    }
}

/// Reads a packet ID at `offset` (see `MqttServer::extract_packet_id`).
pub fn extract_packet_id(buffer: &[u8], offset: usize) -> (r: Result<u16, String>)
    requires
        offset < usize::MAX,
    ensures
        buffer@.len() > offset + 1 ==> r == Ok::<u16, String>(
            ((buffer@[offset as int] % 16) * 256 + buffer@[offset + 1]) as u16,
        ),
        buffer@.len() <= offset + 1 ==> (r matches Err(e) && e@ == "Buffer zu kurz fuer Packet ID"@),
{
    MqttServer::extract_packet_id(buffer, offset)
}

/// The length of the frame at the start of `data` when the frame is there
/// completely; `None` when its header is incomplete or the frame runs past
/// the end of `data`.
pub fn complete_frame_length(data: &[u8]) -> (r: Option<usize>)
    ensures
        match frame_length_spec(data@) {
            Some(n) => if n <= data@.len() {
                r == Some(n as usize)
            } else {
                r is None
            },
            None => r is None,
        },
{
    proof {
        crate::codec::lemma_frame_length_small(data@);
    }
    match frame_length(data) {
        Some(len) => if len <= data.len() {
            Some(len)
        } else {
            None
        },
        None => None,
    }
}

/// The channels a PUBLISH on `topic` is delivered to: those of the matching
/// subscribers, in the router's order.
pub fn fanout_senders(router: &TopicRouter, topic: &str) -> (r: Vec<Sender<ConnectionCommand>>)
    ensures
        r@ == matching_subscribers(router@, topic.spec_bytes()).map_values(
            |s: SubscriberView| s.2,
        ),
{
    let subs = router.get_subscribers_for_topic(topic);
    let ghost sv = subs@.map_values(|s: &crate::subscribe_handlers::Subscriber| crate::subscribe_handlers::storage::subscriber_view(*s));
    let mut out: Vec<Sender<ConnectionCommand>> = Vec::new();
    let n = subs.len();
    let mut i: usize = 0;
    while i < n
        invariant
            n == subs@.len(),
            i <= n,
            sv == subs@.map_values(|s: &crate::subscribe_handlers::Subscriber| crate::subscribe_handlers::storage::subscriber_view(*s)),
            out@ == sv.take(i as int).map_values(|s: SubscriberView| s.2),
        decreases n - i,
    {
        out.push(subs[i].tx.clone());
        assert(out@ =~= sv.take(i + 1).map_values(|s: SubscriberView| s.2));
        i = i + 1;
    }
    assert(sv.take(n as int) =~= sv);
    out
}

/// What a connection does for one incoming frame.
pub enum SessionAction {
    /// CONNECT: register `client_id` (displacing a session with the same ID),
    /// then send `connack`.
    Connect { client_id: String, connack: Vec<u8> },
    /// SUBSCRIBE: run `MqttServer::handle_subscribe_impl` on `frame` for
    /// `client_id` and send its result.
    Subscribe { client_id: String, frame: Vec<u8> },
    /// UNSUBSCRIBE: run `MqttServer::handle_unsubscribe_impl` on `frame` for
    /// `client_id` and send its result.
    Unsubscribe { client_id: String, frame: Vec<u8> },
    /// Send these bytes back (PINGRESP).
    Reply(Vec<u8>),
    /// PUBLISH: deliver `frame` to the subscribers of `topic`.
    Publish { topic: String, frame: Bytes },
    /// DISCONNECT: end the connection.
    Close,
    /// A refused CONNECT: send these bytes (a CONNACK with an error return
    /// code, or nothing for a malformed CONNECT), then end the connection.
    Refuse(Vec<u8>),
}

/// The per-connection state: the client ID and the keep-alive interval once
/// CONNECT was accepted.
pub struct ConnectionSession {
    client_id: Option<String>,
    keep_alive: Option<u16>,
}

/// The read timeout, in milliseconds, of a connection that has not been
/// accepted yet.
pub const DEFAULT_READ_TIMEOUT_MS: u64 = 300000;

/// A CONNACK with return code `code` and no session present.
pub open spec fn connack_with(code: u8) -> Seq<u8> {
    seq![0x20u8, 0x02u8, 0x00u8, code]
}

/// The protocol name field of MQTT 3.1.1: length 4, then `MQTT`.
pub open spec fn mqtt_protocol_name() -> Seq<u8> {
    seq![0x00u8, 0x04u8, 0x4du8, 0x51u8, 0x54u8, 0x54u8]
}

/// How the broker answers a CONNECT frame. `None`: the frame is malformed
/// (too short for the variable header, a protocol name other than `MQTT`, or
/// the reserved connect flag set) and the connection is closed without
/// CONNACK. Otherwise the CONNACK return code: 0x01 for a protocol level
/// other than 4, 0x02 for an empty client ID, 0x00 when accepted.
pub open spec fn connect_verdict(frame: Seq<u8>) -> Option<u8> {
    if frame.len() < 12 || frame.subrange(2, 8) != mqtt_protocol_name() {
        None
    } else if frame[8] != 4 {
        Some(0x01u8)
    } else if frame[9] % 2 != 0 {
        None
    } else if connect_client_id_bytes(frame) matches Some(b) && b.len() == 0 {
        Some(0x02u8)
    } else {
        Some(0x00u8)
    }
}

/// The keep-alive interval of a CONNECT frame, in seconds (bytes 10 and 11).
pub open spec fn connect_keep_alive(frame: Seq<u8>) -> u16 {
    be16(frame[10], frame[11]) as u16
}

/// Checks a CONNECT frame's variable header and client ID; see
/// `connect_verdict`.
pub fn check_connect(frame: &[u8]) -> (r: Option<u8>)
    ensures
        r == connect_verdict(frame@),
{
    if frame.len() < 12 {
        return None;
    }
    if !(frame[2] == 0x00 && frame[3] == 0x04 && frame[4] == 0x4d && frame[5] == 0x51 && frame[6]
        == 0x54 && frame[7] == 0x54) {
        assert(frame@.subrange(2, 8)[0] == frame@[2]);
        assert(frame@.subrange(2, 8)[1] == frame@[3]);
        assert(frame@.subrange(2, 8)[2] == frame@[4]);
        assert(frame@.subrange(2, 8)[3] == frame@[5]);
        assert(frame@.subrange(2, 8)[4] == frame@[6]);
        assert(frame@.subrange(2, 8)[5] == frame@[7]);
        return None;
    }
    assert(frame@.subrange(2, 8) =~= mqtt_protocol_name());
    if frame[8] != 4 {
        return Some(0x01);
    }
    if frame[9] % 2 != 0 {
        return None;
    }
    if frame.len() >= 14 {
        let client_id_len = (frame[12] as usize) * 256 + (frame[13] as usize);
        if client_id_len == 0 {
            return Some(0x02);
        }
    }
    Some(0x00)
}

/// The CONNACK for an accepted connection: no session present, return code 0.
pub open spec fn connack_frame() -> Seq<u8> {
    seq![0x20u8, 0x02u8, 0x00u8, 0x00u8]
}

/// The PINGRESP frame.
pub open spec fn pingresp_frame() -> Seq<u8> {
    seq![0xD0u8, 0x00u8]
}

impl ConnectionSession {
    /// The client ID the connection has announced, if any.
    pub closed spec fn client_view(&self) -> Option<Seq<char>> {
        match self.client_id {
            Some(c) => Some(c@),
            None => None,
        }
    }

    /// The keep-alive interval announced in the accepted CONNECT, if any.
    pub closed spec fn keep_alive_view(&self) -> Option<u16> {
        self.keep_alive
    }

    /// A connection that has not sent CONNECT yet.
    pub fn new() -> (r: Self)
        ensures
            r.client_view() is None,
            r.keep_alive_view() is None,
    {
        Self { client_id: None, keep_alive: None }
    }

    /// How long a read may wait for the next bytes, in milliseconds: the
    /// broker's default before CONNECT; one and a half keep-alive intervals
    /// after it; no limit (`None`) for a keep-alive of 0.
    pub fn read_timeout_ms(&self) -> (r: Option<u64>)
        ensures
            match self.keep_alive_view() {
                None => r == Some(DEFAULT_READ_TIMEOUT_MS),
                Some(k) => if k == 0 {
                    r is None
                } else {
                    r == Some((k * 1500) as u64)
                },
            },
    {
        match self.keep_alive {
            None => Some(DEFAULT_READ_TIMEOUT_MS),
            Some(k) => if k == 0 {
                None
            } else {
                Some((k as u64) * 1500)
            },
        }
    }

    /// The client ID the connection has announced, if any.
    pub fn client_id(&self) -> (r: Option<&str>)
        ensures
            match r {
                Some(c) => self.client_view() == Some(c@),
                None => self.client_view() is None,
            },
    {
        match &self.client_id {
            Some(c) => Some(c.as_str()),
            None => None,
        }
    }

    /// Decides what the connection does for one complete frame. CONNECT
    /// records the client ID; a SUBSCRIBE before any CONNECT is made for the
    /// client ID `unknown`; PUBLISH frames that are no QoS 0 PUBLISH, and
    /// frames of other types, are ignored (`None`).
    pub fn on_frame(&mut self, frame: &[u8]) -> (r: Option<SessionAction>)
        ensures
            packet_type(frame@) == 1 && connect_verdict(frame@) == Some(0u8) ==> final(self).client_view() == Some(connect_client_id_spec(frame@)) && final(self).keep_alive_view()
                == Some(connect_keep_alive(frame@)),
            packet_type(frame@) == 1 && connect_verdict(frame@) == Some(0u8) ==> (r matches Some(
                SessionAction::Connect { client_id, connack },
            ) && client_id@ == connect_client_id_spec(frame@) && connack@ == connack_frame() && (
            connect_client_id_bytes(frame@) matches Some(b) ==> (valid_utf8(b) ==> client_id@
                == decode_utf8(b)))),
            packet_type(frame@) == 1 ==> match connect_verdict(frame@) {
                None => r matches Some(SessionAction::Refuse(b)) && b@ == Seq::<u8>::empty(),
                Some(code) => code != 0 ==> (r matches Some(SessionAction::Refuse(b)) && b@
                    == connack_with(code)),
            },
            !(packet_type(frame@) == 1 && connect_verdict(frame@) == Some(0u8)) ==> final(self).client_view() == old(self).client_view() && final(self).keep_alive_view() == old(self).keep_alive_view(),
            packet_type(frame@) == 8 && frame@.len() > 3 ==> (r matches Some(
                SessionAction::Subscribe { client_id, frame: f },
            ) && f@ == frame@ && client_id@ == match old(self).client_view() {
                Some(c) => c,
                None => "unknown"@,
            }),
            packet_type(frame@) == 10 && frame@.len() > 3 ==> (r matches Some(
                SessionAction::Unsubscribe { client_id, frame: f },
            ) && f@ == frame@ && client_id@ == match old(self).client_view() {
                Some(c) => c,
                None => "unknown"@,
            }),
            packet_type(frame@) == 12 ==> (r matches Some(SessionAction::Reply(b)) && b@
                == pingresp_frame()),
            packet_type(frame@) == 14 ==> r matches Some(SessionAction::Close),
            packet_type(frame@) == 3 ==> match parse_publish_spec(frame@) {
                None => r is None,
                Some((t, p)) => (r matches Some(SessionAction::Publish { topic, frame: out })
                    && topic@ == decode_utf8(t) && bytes_content(out) == publish_frame(t, p)),
            },
            (packet_type(frame@) == 8 && frame@.len() <= 3) || (packet_type(frame@) == 10
                && frame@.len() <= 3) || (packet_type(frame@) != 1 && packet_type(frame@) != 3
                && packet_type(frame@) != 8 && packet_type(frame@) != 10 && packet_type(frame@)
                != 12 && packet_type(frame@) != 14) ==> r is None,
    {
        match MqttServer::parse_packet(frame) {
            MqttPacket::Connect => {
                match check_connect(frame) {
                    None => Some(SessionAction::Refuse(Vec::new())),
                    Some(code) => {
                        let mut connack: Vec<u8> = Vec::new();
                        connack.push(0x20);
                        connack.push(0x02);
                        connack.push(0x00);
                        connack.push(code);
                        assert(connack@ =~= connack_with(code));
                        if code != 0 {
                            Some(SessionAction::Refuse(connack))
                        } else {
                            let id = MqttServer::parse_connect_client_id(frame);
                            let reply = id.clone();
                            self.client_id = Some(id);
                            self.keep_alive = Some((frame[10] as u16) * 256 + (frame[11] as u16));
                            assert(connack@ =~= connack_frame());
                            Some(SessionAction::Connect { client_id: reply, connack })
                        }
                    },
                }
            },
            MqttPacket::Subscribe(_packet_id) => {
                let client_id = match &self.client_id {
                    Some(c) => c.clone(),
                    None => <String as StringExecFns>::from_str("unknown"),
                };
                Some(
                    SessionAction::Subscribe {
                        client_id,
                        frame: crate::bytes_text::bytes_to_vec(frame),
                    },
                )
            },
            MqttPacket::Unsubscribe(_packet_id) => {
                let client_id = match &self.client_id {
                    Some(c) => c.clone(),
                    None => <String as StringExecFns>::from_str("unknown"),
                };
                Some(
                    SessionAction::Unsubscribe {
                        client_id,
                        frame: crate::bytes_text::bytes_to_vec(frame),
                    },
                )
            },
            MqttPacket::PINGREQ => {
                let mut pingresp: Vec<u8> = Vec::new();
                pingresp.push(0xD0);
                pingresp.push(0x00);
                assert(pingresp@ =~= pingresp_frame());
                Some(SessionAction::Reply(pingresp))
            },
            MqttPacket::Disconnect => Some(SessionAction::Close),
            MqttPacket::Publish(_topic) => {
                match parse_publish(frame) {
                    Some((topic, payload)) => {
                        let ghost t = parse_publish_spec(frame@).unwrap().0;
                        let ghost p = parse_publish_spec(frame@).unwrap().1;
                        proof {
                            lemma_parse_publish_small(frame@);
                            crate::codec::lemma_frame_length_small(frame@);
                            assert(valid_utf8(t));
                            decode_utf8_encode_utf8(t);
                            assert(vstd::utf8::encode_utf8(topic@) == t);
                            assert(bytes_content(payload) == p);
                        }
                        let outbound = encode_publish(topic.as_str(), bytes_as_slice(&payload));
                        Some(SessionAction::Publish { topic, frame: bytes_from_vec(outbound) })
                    },
                    None => None,
                }
            },
            _ => None,
        }
    }
}

/// One step of registering an accepted CONNECT, in the order the steps are
/// taken.
pub enum TakeoverStep {
    /// Tell the displaced session with this channel to end, and wait until its
    /// channel is closed: its cleanup is then done.
    Kick(Sender<ConnectionCommand>),
    /// Send these bytes (the CONNACK).
    Acknowledge(Vec<u8>),
}

/// Registers the accepted CONNECT of `client_id` with the channel `tx` and
/// returns what the connection does next, in order: ending the session it
/// displaces, if any, and only then sending `connack`.
pub fn accept_connect(
    registry: &mut ClientRegistry,
    client_id: &str,
    tx: &Sender<ConnectionCommand>,
    connack: Vec<u8>,
) -> (r: Vec<TakeoverStep>)
    ensures
        final(registry).view() == after_swap_in(old(registry).view(), client_id@, *tx),
        match displaced(old(registry).view(), client_id@) {
            Some(old_tx) => r@.len() == 2 && (r@[0] matches TakeoverStep::Kick(k) && k == old_tx)
                && (r@[1] matches TakeoverStep::Acknowledge(b) && b@ == connack@),
            None => r@.len() == 1 && (r@[0] matches TakeoverStep::Acknowledge(b) && b@ == connack@),
        },
{
    let mut steps: Vec<TakeoverStep> = Vec::new();
    match registry.swap_in(client_id, tx.clone()) {
        Some(old_tx) => {
            steps.push(TakeoverStep::Kick(old_tx));
        },
        None => {},
    }
    steps.push(TakeoverStep::Acknowledge(connack));
    steps
}

/// The cleanup of a connection that ends, whatever ended it: all
/// subscriptions of its client ID leave the router, and its registry entry
/// goes if it still holds this connection's channel `tx` (an entry of a newer
/// connection stays). A connection that never got its CONNECT accepted
/// changes nothing.
pub fn end_session(
    session: &ConnectionSession,
    router: &mut TopicRouter,
    registry: &mut ClientRegistry,
    tx: &Sender<ConnectionCommand>,
)
    ensures
        match session.client_view() {
            Some(c) => final(router)@ == remove_client_spec(old(router)@, c) && final(registry).view()
                == after_remove_if_owner(old(registry).view(), c, *tx),
            None => final(router)@ == old(router)@ && final(registry).view() == old(
                registry,
            ).view(),
        },
{
    match session.client_id() {
        Some(c) => {
            router.remove_client(c);
            registry.remove_if_owner(c, tx);
        },
        None => {},
    }
}

/// Delivery: once client `c` has subscribed to `f` with channel `tx`, a QoS 0
/// PUBLISH on a topic that `f` matches, as `encode_publish` frames it, is read
/// back as that topic and payload (so `on_frame` forwards exactly that frame),
/// and its subscribers, `c` with `tx` among them, are every subscriber of
/// every stored filter that matches the topic.
pub proof fn lemma_publish_reaches_subscribers(
    v: Seq<(Seq<char>, Seq<SubscriberView>)>,
    c: Seq<char>,
    f: Seq<char>,
    q: u8,
    tx: Sender<ConnectionCommand>,
    topic: Seq<char>,
    payload: Seq<u8>,
)
    requires
        router_wf(v),
        topic_match_spec(encode_utf8(f), encode_utf8(topic)),
        !has_wildcard_byte(encode_utf8(topic)),
        encode_utf8(topic).len() < 65536,
        2 + encode_utf8(topic).len() + payload.len() < pow128(4),
    ensures
        parse_publish_spec(publish_frame(encode_utf8(topic), payload)) == Some(
            (encode_utf8(topic), payload),
        ),
        decode_utf8(encode_utf8(topic)) == topic,
        matching_subscribers(subscribe_spec(v, c, seq![(f, q)], tx), encode_utf8(topic)).contains(
            (c, q, tx),
        ),
        forall|i: int, j: int|
            0 <= i < subscribe_spec(v, c, seq![(f, q)], tx).len() && 0 <= j < subscribe_spec(
                v,
                c,
                seq![(f, q)],
                tx,
            )[i].1.len() && topic_match_spec(
                encode_utf8(subscribe_spec(v, c, seq![(f, q)], tx)[i].0),
                encode_utf8(topic),
            ) ==> matching_subscribers(
                subscribe_spec(v, c, seq![(f, q)], tx),
                encode_utf8(topic),
            ).contains(#[trigger] subscribe_spec(v, c, seq![(f, q)], tx)[i].1[j]),
{
    lemma_publish_round_trip(topic, payload);
    let fs = seq![(f, q)];
    let w = subscribe_spec(v, c, fs, tx);
    let t = encode_utf8(topic);
    lemma_subscribe_all(v, c, fs, tx);
    assert(fs[0] == (f, q));
    assert(last_qos(fs, f) == q);
    assert(holds_only(w, fs[0].0, (c, last_qos(fs, fs[0].0), tx)));
    let i = choose|i: int|
        0 <= i < w.len() && (#[trigger] w[i]).0 == f && w[i].1.contains((c, q, tx)) && (forall|
            j: int,
        | 0 <= j < w[i].1.len() && w[i].1[j].0 == c ==> w[i].1[j] == (c, q, tx));
    let j = choose|j: int| 0 <= j < w[i].1.len() && w[i].1[j] == (c, q, tx);
    lemma_matching_includes(w, t, i, j);
    assert forall|a: int, b: int|
        0 <= a < w.len() && 0 <= b < w[a].1.len() && topic_match_spec(encode_utf8(w[a].0), t)
            implies matching_subscribers(w, t).contains(#[trigger] w[a].1[b]) by {
        lemma_matching_includes(w, t, a, b);
    }
}

/// Takeover: when a new connection with channel `new_tx` takes over client
/// ID `c` from the session with channel `old_tx`, it learns `old_tx` (and so
/// kicks that session before its CONNACK); the old session's cleanup removes
/// every subscription of `c` and leaves the newcomer's registry entry in
/// place; after the newcomer subscribes to `f`, every subscription of `c`
/// uses `new_tx`, and every topic `f` matches is delivered to it.
pub proof fn lemma_takeover(
    v: Seq<(Seq<char>, Seq<SubscriberView>)>,
    m: Map<Seq<char>, Sender<ConnectionCommand>>,
    c: Seq<char>,
    old_tx: Sender<ConnectionCommand>,
    new_tx: Sender<ConnectionCommand>,
    f: Seq<char>,
    q: u8,
    t: Seq<u8>,
)
    requires
        router_wf(v),
        m.contains_key(c),
        m[c] == old_tx,
        old_tx != new_tx,
        topic_match_spec(encode_utf8(f), t),
    ensures
        displaced(m, c) == Some(old_tx),
        after_remove_if_owner(after_swap_in(m, c, new_tx), c, old_tx) == after_swap_in(
            m,
            c,
            new_tx,
        ),
        after_swap_in(m, c, new_tx)[c] == new_tx,
        forall|i: int, j: int|
            0 <= i < remove_client_spec(v, c).len() && 0 <= j < remove_client_spec(v, c)[i].1.len()
                ==> (#[trigger] remove_client_spec(v, c)[i].1[j]).0 != c,
        forall|i: int, j: int|
            0 <= i < subscribe_spec(remove_client_spec(v, c), c, seq![(f, q)], new_tx).len() && 0
                <= j < subscribe_spec(remove_client_spec(v, c), c, seq![(f, q)], new_tx)[i].1.len()
                && (#[trigger] subscribe_spec(remove_client_spec(v, c), c, seq![(f, q)], new_tx)[i].1[j]).0
                == c ==> subscribe_spec(remove_client_spec(v, c), c, seq![(f, q)], new_tx)[i].1[j].2
                == new_tx,
        matching_subscribers(
            subscribe_spec(remove_client_spec(v, c), c, seq![(f, q)], new_tx),
            t,
        ).contains((c, q, new_tx)),
{
    let v1 = remove_client_spec(v, c);
    lemma_remove_client_clears(v, c);
    let fs = seq![(f, q)];
    let w = subscribe_spec(v1, c, fs, new_tx);
    lemma_subscribe_all(v1, c, fs, new_tx);
    assert(fs[0] == (f, q));
    assert(last_qos(fs, f) == q);
    assert(holds_only(w, fs[0].0, (c, last_qos(fs, fs[0].0), new_tx)));
    let i = choose|i: int|
        0 <= i < w.len() && (#[trigger] w[i]).0 == f && w[i].1.contains((c, q, new_tx)) && (forall|
            j: int,
        | 0 <= j < w[i].1.len() && w[i].1[j].0 == c ==> w[i].1[j] == (c, q, new_tx));
    assert forall|a: int, b: int|
        0 <= a < w.len() && 0 <= b < w[a].1.len() && (#[trigger] w[a].1[b]).0 == c implies w[a].1[b].2
            == new_tx by {
        if w[a].0 == fs[0].0 {
            assert(holds_only(w, fs[0].0, (c, last_qos(fs, fs[0].0), new_tx)));
            assert forall|x: int, y: int| 0 <= x < y < w.len() implies w[x].0 != w[y].0 by {}
            if a != i {
                assert(w[a].0 != w[i].0);
            }
        } else {
            if a < v1.len() {
                assert(w[a].0 == v1[a].0);
                if filter_listed(fs, v1[a].0) {
                    let k = choose|k: int| 0 <= k < fs.len() && (#[trigger] fs[k]).0 == v1[a].0;
                    assert(fs[k] == fs[0]);
                }
                assert(w[a] == v1[a]);
                assert(v1[a].1[b].0 != c);
            } else {
                assert(filter_listed(fs, w[a].0));
                let k = choose|k: int| 0 <= k < fs.len() && (#[trigger] fs[k]).0 == w[a].0;
                assert(fs[k] == fs[0]);
            }
        }
    }
    let j = choose|j: int| 0 <= j < w[i].1.len() && w[i].1[j] == (c, q, new_tx);
    lemma_matching_includes(w, t, i, j);
    assert(after_remove_if_owner(after_swap_in(m, c, new_tx), c, old_tx) =~= after_swap_in(
        m,
        c,
        new_tx,
    ));
}

/// Cleanup on every exit: after `end_session` for client ID `c` with channel
/// `tx`, the router holds no subscriber of `c` and stays well-formed; the
/// registry no longer has `c` if its entry held `tx`, and an entry of a newer
/// connection for `c` is left in place; other clients keep their entries.
pub proof fn lemma_session_cleanup(
    v: Seq<(Seq<char>, Seq<SubscriberView>)>,
    m: Map<Seq<char>, Sender<ConnectionCommand>>,
    c: Seq<char>,
    tx: Sender<ConnectionCommand>,
)
    requires
        router_wf(v),
    ensures
        router_wf(remove_client_spec(v, c)),
        forall|i: int, j: int|
            0 <= i < remove_client_spec(v, c).len() && 0 <= j < remove_client_spec(v, c)[i].1.len()
                ==> (#[trigger] remove_client_spec(v, c)[i].1[j]).0 != c,
        m.contains_key(c) && m[c] == tx ==> !after_remove_if_owner(m, c, tx).contains_key(c),
        m.contains_key(c) && m[c] != tx ==> after_remove_if_owner(m, c, tx).contains_key(c)
            && after_remove_if_owner(m, c, tx)[c] == m[c],
        forall|d: Seq<char>|
            d != c ==> (#[trigger] after_remove_if_owner(m, c, tx).contains_key(d)) == m.contains_key(
                d,
            ) && (m.contains_key(d) ==> after_remove_if_owner(m, c, tx)[d] == m[d]),
{
    lemma_remove_client_clears(v, c);
}

/// The two big-endian bytes of a length below 65536.
pub open spec fn length_bytes(n: nat) -> Seq<u8> {
    seq![(n / 256) as u8, (n % 256) as u8]
}

proof fn lemma_length_bytes(n: nat)
    requires
        n < 65536,
    ensures
        be16(length_bytes(n)[0], length_bytes(n)[1]) == n,
{
    assert((n / 256) * 256 + n % 256 == n) by (nonlinear_arith);
}

/// The payload of an UNSUBSCRIBE listing `filters`, in order: each filter's
/// length in two bytes, then the filter.
pub open spec fn unsubscribe_payload(filters: Seq<Seq<u8>>) -> Seq<u8>
    decreases filters.len(),
{
    if filters.len() == 0 {
        Seq::empty()
    } else {
        length_bytes(filters[0].len()) + filters[0] + unsubscribe_payload(filters.drop_first())
    }
}

/// The payload of a SUBSCRIBE listing `entries` (filter, requested QoS), in
/// order: each filter's length in two bytes, the filter, then the QoS byte.
pub open spec fn subscribe_payload(entries: Seq<(Seq<u8>, u8)>) -> Seq<u8>
    decreases entries.len(),
{
    if entries.len() == 0 {
        Seq::empty()
    } else {
        length_bytes(entries[0].0.len()) + entries[0].0 + seq![entries[0].1] + subscribe_payload(
            entries.drop_first(),
        )
    }
}

proof fn lemma_unsubscribe_entries_of_payload(pre: Seq<u8>, filters: Seq<Seq<u8>>)
    requires
        forall|k: int| 0 <= k < filters.len() ==> (#[trigger] filters[k]).len() < 65536,
    ensures
        unsubscribe_entries(pre + unsubscribe_payload(filters), pre.len() as int) == filters,
    decreases filters.len(),
{
    let buf = pre + unsubscribe_payload(filters);
    if filters.len() == 0 {
        assert(buf =~= pre);
        assert(unsubscribe_entries(buf, pre.len() as int) =~= filters);
    } else {
        let f = filters[0];
        let rest = filters.drop_first();
        assert forall|k: int| 0 <= k < rest.len() implies (#[trigger] rest[k]).len() < 65536 by {
            assert(rest[k] == filters[k + 1]);
        }
        let pre2 = pre + length_bytes(f.len()) + f;
        lemma_unsubscribe_entries_of_payload(pre2, rest);
        assert(buf =~= pre2 + unsubscribe_payload(rest));
        lemma_length_bytes(f.len());
        let off = pre.len() as int;
        assert(buf[off] == length_bytes(f.len())[0]);
        assert(buf[off + 1] == length_bytes(f.len())[1]);
        assert(buf.subrange(off + 2, off + 2 + f.len()) =~= f);
        assert(pre2.len() == off + 2 + f.len());
        assert(unsubscribe_entries(buf, off) =~= seq![f] + rest);
        assert(seq![f] + rest =~= filters);
    }
}

proof fn lemma_subscribe_entries_of_payload(pre: Seq<u8>, entries: Seq<(Seq<u8>, u8)>)
    requires
        forall|k: int| 0 <= k < entries.len() ==> (#[trigger] entries[k]).0.len() < 65536,
    ensures
        subscribe_entries(pre + subscribe_payload(entries), pre.len() as int) == entries,
    decreases entries.len(),
{
    let buf = pre + subscribe_payload(entries);
    if entries.len() == 0 {
        assert(buf =~= pre);
        assert(subscribe_entries(buf, pre.len() as int) =~= entries);
    } else {
        let e = entries[0];
        let rest = entries.drop_first();
        assert forall|k: int| 0 <= k < rest.len() implies (#[trigger] rest[k]).0.len() < 65536 by {
            assert(rest[k] == entries[k + 1]);
        }
        let pre2 = pre + length_bytes(e.0.len()) + e.0 + seq![e.1];
        lemma_subscribe_entries_of_payload(pre2, rest);
        assert(buf =~= pre2 + subscribe_payload(rest));
        lemma_length_bytes(e.0.len());
        let off = pre.len() as int;
        assert(buf[off] == length_bytes(e.0.len())[0]);
        assert(buf[off + 1] == length_bytes(e.0.len())[1]);
        assert(buf.subrange(off + 2, off + 2 + e.0.len()) =~= e.0);
        assert(buf[off + 2 + e.0.len()] == e.1);
        assert(pre2.len() == off + 3 + e.0.len());
        assert(subscribe_entries(buf, off) =~= seq![(e.0, e.1)] + rest);
        assert(seq![(e.0, e.1)] + rest =~= entries);
    }
}

/// An UNSUBSCRIBE frame made of any four header bytes (fixed header and
/// packet ID) and the length-prefixed `filters` yields exactly those filters,
/// in order, for the router: none is skipped, not even the last.
pub proof fn lemma_unsubscribe_frame_lists_filters(header: Seq<u8>, filters: Seq<Seq<u8>>)
    requires
        header.len() == 4,
        forall|k: int| 0 <= k < filters.len() ==> (#[trigger] filters[k]).len() < 65536,
    ensures
        unsubscribe_entries(header + unsubscribe_payload(filters), 4) == filters,
        unsubscribe_filters_spec(header + unsubscribe_payload(filters)) == filters.map_values(
            |b: Seq<u8>| lossy_text(b),
        ),
{
    lemma_unsubscribe_entries_of_payload(header, filters);
}

/// A SUBSCRIBE frame made of any four header bytes and the length-prefixed
/// filters with their QoS bytes yields exactly those entries, in order, and
/// each filter is granted its capped QoS.
pub proof fn lemma_subscribe_frame_lists_entries(header: Seq<u8>, entries: Seq<(Seq<u8>, u8)>)
    requires
        header.len() == 4,
        forall|k: int| 0 <= k < entries.len() ==> (#[trigger] entries[k]).0.len() < 65536,
    ensures
        subscribe_entries(header + subscribe_payload(entries), 4) == entries,
        subscribe_filters_spec(header + subscribe_payload(entries)) == entries.map_values(
            |e: (Seq<u8>, u8)| (lossy_text(e.0), granted_qos(e.1)),
        ),
        subscribe_qos_spec(header + subscribe_payload(entries)) == entries.map_values(
            |e: (Seq<u8>, u8)| granted_qos(e.1),
        ),
{
    lemma_subscribe_entries_of_payload(header, entries);
}

/// The client ID of a CONNECT is read whole: after the twelve bytes up to and
/// including the keep-alive come the ID's length in two bytes and then the ID,
/// and whatever follows does not matter. A valid UTF-8 ID is returned as its
/// text, whose UTF-8 bytes are the ID bytes.
pub proof fn lemma_connect_client_id_read(header: Seq<u8>, id: Seq<u8>, rest: Seq<u8>)
    requires
        header.len() == 12,
        id.len() < 65536,
    ensures
        connect_client_id_bytes(header + length_bytes(id.len()) + id + rest) == Some(id),
        valid_utf8(id) ==> encode_utf8(decode_utf8(id)) == id,
{
    let buf = header + length_bytes(id.len()) + id + rest;
    lemma_length_bytes(id.len());
    assert(buf[12] == length_bytes(id.len())[0]);
    assert(buf[13] == length_bytes(id.len())[1]);
    assert(buf.subrange(14, 14 + id.len() as int) =~= id);
    if valid_utf8(id) {
        decode_utf8_encode_utf8(id);
    }
}

/// The verdict on a CONNECT whose protocol name is `MQTT`, by its bytes:
/// protocol level other than 4 gives return code 0x01; at level 4 the
/// reserved flag (bit 0 of the connect flags) makes it malformed; otherwise
/// an empty client ID gives 0x02, and anything else is accepted (0x00),
/// whatever the other flags (clean session, will, username, password) are.
pub proof fn lemma_connect_verdict_by_bytes(frame: Seq<u8>)
    requires
        frame.len() >= 12,
        frame[2] == 0x00u8,
        frame[3] == 0x04u8,
        frame[4] == 0x4du8,
        frame[5] == 0x51u8,
        frame[6] == 0x54u8,
        frame[7] == 0x54u8,
    ensures
        frame[8] != 4 ==> connect_verdict(frame) == Some(0x01u8),
        frame[8] == 4 && frame[9] % 2 == 1 ==> connect_verdict(frame) is None,
        frame[8] == 4 && frame[9] % 2 == 0 && frame.len() >= 14 && frame[12] == 0 && frame[13] == 0
            ==> connect_verdict(frame) == Some(0x02u8),
        frame[8] == 4 && frame[9] % 2 == 0 && (frame.len() < 14 || frame[12] != 0 || frame[13] != 0)
            ==> connect_verdict(frame) == Some(0x00u8),
{
    assert(frame.subrange(2, 8) =~= mqtt_protocol_name());
}

/// A CONNECT without the protocol name `MQTT` in bytes 2 to 7 is malformed.
pub proof fn lemma_connect_wrong_name_malformed(frame: Seq<u8>, k: int)
    requires
        2 <= k < 8,
        frame.len() >= 12 ==> frame[k] != mqtt_protocol_name()[k - 2],
    ensures
        connect_verdict(frame) is None,
{
    if frame.len() >= 12 {
        assert(frame.subrange(2, 8)[k - 2] == frame[k]);
    }
}

} // verus!
