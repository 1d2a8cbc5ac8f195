//! MQTT wire format: Remaining Length, frame boundaries and QoS 0 PUBLISH frames.
use vstd::prelude::*;

use bytes::Bytes;
use vstd::string::{StringExecFns, StringSliceAdditionalSpecFns};
use vstd::utf8::{decode_utf8, encode_utf8, encode_utf8_decode_utf8, valid_utf8};

use crate::bytes_text::{be16, bytes_contain, has_wildcard_byte, utf8_str};
use crate::platform::{bytes_content, bytes_copy_from_slice};

verus! {

/// `128^k`, the weight of the `k`-th Remaining Length byte.
pub open spec fn pow128(k: nat) -> int
    decreases k,
{
    if k == 0 {
        1
    } else {
        128 * pow128((k - 1) as nat)
    }
}

/// The Remaining Length starting at index `i`, where `k` bytes of it are
/// already read, as `frame_length` reads it: at most four bytes, each adding
/// its low seven bits times `128^position`, ending at the first byte without
/// the continuation bit. Gives the value and the index after it, or `None`
/// when the buffer ends or four bytes all carry the continuation bit.
pub open spec fn varint_strict(buf: Seq<u8>, i: int, k: nat) -> Option<(int, int)>
    decreases 4 - k,
{
    if k >= 4 || i < 0 || i >= buf.len() {
        None
    } else if buf[i] < 128 {
        Some((buf[i] as int, i + 1))
    } else {
        match varint_strict(buf, i + 1, k + 1) {
            Some((v, e)) => Some((buf[i] % 128 + 128 * v, e)),
            None => None,
        }
    }
}

/// The length of the frame at the start of `buf`: fixed header byte,
/// Remaining Length bytes and the Remaining Length itself.
pub open spec fn frame_length_spec(buf: Seq<u8>) -> Option<int> {
    if buf.len() == 0 {
        None
    } else {
        match varint_strict(buf, 1, 0) {
            Some((v, e)) => Some(e + v),
            None => None,
        }
    }
}

/// The MQTT Variable Byte Integer encoding of `v`: seven bits per byte, least
/// significant group first, continuation bit on every byte but the last.
pub open spec fn encode_varint(v: nat) -> Seq<u8>
    decreases v,
{
    if v < 128 {
        seq![v as u8]
    } else {
        seq![(v % 128 + 128) as u8] + encode_varint(v / 128)
    }
}

/// A QoS 0 PUBLISH frame without DUP and RETAIN for the topic bytes `topic`
/// and `payload`. The topic length field holds the length modulo 65536.
pub open spec fn publish_frame(topic: Seq<u8>, payload: Seq<u8>) -> Seq<u8> {
    let tl = topic.len() % 65536;
    seq![0x30u8] + encode_varint((2 + topic.len() + payload.len()) as nat) + seq![
        (tl / 256) as u8,
        (tl % 256) as u8,
    ] + topic + payload
}

/// What `parse_publish` reads from `buf`: the topic bytes and the payload of a
/// QoS 0 PUBLISH frame, or `None` when `buf` is no such frame (not type 3,
/// QoS other than 0, truncated, a Remaining Length needing a fifth byte, topic
/// running past the Remaining Length, a topic that is not UTF-8, or a topic
/// name holding a wildcard `+` or `#`, which topic names must not hold). Bytes
/// after the Remaining Length are ignored.
pub open spec fn parse_publish_spec(buf: Seq<u8>) -> Option<(Seq<u8>, Seq<u8>)> {
    if buf.len() == 0 || buf[0] / 16 != 3 || (buf[0] / 2) % 4 != 0 {
        None
    } else {
        match varint_strict(buf, 1, 0) {
            None => None,
            Some((rem, off)) => {
                let body_end = off + rem;
                if body_end > buf.len() || off + 2 > body_end {
                    None
                } else {
                    let tl = be16(buf[off], buf[off + 1]);
                    if off + 2 + tl > body_end {
                        None
                    } else {
                        let topic = buf.subrange(off + 2, off + 2 + tl);
                        if !valid_utf8(topic) || has_wildcard_byte(topic) {
                            None
                        } else {
                            Some((topic, buf.subrange(off + 2 + tl, body_end)))
                        }
                    }
                }
            },
        }
    }
}

proof fn lemma_low7(b: u8)
    ensures
        (b & 0x7f) as int == b % 128,
        (b & 0x80 == 0) == (b < 128),
{
    assert((b & 0x7f) as int == b % 128) by (bit_vector);
    assert((b & 0x80 == 0) == (b < 128)) by (bit_vector);
}

proof fn lemma_mul_step(acc: int, m: int, low: int, v: int)
    ensures
        acc + m * (low + 128 * v) == (acc + m * low) + (m * 128) * v,
{
    assert(acc + m * (low + 128 * v) == (acc + m * low) + (m * 128) * v) by (nonlinear_arith);
}

proof fn lemma_bound_step(acc: int, m: int, low: int)
    requires
        0 <= acc < m,
        0 <= low < 128,
        m > 0,
    ensures
        acc + m * low < m * 128,
        0 <= acc + m * low,
{
    assert(acc + m * low < m * 128) by (nonlinear_arith)
        requires
            0 <= acc < m,
            0 <= low < 128,
            m > 0,
    ;
    assert(0 <= m * low) by (nonlinear_arith)
        requires
            0 <= low,
            m > 0,
    ;
}

proof fn lemma_pow128_step(k: nat)
    ensures
        pow128(k + 1) == 128 * pow128(k),
        pow128(k) >= 1,
    decreases k,
{
    if k > 0 {
        lemma_pow128_step((k - 1) as nat);
    }
}

/// An encoding of a value below `128^n` takes at most `n` bytes.
pub proof fn lemma_encode_varint_len(v: nat, n: nat)
    requires
        n >= 1,
        v < pow128(n),
    ensures
        encode_varint(v).len() <= n,
    decreases v,
{
    if v >= 128 {
        lemma_pow128_step((n - 1) as nat);
        assert(n >= 2) by {
            if n == 1 {
                reveal_with_fuel(pow128, 2);
            }
        }
        assert(v / 128 < pow128((n - 1) as nat));
        lemma_encode_varint_len(v / 128, (n - 1) as nat);
    }
}

/// Encodings of values below `128^4` take at most four bytes, the last one
/// without the continuation bit and all others with it.
pub proof fn lemma_encode_varint_shape(v: nat)
    ensures
        encode_varint(v).len() >= 1,
        encode_varint(v).last() < 128,
        forall|j: int| 0 <= j < encode_varint(v).len() - 1 ==> #[trigger] encode_varint(v)[j] >= 128,
        v < pow128(4) ==> encode_varint(v).len() <= 4,
    decreases v,
{
    if v < pow128(4) {
        lemma_encode_varint_len(v, 4);
    }
    if v >= 128 {
        lemma_encode_varint_shape(v / 128);
        let rest = encode_varint(v / 128);
        assert(encode_varint(v) == seq![(v % 128 + 128) as u8] + rest);
        assert forall|j: int| 0 <= j < encode_varint(v).len() - 1 implies #[trigger] encode_varint(
            v,
        )[j] >= 128 by {
            if j > 0 {
                assert(encode_varint(v)[j] == rest[j - 1]);
            }
        }
    }
}

/// The value of a Variable Byte Integer as MQTT defines it: the low seven
/// bits of each byte, least significant group first.
pub open spec fn varint_value(bytes: Seq<u8>) -> int
    decreases bytes.len(),
{
    if bytes.len() == 0 {
        0
    } else {
        (bytes[0] % 128) as int + 128 * varint_value(bytes.drop_first())
    }
}

/// The encoding of `v` denotes `v`: adding up the low seven bits of each byte,
/// least significant group first, gives `v` back.
pub proof fn lemma_encode_varint_value(v: nat)
    ensures
        varint_value(encode_varint(v)) == v,
    decreases v,
{
    let e = encode_varint(v);
    if v < 128 {
        assert(e.drop_first() =~= Seq::<u8>::empty());
        assert(varint_value(e.drop_first()) == 0);
        assert(e[0] == v as u8);
        assert(varint_value(e) == (e[0] % 128) as int + 128 * varint_value(e.drop_first()));
    } else {
        lemma_encode_varint_value(v / 128);
        assert(e.drop_first() =~= encode_varint(v / 128));
        assert(e[0] == (v % 128 + 128) as u8);
        assert(((v % 128 + 128) as u8) % 128 == v % 128);
        assert((v % 128) + 128 * (v / 128) == v);
        assert(varint_value(e) == (e[0] % 128) as int + 128 * varint_value(e.drop_first()));
    }
}

/// Reading a Remaining Length back: where the encoding of `v` stands at index
/// `i` of `buf` and `v` fits in the bytes still allowed, `frame_length`'s
/// reading gives `v` and the index just after the encoding.
pub proof fn lemma_varint_strict_reads_encoding(buf: Seq<u8>, i: int, k: nat, v: nat)
    requires
        0 <= i,
        k < 4,
        v < pow128((4 - k) as nat),
        i + encode_varint(v).len() <= buf.len(),
        buf.subrange(i, i + encode_varint(v).len()) == encode_varint(v),
    ensures
        varint_strict(buf, i, k) == Some((v as int, i + encode_varint(v).len())),
    decreases v,
{
    let enc = encode_varint(v);
    assert(buf[i] == buf.subrange(i, i + enc.len())[0]);
    if v >= 128 {
        lemma_pow128_step((3 - k) as nat);
        assert((4 - k) as nat == ((3 - k) as nat + 1) as nat);
        let rest = encode_varint(v / 128);
        assert(enc == seq![(v % 128 + 128) as u8] + rest);
        assert(k + 1 < 4) by {
            if k == 3 {
                reveal_with_fuel(pow128, 2);
            }
        }
        assert(v / 128 < pow128((3 - k) as nat));
        assert(buf.subrange(i + 1, i + 1 + rest.len()) =~= rest) by {
            assert forall|j: int| 0 <= j < rest.len() implies buf.subrange(i + 1, i + 1 + rest.len())[j]
                == rest[j] by {
                assert(buf.subrange(i, i + enc.len())[j + 1] == enc[j + 1]);
            }
        }
        lemma_varint_strict_reads_encoding(buf, i + 1, k + 1, v / 128);
        assert((((v % 128 + 128) as u8) % 128) as int == v % 128);
        assert((v % 128) + 128 * (v / 128) == v);
    }
}


/// Framing: a PUBLISH frame built by `encode_publish` is found whole by
/// `frame_length`, whatever bytes follow it, as long as its Remaining Length
/// is below `128^4` (the largest MQTT allows).
pub proof fn lemma_frame_length_of_publish(topic: Seq<u8>, payload: Seq<u8>, rest: Seq<u8>)
    requires
        2 + topic.len() + payload.len() < pow128(4),
    ensures
        frame_length_spec(publish_frame(topic, payload) + rest) == Some(
            publish_frame(topic, payload).len() as int,
        ),
{
    let rl = (2 + topic.len() + payload.len()) as nat;
    let enc = encode_varint(rl);
    let frame = publish_frame(topic, payload);
    let buf = frame + rest;
    lemma_encode_varint_shape(rl);
    assert(buf.subrange(1, 1 + enc.len() as int) =~= enc);
    lemma_varint_strict_reads_encoding(buf, 1, 0, rl);
    assert(frame.len() == 1 + enc.len() + 2 + topic.len() + payload.len());
}

/// Round trip: parsing what `encode_publish` builds gives back the topic and
/// the payload, for any topic name without wildcards shorter than 65536 bytes
/// and a Remaining Length below `128^4`.
pub proof fn lemma_publish_round_trip(topic: Seq<char>, payload: Seq<u8>)
    requires
        encode_utf8(topic).len() < 65536,
        !has_wildcard_byte(encode_utf8(topic)),
        2 + encode_utf8(topic).len() + payload.len() < pow128(4),
    ensures
        parse_publish_spec(publish_frame(encode_utf8(topic), payload)) == Some(
            (encode_utf8(topic), payload),
        ),
        decode_utf8(encode_utf8(topic)) == topic,
{
    let tb = encode_utf8(topic);
    let rl = (2 + tb.len() + payload.len()) as nat;
    let enc = encode_varint(rl);
    let buf = publish_frame(tb, payload);
    lemma_encode_varint_shape(rl);
    assert(buf.subrange(1, 1 + enc.len() as int) =~= enc);
    lemma_varint_strict_reads_encoding(buf, 1, 0, rl);
    let off: int = 1 + enc.len() as int;
    assert(buf[0] == 0x30u8);
    assert(buf[off] == ((tb.len() % 65536) / 256) as u8);
    assert(buf[off + 1] == ((tb.len() % 65536) % 256) as u8);
    assert(be16(buf[off], buf[off + 1]) == tb.len());
    assert(buf.subrange(off + 2, off + 2 + tb.len()) =~= tb);
    assert(buf.subrange(off + 2 + tb.len(), off + rl) =~= payload);
    vstd::utf8::encode_utf8_valid_utf8(topic);
    encode_utf8_decode_utf8(topic);
}

/// A PUBLISH whose topic name holds a wildcard `+` or `#` is discarded:
/// parsing the frame `encode_publish` builds for it gives nothing.
pub proof fn lemma_publish_with_wildcard_rejected(topic: Seq<char>, payload: Seq<u8>)
    requires
        encode_utf8(topic).len() < 65536,
        2 + encode_utf8(topic).len() + payload.len() < pow128(4),
        has_wildcard_byte(encode_utf8(topic)),
    ensures
        parse_publish_spec(publish_frame(encode_utf8(topic), payload)) is None,
{
    let tb = encode_utf8(topic);
    let rl = (2 + tb.len() + payload.len()) as nat;
    let enc = encode_varint(rl);
    let buf = publish_frame(tb, payload);
    lemma_encode_varint_shape(rl);
    assert(buf.subrange(1, 1 + enc.len() as int) =~= enc);
    lemma_varint_strict_reads_encoding(buf, 1, 0, rl);
    let off: int = 1 + enc.len() as int;
    assert(buf[0] == 0x30u8);
    assert(buf[off] == ((tb.len() % 65536) / 256) as u8);
    assert(buf[off + 1] == ((tb.len() % 65536) % 256) as u8);
    assert(be16(buf[off], buf[off + 1]) == tb.len());
    assert(buf.subrange(off + 2, off + 2 + tb.len()) =~= tb);
}


proof fn lemma_varint_strict_bound(buf: Seq<u8>, i: int, k: nat)
    requires
        k <= 4,
    ensures
        varint_strict(buf, i, k) matches Some((v, e)) ==> 0 <= v < pow128((4 - k) as nat) && i < e
            <= i + (4 - k),
    decreases 4 - k,
{
    if k < 4 && 0 <= i < buf.len() && buf[i] >= 128 {
        lemma_varint_strict_bound(buf, i + 1, k + 1);
        lemma_pow128_step((3 - k) as nat);
        assert((4 - k) as nat == ((3 - k) as nat + 1) as nat);
    } else if k < 4 {
        lemma_pow128_step((3 - k) as nat);
        assert((4 - k) as nat == ((3 - k) as nat + 1) as nat);
        reveal_with_fuel(pow128, 2);
    }
}

/// Frame lengths are small: at most five header bytes and a Remaining
/// Length below `128^4`.
pub proof fn lemma_frame_length_small(buf: Seq<u8>)
    ensures
        frame_length_spec(buf) matches Some(n) ==> 0 < n < 5 + pow128(4),
        pow128(4) == 268435456,
{
    lemma_varint_strict_bound(buf, 1, 0);
    reveal_with_fuel(pow128, 5);
}

/// What `parse_publish` returns is a UTF-8 topic and a payload that together
/// with the topic length field fill a Remaining Length below `128^4`.
pub proof fn lemma_parse_publish_small(buf: Seq<u8>)
    ensures
        parse_publish_spec(buf) matches Some((t, p)) ==> valid_utf8(t) && 2 + t.len() + p.len()
            < pow128(4),
{
    lemma_varint_strict_bound(buf, 1, 0);
}

/// Determines the total length of a frame (fixed header + varint + remaining
/// length). Returns `None` if `buffer` is too short to read the varint
/// completely, or if four length bytes all carry the continuation bit.
pub fn frame_length(buffer: &[u8]) -> (r: Option<usize>)
    ensures
        match frame_length_spec(buffer@) {
            Some(n) => r == Some(n as usize),
            None => r is None,
        },
{
    if buffer.len() == 0 {
        return None;
    }
    let ghost buf = buffer@;
    let mut offset: usize = 1;
    let mut multiplier: usize = 1;
    let mut remaining: usize = 0;
    let mut count: usize = 0;
    while count < 4
        invariant
            buf == buffer@,
            buf.len() > 0,
            count <= 4,
            offset == count + 1,
            multiplier == pow128(count as nat),
            0 <= remaining < multiplier,
            varint_strict(buf, 1, 0) == match varint_strict(buf, offset as int, count as nat) {
                Some((v, e)) => Some((remaining + multiplier * v, e)),
                None => None,
            },
        decreases 4 - count,
    {
        assert(multiplier <= 2097152) by {
            reveal_with_fuel(pow128, 4);
        }
        if offset >= buffer.len() {
            return None;
        }
        let b = buffer[offset];
        proof {
            lemma_low7(b);
            lemma_bound_step(remaining as int, multiplier as int, (b % 128) as int);
        }
        let low = (b & 0x7f) as usize;
        assert(low * multiplier == multiplier * low) by (nonlinear_arith);
        let next_remaining = remaining + low * multiplier;
        if b & 0x80 == 0 {
            assert(varint_strict(buf, offset as int, count as nat) == Some((b as int, offset + 1)));
            return Some(offset + 1 + next_remaining);
        }
        proof {
            match varint_strict(buf, offset + 1, (count + 1) as nat) {
                Some((v, e)) => {
                    lemma_mul_step(remaining as int, multiplier as int, (b % 128) as int, v);
                },
                None => {},
            }
            assert(pow128((count + 1) as nat) == 128 * pow128(count as nat));
        }
        offset = offset + 1;
        remaining = next_remaining;
        multiplier = multiplier * 128;
        count = count + 1;
    }
    None
}

proof fn lemma_mask_f0(b: u8)
    ensures
        ((b & 0xf0) == 0x30) == (b / 16 == 3),
        ((b >> 1) & 0x03) as int == (b / 2) % 4,
{
    assert(((b & 0xf0) == 0x30) == (b / 16 == 3)) by (bit_vector);
    assert(((b >> 1) & 0x03) == (b / 2) % 4) by (bit_vector);
}

/// Parses an incoming QoS 0 PUBLISH frame and returns `(topic, payload)`.
/// Returns `None` if the frame cannot be parsed (too short, invalid topic
/// length, a Remaining Length needing a fifth byte, etc.) or its topic name
/// holds a wildcard `+` or `#`. A multi-byte Remaining Length of up to 4 bytes
/// is supported.
pub fn parse_publish(buffer: &[u8]) -> (r: Option<(String, Bytes)>)
    ensures
        match parse_publish_spec(buffer@) {
            None => r is None,
            Some((t, p)) => r matches Some((topic, payload)) && topic@ == decode_utf8(t)
                && bytes_content(payload) == p,
        },
{
    let ghost buf = buffer@;
    if buffer.len() == 0 {
        return None;
    }
    proof {
        lemma_mask_f0(buffer[0]);
    }
    if (buffer[0] & 0xF0) != 0x30 {
        return None;
    }
    let qos = (buffer[0] >> 1) & 0x03;
    if qos != 0 {
        return None;
    }
    let mut offset: usize = 1;
    let mut multiplier: usize = 1;
    let mut remaining: usize = 0;
    let mut count: usize = 0;
    let mut done = false;
    while count < 4 && !done
        invariant
            buf == buffer@,
            buf.len() > 0,
            count <= 4,
            !done ==> offset == count + 1,
            done ==> offset == count + 2,
            multiplier == pow128(count as nat),
            !done ==> remaining < multiplier,
            remaining < 268435456,
            !done ==> varint_strict(buf, 1, 0) == match varint_strict(
                buf,
                offset as int,
                count as nat,
            ) {
                Some((v, e)) => Some((remaining + multiplier * v, e)),
                None => None,
            },
            done ==> varint_strict(buf, 1, 0) == Some((remaining as int, offset as int)),
        decreases 4 - count + (if done { 0int } else { 1int }),
    {
        assert(multiplier <= 2097152 && pow128(4) == 268435456) by {
            reveal_with_fuel(pow128, 5);
        }
        if offset >= buffer.len() {
            return None;
        }
        let b = buffer[offset];
        proof {
            lemma_low7(b);
            lemma_bound_step(remaining as int, multiplier as int, (b % 128) as int);
        }
        let low = (b & 0x7f) as usize;
        assert(low * multiplier == multiplier * low) by (nonlinear_arith);
        let next_remaining = remaining + low * multiplier;
        if b & 0x80 == 0 {
            assert(varint_strict(buf, offset as int, count as nat) == Some((b as int, offset + 1)));
            remaining = next_remaining;
            offset = offset + 1;
            done = true;
        } else {
            proof {
                match varint_strict(buf, offset + 1, (count + 1) as nat) {
                    Some((v, e)) => {
                        lemma_mul_step(remaining as int, multiplier as int, (b % 128) as int, v);
                    },
                    None => {},
                }
                assert(pow128((count + 1) as nat) == 128 * pow128(count as nat));
            }
            offset = offset + 1;
            remaining = next_remaining;
            multiplier = multiplier * 128;
            count = count + 1;
        }
    }
    if !done {
        assert(count == 4);
        assert(varint_strict(buf, offset as int, count as nat) is None);
        return None;
    }
    assert(varint_strict(buf, 1, 0) == Some((remaining as int, offset as int)));
    let body_end = offset + remaining;
    if body_end > buffer.len() {
        return None;
    }
    if offset + 2 > body_end {
        return None;
    }
    let topic_len = ((buffer[offset] as usize) * 256) + (buffer[offset + 1] as usize);
    let start = offset + 2;
    if start + topic_len > body_end {
        return None;
    }
    let topic_bytes = &buffer[start..start + topic_len];
    assert(topic_bytes@ == buf.subrange(start as int, start + topic_len));
    let topic = match utf8_str(topic_bytes) {
        Some(t) => t,
        None => {
            return None;
        },
    };
    if bytes_contain(topic_bytes, 0x2b) || bytes_contain(topic_bytes, 0x23) {
        return None;
    }
    proof {
        encode_utf8_decode_utf8(topic@);
    }
    let payload = bytes_copy_from_slice(&buffer[start + topic_len..body_end]);
    Some((<String as StringExecFns>::from_str(topic), payload))
}

/// Appends the MQTT Variable Byte Integer encoding of `value` to `out`.
pub fn encode_remaining_length(value: usize, out: &mut Vec<u8>)
    ensures
        final(out)@ == old(out)@ + encode_varint(value as nat),
    decreases value,
{
    let low = (value % 128) as u8;
    let rest = value / 128;
    if rest > 0 {
        out.push(low + 128);
        let ghost mid = out@;
        encode_remaining_length(rest, out);
        assert(out@ =~= old(out)@ + encode_varint(value as nat));
    } else {
        out.push(low);
        assert(out@ =~= old(out)@ + encode_varint(value as nat));
    }
}

/// Serialises an outgoing QoS 0 PUBLISH frame without DUP/RETAIN flags.
pub fn encode_publish(topic: &str, payload: &[u8]) -> (r: Vec<u8>)
    requires
        4 + topic.spec_bytes().len() + payload@.len() <= usize::MAX,
    ensures
        r@ == publish_frame(topic.spec_bytes(), payload@),
{
    let topic_bytes = topic.as_bytes();
    let remaining_len = 2 + topic_bytes.len() + payload.len();
    let mut out: Vec<u8> = Vec::with_capacity(2 + remaining_len);
    out.push(0x30);
    encode_remaining_length(remaining_len, &mut out);
    let tl = topic_bytes.len() % 65536;
    out.push((tl / 256) as u8);
    out.push((tl % 256) as u8);
    out.extend_from_slice(topic_bytes);
    out.extend_from_slice(payload);
    assert(out@ =~= publish_frame(topic.spec_bytes(), payload@));
    out
}

} // verus!
