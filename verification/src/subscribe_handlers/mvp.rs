//! MVP subscribe handler: SUBACK in the MVP frame layout, character-wise
//! wildcard matching, and subscriptions stored by packet ID.
use vstd::prelude::*;

use vstd::string::StringSliceAdditionalSpecFns;

use crate::assoc::{
    assoc_map, keys_unique, lemma_assoc_absent, lemma_assoc_keys, lemma_assoc_lookup,
    lemma_assoc_push, lemma_assoc_update,
};
use crate::bytes_text::{be16, bytes_contain, bytes_equal, has_wildcard_byte, str_equal};

verus! {

/// A subscription record of the MVP handler.
#[derive(Debug, Clone)]
pub struct SubscriptionRecord {
    /// Packet Identifier of the SUBSCRIBE packet.
    pub packet_id: u16,
    /// Requested QoS level.
    pub qos: u8,
    /// Topic Filter string.
    pub topic_filter: String,
}

/// MVP Subscribe Handler (parse and storage).
pub struct SubscribeHandler {
    subscriptions: Vec<(String, Vec<SubscriptionRecord>)>,
}

impl Default for SubscribeHandler {
    fn default() -> (r: Self)
        ensures
            r.stored_clients() == 0,
    {
        Self::new()
    }
}

/// The MVP SUBACK: packet type 0x90, Remaining Length `2 + n`, the packet ID
/// big-endian, then the success return code 0x00 (QoS 0) for each of the `n`
/// topics.
pub open spec fn mvp_suback(packet_id: u16, num_topics: nat) -> Seq<u8> {
    seq![
        0x90u8,
        (2 + num_topics) as u8,
        (packet_id / 256) as u8,
        (packet_id % 256) as u8,
    ] + Seq::new(num_topics, |i: int| 0x00u8)
}

/// Character-wise matching from position `i` on: `+` stands for exactly one
/// byte, `#` accepts whatever remains of the topic (at least one byte), any
/// other byte must be equal, and pattern and topic must end together.
pub open spec fn char_scan(p: Seq<u8>, t: Seq<u8>, i: nat) -> bool
    decreases p.len() - i,
{
    if i >= p.len() && i >= t.len() {
        true
    } else if i >= p.len() || i >= t.len() {
        false
    } else if p[i as int] == 0x2bu8 {
        char_scan(p, t, i + 1)
    } else if p[i as int] == 0x23u8 {
        true
    } else if p[i as int] != t[i as int] {
        false
    } else {
        char_scan(p, t, i + 1)
    }
}

/// The MVP wildcard match: equal strings match; otherwise only a pattern
/// holding a wildcard can match, character by character.
pub open spec fn char_wildcard_match(p: Seq<u8>, t: Seq<u8>) -> bool {
    p == t || (has_wildcard_byte(p) && char_scan(p, t, 0))
}

proof fn lemma_char_scan_plain(p: Seq<u8>, t: Seq<u8>, i: nat)
    requires
        !p.contains(0x23u8),
        i <= p.len(),
        i <= t.len(),
    ensures
        char_scan(p, t, i) <==> (p.len() == t.len() && forall|j: int|
            i <= j < p.len() ==> #[trigger] p[j] == 0x2bu8 || p[j] == t[j]),
    decreases p.len() - i,
{
    if i < p.len() {
        assert(p[i as int] != 0x23u8) by {
            if p[i as int] == 0x23u8 {
                assert(p.contains(0x23u8));
            }
        }
        if i < t.len() {
            lemma_char_scan_plain(p, t, i + 1);
        }
        if i < t.len() && p.len() == t.len() {
            if forall|j: int| i + 1 <= j < p.len() ==> #[trigger] p[j] == 0x2bu8 || p[j] == t[j] {
                if p[i as int] == 0x2bu8 || p[i as int] == t[i as int] {
                    assert forall|j: int| i <= j < p.len() implies #[trigger] p[j] == 0x2bu8 || p[j]
                        == t[j] by {
                        if j == i {
                        } else {
                            assert(i + 1 <= j);
                        }
                    }
                }
            }
        }
    }
}

/// The MVP matcher on patterns without `#`: `+` stands for exactly one
/// character, so a pattern matches exactly the topics of its own length in
/// which every pattern character is `+` or equal to the topic character at
/// the same place.
pub proof fn lemma_char_match_plain(p: Seq<u8>, t: Seq<u8>)
    requires
        !p.contains(0x23u8),
    ensures
        char_wildcard_match(p, t) <==> (p.len() == t.len() && forall|j: int|
            0 <= j < p.len() ==> #[trigger] p[j] == 0x2bu8 || p[j] == t[j]),
{
    lemma_char_scan_plain(p, t, 0);
    if p.len() == t.len() && forall|j: int| 0 <= j < p.len() ==> #[trigger] p[j] == 0x2bu8 || p[j]
        == t[j] {
        if p != t {
            if forall|j: int| 0 <= j < p.len() ==> #[trigger] p[j] == t[j] {
                assert(p =~= t);
            }
            let j = choose|j: int| 0 <= j < p.len() && #[trigger] p[j] != t[j];
            assert(p[j] == 0x2bu8);
            assert(p.contains(0x2bu8));
        }
    }
}

impl SubscribeHandler {
    /// The number of clients with stored records.
    pub closed spec fn stored_clients(&self) -> nat {
        self.subscriptions@.len()
    }

    /// Creates a new handler with no records.
    pub fn new() -> (r: Self)
        ensures
            r.stored_clients() == 0,
    {
        Self { subscriptions: Vec::new() }
    }

    /// Extracts the 2-byte packet ID from buffer.
    pub fn extract_packet_id(buffer: &[u8]) -> (r: Option<u16>)
        ensures
            buffer@.len() >= 2 ==> r == Some(be16(buffer@[0], buffer@[1]) as u16),
            buffer@.len() < 2 ==> r is None,
    {
        if buffer.len() >= 2 {
            Some((buffer[0] as u16) * 256 + (buffer[1] as u16))
        } else {
            None
        }
    }

    /// Generates the SUBACK response with a success code per topic. Packet IDs
    /// from 256 on and 128 topics or more do not fit the MVP handler.
    pub fn generate_suback(packet_id: u16, num_topics: usize) -> (r: Vec<u8>)
        requires
            num_topics < 128,
            packet_id < 256,
        ensures
            r@ == mvp_suback(packet_id, num_topics as nat),
    {
        let mut response: Vec<u8> = Vec::new();
        response.push(0x90);
        response.push((2 + num_topics) as u8);
        response.push((packet_id / 256) as u8);
        response.push((packet_id % 256) as u8);
        let ghost head = response@;
        let mut i: usize = 0;
        while i < num_topics
            invariant
                i <= num_topics,
                response@ == head + Seq::new(i as nat, |k: int| 0x00u8),
            decreases num_topics - i,
        {
            response.push(0x00);
            assert(response@ =~= head + Seq::new((i + 1) as nat, |k: int| 0x00u8));
            i = i + 1;
        }
        response
    }

    /// Wildcard topic matching helper: `+` stands for one character, `#`
    /// accepts the rest of the topic.
    pub fn wildcard_match(pattern: &str, topic: &str) -> (r: bool)
        ensures
            r == char_wildcard_match(pattern.spec_bytes(), topic.spec_bytes()),
    {
        let p = pattern.as_bytes();
        let t = topic.as_bytes();
        if bytes_equal(p, t) {
            return true;
        }
        if !bytes_contain(p, 0x2b) && !bytes_contain(p, 0x23) {
            return false;
        }
        let ghost pb = p@;
        let ghost tb = t@;
        let mut i: usize = 0;
        loop
            invariant
                pb == p@,
                tb == t@,
                pb == pattern.spec_bytes(),
                tb == topic.spec_bytes(),
                has_wildcard_byte(pb),
                pb != tb,
                char_scan(pb, tb, 0) == char_scan(pb, tb, i as nat),
                i <= pb.len(),
            decreases pb.len() - i,
        {
            if i >= p.len() && i >= t.len() {
                return true;
            }
            if i >= p.len() || i >= t.len() {
                return false;
            }
            let c = p[i];
            if c == 0x2b {
                i = i + 1;
            } else if c == 0x23 {
                return true;
            } else {
                if c != t[i] {
                    return false;
                }
                i = i + 1;
            }
        }
    }

    /// Exact match for topic filter (no wildcard).
    pub fn exact_match(topic: &str, filter: &str) -> (r: bool)
        ensures
            r == (topic@ == filter@),
    {
        str_equal(topic, filter)
    }
}

/// Extracts the 2-byte packet ID from buffer.
pub fn extract_packet_id(buffer: &[u8]) -> (r: Option<u16>)
    ensures
        buffer@.len() >= 2 ==> r == Some(be16(buffer@[0], buffer@[1]) as u16),
        buffer@.len() < 2 ==> r is None,
{
    SubscribeHandler::extract_packet_id(buffer)
}

/// Exact match for topic filter (no wildcard).
pub fn exact_match(topic: &str, filter: &str) -> (r: bool)
    ensures
        r == (topic@ == filter@),
{
    SubscribeHandler::exact_match(topic, filter)
}

/// Whether some filter of the list matches the topic bytes `t` (MVP wildcard matching).
pub open spec fn list_hits(l: Seq<(Seq<char>, u8)>, t: Seq<u8>) -> bool {
    exists|j: int| 0 <= j < l.len() && char_wildcard_match(vstd::utf8::encode_utf8(#[trigger] l[j].0), t)
}

/// Topic filters with their QoS as values.
pub open spec fn filter_list_view(l: Seq<(String, u8)>) -> Seq<(Seq<char>, u8)> {
    l.map_values(|p: (String, u8)| (p.0@, p.1))
}

/// The MVP topic router: the filters of each SUBSCRIBE packet, stored under
/// its packet ID.
pub struct TopicRouter {
    subscriptions: Vec<(u16, Vec<(String, u8)>)>,
}

impl Default for TopicRouter {
    fn default() -> (r: Self)
        ensures
            r@ == Map::<u16, Seq<(Seq<char>, u8)>>::empty(),
    {
        Self::new()
    }
}

impl TopicRouter {
    /// The stored pairs (packet ID, filters).
    pub closed spec fn pairs(&self) -> Seq<(u16, Seq<(Seq<char>, u8)>)> {
        self.subscriptions@.map_values(
            |e: (u16, Vec<(String, u8)>)| (e.0, filter_list_view(e.1@)),
        )
    }

    /// Packet ID to the (filter, QoS) list stored under it.
    pub closed spec fn view(&self) -> Map<u16, Seq<(Seq<char>, u8)>> {
        assoc_map(self.pairs())
    }

    #[verifier::type_invariant]
    closed spec fn unique_packet_ids(&self) -> bool {
        keys_unique(self.pairs())
    }

    /// Creates an empty router.
    pub fn new() -> (r: Self)
        ensures
            r@ == Map::<u16, Seq<(Seq<char>, u8)>>::empty(),
    {
        let r = Self { subscriptions: Vec::new() };
        assert(r.pairs() =~= Seq::empty());
        r
    }

    /// Stores the filters of a SUBSCRIBE packet under its packet ID, replacing
    /// what was stored under that ID.
    pub fn subscribe(&mut self, packet_id: u16, filters: Vec<(String, u8)>)
        ensures
            final(self)@ == old(self)@.insert(packet_id, filter_list_view(filters@)),
    {
        proof {
            use_type_invariant(&*self);
        }
        let ghost old_pairs = self.pairs();
        let ghost fv = filter_list_view(filters@);
        let mut entries: Vec<(u16, Vec<(String, u8)>)> = Vec::new();
        std::mem::swap(&mut entries, &mut self.subscriptions);
        let n = entries.len();
        let mut i: usize = 0;
        while i < n
            invariant
                n == entries@.len(),
                i <= n,
                old_pairs == entries@.map_values(
                    |e: (u16, Vec<(String, u8)>)| (e.0, filter_list_view(e.1@)),
                ),
                keys_unique(old_pairs),
                old_pairs == old(self).pairs(),
                fv == filter_list_view(filters@),
                forall|k: int| 0 <= k < i ==> #[trigger] entries@[k].0 != packet_id,
            decreases n - i,
        {
            if entries[i].0 == packet_id {
                let ghost before = entries@;
                let _old = entries.remove(i);
                entries.insert(i, (packet_id, filters));
                assert(entries@ =~= before.update(i as int, (packet_id, filters)));
                proof {
                    let new_pairs = entries@.map_values(
                        |e: (u16, Vec<(String, u8)>)| (e.0, filter_list_view(e.1@)),
                    );
                    assert(old_pairs[i as int].0 == packet_id);
                    assert(new_pairs =~= old_pairs.update(i as int, (packet_id, fv)));
                    lemma_assoc_update(old_pairs, i as int, fv);
                }
                self.subscriptions = entries;
                return;
            }
            i = i + 1;
        }
        entries.push((packet_id, filters));
        proof {
            let new_pairs = entries@.map_values(
                |e: (u16, Vec<(String, u8)>)| (e.0, filter_list_view(e.1@)),
            );
            assert(new_pairs =~= old_pairs.push((packet_id, fv)));
            assert forall|k: int| 0 <= k < old_pairs.len() implies old_pairs[k].0 != packet_id by {
                assert(old_pairs[k].0 == entries@[k].0);
            }
            lemma_assoc_push(old_pairs, packet_id, fv);
        }
        self.subscriptions = entries;
    }

    /// Returns the packet IDs of the SUBSCRIBE packets that hold a filter
    /// matching `topic` (MVP wildcard matching), each once, in no particular
    /// order.
    pub fn get_subscribers_for_topic(&self, topic: &str) -> (r: Vec<u16>)
        ensures
            r@.no_duplicates(),
            forall|id: u16|
                #![trigger r@.contains(id)]
                r@.contains(id) <==> (self@.contains_key(id) && list_hits(
                    self@[id],
                    topic.spec_bytes(),
                )),
    {
        proof {
            use_type_invariant(self);
        }
        let ghost pairs = self.pairs();
        let ghost t = topic.spec_bytes();
        let mut result: Vec<u16> = Vec::new();
        let n = self.subscriptions.len();
        let mut i: usize = 0;
        while i < n
            invariant
                n == self.subscriptions@.len(),
                pairs == self.pairs(),
                t == topic.spec_bytes(),
                keys_unique(pairs),
                i <= n,
                result@.no_duplicates(),
                forall|id: u16|
                    #![trigger result@.contains(id)]
                    result@.contains(id) <==> (exists|k: int|
                        0 <= k < i && #[trigger] pairs[k].0 == id && list_hits(pairs[k].1, t)),
            decreases n - i,
        {
            let (ref id, ref filters) = self.subscriptions[i];
            let m = filters.len();
            let mut j: usize = 0;
            let mut hit = false;
            while j < m && !hit
                invariant
                    m == filters@.len(),
                    j <= m,
                    t == topic.spec_bytes(),
                    !hit ==> forall|x: int|
                        0 <= x < j ==> !char_wildcard_match(
                            vstd::utf8::encode_utf8(#[trigger] filters@[x].0@),
                            t,
                        ),
                    hit ==> 0 <= j < m && char_wildcard_match(
                        vstd::utf8::encode_utf8(filters@[j as int].0@),
                        t,
                    ),
                decreases m - j + (if hit { 0int } else { 1int }),
            {
                if Self::wildcard_match_str(filters[j].0.as_str(), topic) {
                    hit = true;
                } else {
                    j = j + 1;
                }
            }
            let ghost l = pairs[i as int].1;
            assert(pairs[i as int] == (*id, filter_list_view(filters@)));
            assert(hit == list_hits(l, t)) by {
                if hit {
                    assert(l[j as int].0 == filters@[j as int].0@);
                } else {
                    assert forall|x: int| 0 <= x < l.len() implies !char_wildcard_match(
                        vstd::utf8::encode_utf8(#[trigger] l[x].0),
                        t,
                    ) by {
                        assert(l[x].0 == filters@[x].0@);
                    }
                }
            }
            let ghost prev = result@;
            if hit {
                proof {
                    assert forall|k: int| 0 <= k < i implies pairs[k].0 != *id by {}
                    assert(!prev.contains(*id));
                }
                result.push(*id);
                proof {
                    assert forall|a: int, b: int|
                        0 <= a < result@.len() && 0 <= b < result@.len() && a != b implies result@[a]
                        != result@[b] by {
                        if a < prev.len() && b < prev.len() {
                            assert(result@[a] == prev[a] && result@[b] == prev[b]);
                        } else if a == prev.len() {
                            assert(result@[b] == prev[b]);
                            assert(prev.contains(result@[b]));
                        } else {
                            assert(result@[a] == prev[a]);
                            assert(prev.contains(result@[a]));
                        }
                    }
                }
            }
            proof {
                assert forall|x: u16| #![trigger result@.contains(x)]
                    result@.contains(x) <==> (exists|k: int|
                        0 <= k < i + 1 && #[trigger] pairs[k].0 == x && list_hits(pairs[k].1, t)) by {
                    if hit && x == *id {
                        assert(result@[prev.len() as int] == x);
                        assert(pairs[i as int].0 == x);
                    }
                    if result@.contains(x) && !(hit && x == *id) {
                        let a = choose|a: int| 0 <= a < result@.len() && result@[a] == x;
                        if hit {
                            assert(a < prev.len());
                            assert(prev[a] == x);
                        }
                        assert(prev.contains(x));
                    }
                    if exists|k: int| 0 <= k < i + 1 && #[trigger] pairs[k].0 == x && list_hits(pairs[k].1, t) {
                        let k = choose|k: int| 0 <= k < i + 1 && #[trigger] pairs[k].0 == x && list_hits(pairs[k].1, t);
                        if k < i {
                            assert(prev.contains(x));
                            let a = choose|a: int| 0 <= a < prev.len() && prev[a] == x;
                            assert(result@[a] == x);
                        }
                    }
                }
            }
            i = i + 1;
        }
        proof {
            assert forall|id: u16| #![trigger result@.contains(id)]
                result@.contains(id) <==> (self@.contains_key(id) && list_hits(self@[id], t)) by {
                if self@.contains_key(id) {
                    lemma_assoc_keys(pairs, id);
                    let k = choose|k: int| 0 <= k < pairs.len() && pairs[k].0 == id;
                    lemma_assoc_lookup(pairs, k);
                    if result@.contains(id) {
                        let k2 = choose|k2: int| 0 <= k2 < n && #[trigger] pairs[k2].0 == id && list_hits(pairs[k2].1, t);
                        assert(k2 == k);
                    }
                } else if result@.contains(id) {
                    let k2 = choose|k2: int| 0 <= k2 < n && #[trigger] pairs[k2].0 == id && list_hits(pairs[k2].1, t);
                    lemma_assoc_lookup(pairs, k2);
                }
            }
        }
        result
    }

    fn wildcard_match_str(pattern: &str, topic: &str) -> (r: bool)
        ensures
            r == char_wildcard_match(vstd::utf8::encode_utf8(pattern@), topic.spec_bytes()),
    {
        SubscribeHandler::wildcard_match(pattern, topic)
    }
}

} // verus!
