//! Per-client subscription lists with MQTT wildcard lookup.
use vstd::prelude::*;

use vstd::string::{StringExecFns, StringSliceAdditionalSpecFns};
use vstd::utf8::encode_utf8;

use crate::assoc::{
    assoc_map, keys_unique, lemma_assoc_absent, lemma_assoc_lookup, lemma_assoc_push,
    lemma_assoc_update,
};
use crate::bytes_text::str_equal;
use crate::subscribe_handlers::storage::{topic_match_spec, topic_matches};

verus! {

/// A subscription of a client: packet ID, QoS and topic filter.
#[derive(Debug, Clone)]
pub struct Subscription {
    /// Packet Identifier of the SUBSCRIBE packet.
    pub packet_id: u16,
    /// Requested QoS level.
    pub qos: u8,
    /// Topic Filter string.
    pub topic_filter: String,
}

/// A subscription as a value.
pub type SubscriptionView = (u16, u8, Seq<char>);

/// The value of a subscription.
pub open spec fn subscription_view(s: Subscription) -> SubscriptionView {
    (s.packet_id, s.qos, s.topic_filter@)
}

/// The values of a list of subscriptions.
pub open spec fn subscriptions_view(s: Seq<Subscription>) -> Seq<SubscriptionView> {
    s.map_values(|x: Subscription| subscription_view(x))
}

/// Returns all subscribers that could receive a message for a topic.
pub struct WildcardMatcher {}

/// The subscriptions of `l` whose filter matches the topic bytes `t`, in order.
pub open spec fn matching_of(l: Seq<SubscriptionView>, t: Seq<u8>) -> Seq<SubscriptionView>
    decreases l.len(),
{
    if l.len() == 0 {
        l
    } else {
        let rest = matching_of(l.drop_last(), t);
        if topic_match_spec(encode_utf8(l.last().2), t) {
            rest.push(l.last())
        } else {
            rest
        }
    }
}

/// The map with `s` appended to the list of client `c`.
pub open spec fn with_subscription(
    m: Map<Seq<char>, Seq<SubscriptionView>>,
    c: Seq<char>,
    s: SubscriptionView,
) -> Map<Seq<char>, Seq<SubscriptionView>> {
    m.insert(
        c,
        if m.contains_key(c) {
            m[c].push(s)
        } else {
            seq![s]
        },
    )
}

fn copy_subscription(s: &Subscription) -> (r: Subscription)
    ensures
        subscription_view(r) == subscription_view(*s),
{
    Subscription { packet_id: s.packet_id, qos: s.qos, topic_filter: s.topic_filter.clone() }
}

/// The per-client subscription store.
pub struct TopicRouter {
    subscriptions: Vec<(String, Vec<Subscription>)>,
}

impl TopicRouter {
    /// The stored pairs (client ID, subscriptions).
    pub closed spec fn pairs(&self) -> Seq<(Seq<char>, Seq<SubscriptionView>)> {
        self.subscriptions@.map_values(
            |e: (String, Vec<Subscription>)| (e.0@, subscriptions_view(e.1@)),
        )
    }

    /// Client ID to the client's subscriptions, in the order they were added.
    pub closed spec fn view(&self) -> Map<Seq<char>, Seq<SubscriptionView>> {
        assoc_map(self.pairs())
    }

    #[verifier::type_invariant]
    closed spec fn unique_clients(&self) -> bool {
        keys_unique(self.pairs())
    }

    /// Creates an empty store.
    pub fn new() -> (r: Self)
        ensures
            r@ == Map::<Seq<char>, Seq<SubscriptionView>>::empty(),
    {
        let r = Self { subscriptions: Vec::new() };
        assert(r.pairs() =~= Seq::empty());
        r
    }

    fn position(&self, client_id: &str) -> (r: Option<usize>)
        ensures
            match r {
                Some(i) => i < self.pairs().len() && self.pairs()[i as int].0 == client_id@,
                None => forall|k: int|
                    0 <= k < self.pairs().len() ==> #[trigger] self.pairs()[k].0 != client_id@,
            },
    {
        let n = self.subscriptions.len();
        let mut i: usize = 0;
        while i < n
            invariant
                n == self.subscriptions@.len(),
                i <= n,
                forall|k: int| 0 <= k < i ==> #[trigger] self.pairs()[k].0 != client_id@,
            decreases n - i,
        {
            if str_equal(self.subscriptions[i].0.as_str(), client_id) {
                assert(self.pairs()[i as int].0 == self.subscriptions@[i as int].0@);
                return Some(i);
            }
            assert(self.pairs()[i as int].0 == self.subscriptions@[i as int].0@);
            i = i + 1;
        }
        None
    }

    fn append(&mut self, client_id: &str, subscription: Subscription)
        ensures
            final(self)@ == with_subscription(
                old(self)@,
                client_id@,
                subscription_view(subscription),
            ),
    {
        proof {
            use_type_invariant(&*self);
        }
        let ghost old_pairs = self.pairs();
        let ghost sv = subscription_view(subscription);
        let found = self.position(client_id);
        let mut entries: Vec<(String, Vec<Subscription>)> = Vec::new();
        std::mem::swap(&mut entries, &mut self.subscriptions);
        assert(entries@.map_values(
            |e: (String, Vec<Subscription>)| (e.0@, subscriptions_view(e.1@)),
        ) == old_pairs);
        match found {
            Some(i) => {
                let ghost before = entries@;
                let (id, mut list) = entries.remove(i);
                let ghost old_list = subscriptions_view(list@);
                list.push(subscription);
                assert(subscriptions_view(list@) =~= old_list.push(sv));
                entries.insert(i, (id, list));
                proof {
                    let new_pairs = entries@.map_values(
                        |e: (String, Vec<Subscription>)| (e.0@, subscriptions_view(e.1@)),
                    );
                    assert(old_pairs[i as int] == (client_id@, old_list));
                    assert(new_pairs =~= old_pairs.update(i as int, (client_id@, old_list.push(sv))));
                    lemma_assoc_lookup(old_pairs, i as int);
                    lemma_assoc_update(old_pairs, i as int, old_list.push(sv));
                }
                self.subscriptions = entries;
            },
            None => {
                let mut list: Vec<Subscription> = Vec::new();
                list.push(subscription);
                assert(subscriptions_view(list@) =~= seq![sv]);
                entries.push((<String as StringExecFns>::from_str(client_id), list));
                proof {
                    let new_pairs = entries@.map_values(
                        |e: (String, Vec<Subscription>)| (e.0@, subscriptions_view(e.1@)),
                    );
                    assert(new_pairs =~= old_pairs.push((client_id@, seq![sv])));
                    lemma_assoc_absent(old_pairs, client_id@);
                    lemma_assoc_push(old_pairs, client_id@, seq![sv]);
                }
                self.subscriptions = entries;
            },
        }
    }

    /// Registers a subscription for a client.
    pub fn register_subscription(
        &mut self,
        client_id: &str,
        packet_id: u16,
        qos: u8,
        topic_filter: &str,
    )
        ensures
            final(self)@ == with_subscription(
                old(self)@,
                client_id@,
                (packet_id, qos, topic_filter@),
            ),
    {
        let subscription = Subscription {
            packet_id,
            qos,
            topic_filter: <String as StringExecFns>::from_str(topic_filter),
        };
        self.append(client_id, subscription);
    }

    /// Adds a subscription for a client.
    pub fn add_subscription(&mut self, client_id: String, subscription: Subscription)
        ensures
            final(self)@ == with_subscription(
                old(self)@,
                client_id@,
                subscription_view(subscription),
            ),
    {
        self.append(client_id.as_str(), subscription);
    }

    fn list_of(&self, client_id: &str) -> (r: Option<&Vec<Subscription>>)
        ensures
            match r {
                Some(l) => self@.contains_key(client_id@) && subscriptions_view(l@) == self@[client_id@],
                None => !self@.contains_key(client_id@),
            },
    {
        proof {
            use_type_invariant(self);
        }
        match self.position(client_id) {
            Some(i) => {
                proof {
                    lemma_assoc_lookup(self.pairs(), i as int);
                }
                Some(&self.subscriptions[i].1)
            },
            None => {
                proof {
                    lemma_assoc_absent(self.pairs(), client_id@);
                }
                None
            },
        }
    }

    /// Returns a copy of the subscriptions of a client, if it has any entry.
    pub fn get_subscriptions(&self, client_id: &str) -> (r: Option<Vec<Subscription>>)
        ensures
            match r {
                Some(l) => self@.contains_key(client_id@) && subscriptions_view(l@) == self@[client_id@],
                None => !self@.contains_key(client_id@),
            },
    {
        match self.list_of(client_id) {
            Some(list) => {
                let mut out: Vec<Subscription> = Vec::new();
                let n = list.len();
                let mut i: usize = 0;
                while i < n
                    invariant
                        n == list@.len(),
                        i <= n,
                        subscriptions_view(out@) == subscriptions_view(list@).take(i as int),
                    decreases n - i,
                {
                    let ghost prev = out@;
                    let x = copy_subscription(&list[i]);
                    out.push(x);
                    assert(subscriptions_view(out@) =~= subscriptions_view(prev).push(
                        subscription_view(x),
                    ));
                    assert(subscriptions_view(list@).take(i + 1) =~= subscriptions_view(list@).take(
                        i as int,
                    ).push(subscription_view(x)));
                    i = i + 1;
                }
                assert(subscriptions_view(list@).take(n as int) =~= subscriptions_view(list@));
                Some(out)
            },
            None => None,
        }
    }

    /// Returns all subscriptions for a given client ID that match the topic.
    pub fn get_subscriptions_for_topic(&self, client_id: &str, incoming_topic: &str) -> (r: Vec<
        Subscription,
    >)
        ensures
            subscriptions_view(r@) == (if self@.contains_key(client_id@) {
                matching_of(self@[client_id@], incoming_topic.spec_bytes())
            } else {
                Seq::empty()
            }),
    {
        match self.list_of(client_id) {
            Some(list) => {
                let ghost t = incoming_topic.spec_bytes();
                let ghost lv = subscriptions_view(list@);
                let mut out: Vec<Subscription> = Vec::new();
                let n = list.len();
                let mut i: usize = 0;
                while i < n
                    invariant
                        n == list@.len(),
                        i <= n,
                        lv == subscriptions_view(list@),
                        t == incoming_topic.spec_bytes(),
                        subscriptions_view(out@) == matching_of(lv.take(i as int), t),
                    decreases n - i,
                {
                    assert(lv.take(i + 1).drop_last() =~= lv.take(i as int));
                    assert(lv.take(i + 1).last() == subscription_view(list@[i as int]));
                    if topic_match_wildcard(list[i].topic_filter.as_str(), incoming_topic) {
                        let ghost prev = out@;
                        let x = copy_subscription(&list[i]);
                        out.push(x);
                        assert(subscriptions_view(out@) =~= subscriptions_view(prev).push(
                            subscription_view(x),
                        ));
                    }
                    i = i + 1;
                }
                assert(lv.take(n as int) =~= lv);
                out
            },
            None => {
                let out: Vec<Subscription> = Vec::new();
                assert(subscriptions_view(out@) =~= Seq::<SubscriptionView>::empty());
                out
            },
        }
    }

    /// Returns a count of subscriptions for a client ID that match the topic.
    pub fn matching_subscription_count(&self, client_id: &str, incoming_topic: &str) -> (r: usize)
        ensures
            r == (if self@.contains_key(client_id@) {
                matching_of(self@[client_id@], incoming_topic.spec_bytes()).len()
            } else {
                0
            }),
    {
        let matches = self.get_subscriptions_for_topic(client_id, incoming_topic);
        assert(subscriptions_view(matches@).len() == matches@.len());
        matches.len()
    }

    /// Checks if this pattern matches the topic using MQTT standard wildcards:
    /// - '+' : Matches exactly one level in topic path (e.g., /home/user/+/news)
    /// - '#' : Matches any sequence of levels at END of pattern only
    pub fn topic_matches_pattern(pattern: &str, incoming_topic: &str) -> (r: bool)
        ensures
            r == topic_match_spec(pattern.spec_bytes(), incoming_topic.spec_bytes()),
    {
        if str_equal(pattern, incoming_topic) {
            proof {
                crate::subscribe_handlers::storage::lemma_topic_matches_itself(pattern.spec_bytes());
            }
            return true;
        }
        topic_match_wildcard(pattern, incoming_topic)
    }

    /// Convenience method to check matching subscriptions for routing.
    pub fn match_and_return_subs(&self, client_id: &str, topic: &str) -> (r: Vec<Subscription>)
        ensures
            subscriptions_view(r@) == (if self@.contains_key(client_id@) {
                matching_of(self@[client_id@], topic.spec_bytes())
            } else {
                Seq::empty()
            }),
    {
        self.get_subscriptions_for_topic(client_id, topic)
    }
}

/// MQTT standard topic wildcard matching.
pub fn topic_match_wildcard(pattern: &str, incoming_topic: &str) -> (r: bool)
    ensures
        r == topic_match_spec(pattern.spec_bytes(), incoming_topic.spec_bytes()),
{
    topic_matches(pattern, incoming_topic)
}

/// Helper to create a new empty router.
pub fn get_empty_router() -> (r: TopicRouter)
    ensures
        r@ == Map::<Seq<char>, Seq<SubscriptionView>>::empty(),
{
    TopicRouter::new()
}

} // verus!
