//! ClientRegistry: the single source of truth about which clients are
//! currently connected. Encapsulates the takeover protocol on client ID
//! collision: a new session swaps itself in and receives the sender of the
//! session it displaces.
use vstd::prelude::*;

use bytes::Bytes;
use tokio::sync::mpsc::Sender;

use crate::assoc::{
    assoc_map, keys_unique, lemma_assoc_absent, lemma_assoc_lookup, lemma_assoc_push,
    lemma_assoc_remove, lemma_assoc_update,
};
use crate::bytes_text::str_equal;
use crate::platform::sender_same_channel;
use vstd::string::StringExecFns;

verus! {

/// Message to a connection task over its mpsc channel.
#[derive(Debug, Clone)]
pub enum ConnectionCommand {
    /// Pre-rendered PUBLISH frame from the router fanout.
    DeliverFrame(Bytes),
    /// Server-side termination (e.g. takeover on client ID collision).
    Disconnect,
}

/// The registry `m` after `client_id` swapped in `tx`.
pub open spec fn after_swap_in(
    m: Map<Seq<char>, Sender<ConnectionCommand>>,
    client_id: Seq<char>,
    tx: Sender<ConnectionCommand>,
) -> Map<Seq<char>, Sender<ConnectionCommand>> {
    m.insert(client_id, tx)
}

/// The sender that a swap-in under `client_id` displaces from `m`, if any.
pub open spec fn displaced(m: Map<Seq<char>, Sender<ConnectionCommand>>, client_id: Seq<char>) -> Option<
    Sender<ConnectionCommand>,
> {
    if m.contains_key(client_id) {
        Some(m[client_id])
    } else {
        None
    }
}

/// The registry `m` after the session holding `own_tx` cleaned up `client_id`:
/// the entry goes only if it still holds `own_tx`.
pub open spec fn after_remove_if_owner(
    m: Map<Seq<char>, Sender<ConnectionCommand>>,
    client_id: Seq<char>,
    own_tx: Sender<ConnectionCommand>,
) -> Map<Seq<char>, Sender<ConnectionCommand>> {
    if m.contains_key(client_id) && m[client_id] == own_tx {
        m.remove(client_id)
    } else {
        m
    }
}

/// A registered client and the sender of its connection task.
pub struct RegistryEntry {
    client_id: String,
    tx: Sender<ConnectionCommand>,
}

/// Registry of the currently connected clients.
///
/// Kept apart from the `TopicRouter`, because a client can also be connected
/// without any subscriptions.
pub struct ClientRegistry {
    entries: Vec<RegistryEntry>,
}

impl ClientRegistry {
    /// The entries as pairs of client ID and sender.
    pub closed spec fn pairs(&self) -> Seq<(Seq<char>, Sender<ConnectionCommand>)> {
        self.entries@.map_values(|e: RegistryEntry| (e.client_id@, e.tx))
    }

    /// The registered clients: client ID to the sender of its connection task.
    pub closed spec fn view(&self) -> Map<Seq<char>, Sender<ConnectionCommand>> {
        assoc_map(self.pairs())
    }

    #[verifier::type_invariant]
    closed spec fn unique_clients(&self) -> bool {
        keys_unique(self.pairs())
    }

    /// Creates an empty registry.
    pub fn new() -> (r: Self)
        ensures
            r.view() == Map::<Seq<char>, Sender<ConnectionCommand>>::empty(),
    {
        let r = ClientRegistry { entries: Vec::new() };
        assert(r.pairs() =~= Seq::empty());
        r
    }

    fn position(entries: &Vec<RegistryEntry>, client_id: &str) -> (r: Option<usize>)
        ensures
            match r {
                Some(i) => i < entries@.len() && entries@[i as int].client_id@ == client_id@,
                None => forall|j: int|
                    0 <= j < entries@.len() ==> #[trigger] entries@[j].client_id@ != client_id@,
            },
    {
        let n = entries.len();
        let mut i: usize = 0;
        while i < n
            invariant
                n == entries@.len(),
                i <= n,
                forall|j: int| 0 <= j < i ==> #[trigger] entries@[j].client_id@ != client_id@,
            decreases n - i,
        {
            if str_equal(entries[i].client_id.as_str(), client_id) {
                return Some(i);
            }
            i = i + 1;
        }
        None
    }

    /// Atomic insert-or-replace. Returns the sender registered before under
    /// `client_id` (if any), so that the caller can kick the old session.
    pub fn swap_in(&mut self, client_id: &str, new_tx: Sender<ConnectionCommand>) -> (r: Option<
        Sender<ConnectionCommand>,
    >)
        ensures
            final(self).view() == after_swap_in(old(self).view(), client_id@, new_tx),
            r == displaced(old(self).view(), client_id@),
    {
        proof {
            use_type_invariant(&*self);
        }
        let ghost old_pairs = self.pairs();
        let mut entries: Vec<RegistryEntry> = Vec::new();
        std::mem::swap(&mut entries, &mut self.entries);
        assert(entries@.map_values(|e: RegistryEntry| (e.client_id@, e.tx)) == old_pairs);
        match Self::position(&entries, client_id) {
            Some(i) => {
                let old_entry = entries.remove(i);
                let id = old_entry.client_id;
                let old_tx = old_entry.tx;
                entries.insert(i, RegistryEntry { client_id: id, tx: new_tx });
                let ghost new_pairs = entries@.map_values(|e: RegistryEntry| (e.client_id@, e.tx));
                proof {
                    assert(old_pairs[i as int] == (client_id@, old_tx));
                    assert(new_pairs =~= old_pairs.update(i as int, (client_id@, new_tx)));
                    lemma_assoc_lookup(old_pairs, i as int);
                    lemma_assoc_update(old_pairs, i as int, new_tx);
                }
                self.entries = entries;
                Some(old_tx)
            },
            None => {
                entries.push(
                    RegistryEntry { client_id: <String as StringExecFns>::from_str(client_id), tx: new_tx },
                );
                let ghost new_pairs = entries@.map_values(|e: RegistryEntry| (e.client_id@, e.tx));
                proof {
                    assert forall|j: int| 0 <= j < old_pairs.len() implies old_pairs[j].0 != client_id@ by {
                        assert(old_pairs[j].0 == entries@[j].client_id@);
                    }
                    lemma_assoc_absent(old_pairs, client_id@);
                    assert(new_pairs =~= old_pairs.push((client_id@, new_tx)));
                    assert(new_pairs.len() > 0);
                    lemma_assoc_push(old_pairs, client_id@, new_tx);
                }
                self.entries = entries;
                None
            },
        }
    }

    /// Removes the entry for `client_id` (idempotent), but only when the stored
    /// sender is `own_tx`: a displaced session cleaning up after itself must not
    /// remove its successor.
    pub fn remove_if_owner(&mut self, client_id: &str, own_tx: &Sender<ConnectionCommand>)
        ensures
            final(self).view() == after_remove_if_owner(old(self).view(), client_id@, *own_tx),
    {
        proof {
            use_type_invariant(&*self);
        }
        let ghost old_pairs = self.pairs();
        let mut entries: Vec<RegistryEntry> = Vec::new();
        std::mem::swap(&mut entries, &mut self.entries);
        assert(entries@.map_values(|e: RegistryEntry| (e.client_id@, e.tx)) == old_pairs);
        match Self::position(&entries, client_id) {
            Some(i) => {
                proof {
                    assert(old_pairs[i as int] == (client_id@, entries@[i as int].tx));
                    lemma_assoc_lookup(old_pairs, i as int);
                }
                if sender_same_channel(&entries[i].tx, own_tx) {
                    let _removed = entries.remove(i);
                    proof {
                        let new_pairs = entries@.map_values(|e: RegistryEntry| (e.client_id@, e.tx));
                        assert(new_pairs =~= old_pairs.remove(i as int));
                        lemma_assoc_remove(old_pairs, i as int);
                    }
                }
                self.entries = entries;
            },
            None => {
                proof {
                    assert forall|j: int| 0 <= j < old_pairs.len() implies old_pairs[j].0 != client_id@ by {
                        assert(old_pairs[j].0 == entries@[j].client_id@);
                    }
                    lemma_assoc_absent(old_pairs, client_id@);
                }
                self.entries = entries;
            },
        }
    }
}

impl Default for ClientRegistry {
    fn default() -> (r: Self)
        ensures
            r.view() == Map::<Seq<char>, Sender<ConnectionCommand>>::empty(),
    {
        Self::new()
    }
}

/// A session that takes over `client_id` receives the sender of the session it
/// displaces, and the registry then holds the newcomer.
pub proof fn lemma_takeover_returns_previous(
    m: Map<Seq<char>, Sender<ConnectionCommand>>,
    client_id: Seq<char>,
    first: Sender<ConnectionCommand>,
    second: Sender<ConnectionCommand>,
)
    ensures
        displaced(after_swap_in(m, client_id, first), client_id) == Some(first),
        after_swap_in(after_swap_in(m, client_id, first), client_id, second) == after_swap_in(
            m,
            client_id,
            second,
        ),
{
    assert(after_swap_in(after_swap_in(m, client_id, first), client_id, second) =~= after_swap_in(
        m,
        client_id,
        second,
    ));
}

/// A displaced session cleaning up after itself leaves its successor in place.
pub proof fn lemma_displaced_cleanup_keeps_successor(
    m: Map<Seq<char>, Sender<ConnectionCommand>>,
    client_id: Seq<char>,
    old_tx: Sender<ConnectionCommand>,
    new_tx: Sender<ConnectionCommand>,
)
    requires
        old_tx != new_tx,
    ensures
        after_remove_if_owner(after_swap_in(m, client_id, new_tx), client_id, old_tx)
            == after_swap_in(m, client_id, new_tx),
{
}

/// The owner's cleanup frees the slot: the next swap-in under that client ID
/// displaces nobody.
pub proof fn lemma_owner_cleanup_frees_slot(
    m: Map<Seq<char>, Sender<ConnectionCommand>>,
    client_id: Seq<char>,
    tx: Sender<ConnectionCommand>,
)
    ensures
        after_remove_if_owner(after_swap_in(m, client_id, tx), client_id, tx) == m.remove(
            client_id,
        ),
        displaced(after_remove_if_owner(after_swap_in(m, client_id, tx), client_id, tx), client_id)
            is None,
{
    assert(after_remove_if_owner(after_swap_in(m, client_id, tx), client_id, tx) =~= m.remove(
        client_id,
    ));
}

/// Cleaning up is idempotent.
pub proof fn lemma_remove_if_owner_idempotent(
    m: Map<Seq<char>, Sender<ConnectionCommand>>,
    client_id: Seq<char>,
    tx: Sender<ConnectionCommand>,
)
    ensures
        after_remove_if_owner(after_remove_if_owner(m, client_id, tx), client_id, tx)
            == after_remove_if_owner(m, client_id, tx),
{
}

/// Swapping in or cleaning up one client ID leaves every other client's entry
/// as it was.
pub proof fn lemma_other_clients_untouched(
    m: Map<Seq<char>, Sender<ConnectionCommand>>,
    client_id: Seq<char>,
    other: Seq<char>,
    tx: Sender<ConnectionCommand>,
)
    requires
        other != client_id,
    ensures
        after_swap_in(m, client_id, tx).contains_key(other) == m.contains_key(other),
        after_remove_if_owner(m, client_id, tx).contains_key(other) == m.contains_key(other),
        m.contains_key(other) ==> after_swap_in(m, client_id, tx)[other] == m[other]
            && after_remove_if_owner(m, client_id, tx)[other] == m[other],
{
}

} // verus!
