//! Association lists: sequences of (key, value) pairs read as maps.
use vstd::prelude::*;

verus! {

/// The pairs as a map; an earlier pair wins over a later one with the same key.
pub open spec fn assoc_map<K, V>(s: Seq<(K, V)>) -> Map<K, V>
    decreases s.len(),
{
    if s.len() == 0 {
        Map::empty()
    } else {
        assoc_map(s.drop_first()).insert(s[0].0, s[0].1)
    }
}

/// No key occurs twice.
pub open spec fn keys_unique<K, V>(s: Seq<(K, V)>) -> bool {
    forall|i: int, j: int| 0 <= i < j < s.len() ==> s[i].0 != s[j].0
}

/// A stored pair is what the map gives for its key.
pub proof fn lemma_assoc_lookup<K, V>(s: Seq<(K, V)>, i: int)
    requires
        keys_unique(s),
        0 <= i < s.len(),
    ensures
        assoc_map(s).contains_key(s[i].0),
        assoc_map(s)[s[i].0] == s[i].1,
    decreases s.len(),
{
    if i > 0 {
        let t = s.drop_first();
        assert(t[i - 1] == s[i]);
        lemma_assoc_lookup(t, i - 1);
    }
}

/// A key that no pair has is not in the map.
pub proof fn lemma_assoc_absent<K, V>(s: Seq<(K, V)>, k: K)
    requires
        forall|i: int| 0 <= i < s.len() ==> s[i].0 != k,
    ensures
        !assoc_map(s).contains_key(k),
    decreases s.len(),
{
    if s.len() > 0 {
        let t = s.drop_first();
        assert forall|i: int| 0 <= i < t.len() implies t[i].0 != k by {
            assert(t[i] == s[i + 1]);
        }
        lemma_assoc_absent(t, k);
    }
}

/// Every key of the map is the key of some pair.
pub proof fn lemma_assoc_keys<K, V>(s: Seq<(K, V)>, k: K)
    requires
        assoc_map(s).contains_key(k),
    ensures
        exists|i: int| 0 <= i < s.len() && s[i].0 == k,
    decreases s.len(),
{
    if s.len() > 0 && s[0].0 != k {
        let t = s.drop_first();
        lemma_assoc_keys(t, k);
        let i = choose|i: int| 0 <= i < t.len() && t[i].0 == k;
        assert(s[i + 1] == t[i]);
    }
}

/// Appending a pair with a new key inserts it.
pub proof fn lemma_assoc_push<K, V>(s: Seq<(K, V)>, k: K, v: V)
    requires
        forall|i: int| 0 <= i < s.len() ==> s[i].0 != k,
    ensures
        assoc_map(s.push((k, v))) =~= assoc_map(s).insert(k, v),
    decreases s.len(),
{
    if s.len() > 0 {
        let t = s.drop_first();
        assert(s.push((k, v)).drop_first() =~= t.push((k, v)));
        assert forall|i: int| 0 <= i < t.len() implies t[i].0 != k by {
            assert(t[i] == s[i + 1]);
        }
        lemma_assoc_push(t, k, v);
    } else {
        assert(s.push((k, v)).drop_first() =~= s);
    }
}

/// Replacing the value of a stored pair updates the map.
pub proof fn lemma_assoc_update<K, V>(s: Seq<(K, V)>, i: int, v: V)
    requires
        keys_unique(s),
        0 <= i < s.len(),
    ensures
        assoc_map(s.update(i, (s[i].0, v))) =~= assoc_map(s).insert(s[i].0, v),
    decreases s.len(),
{
    let u = s.update(i, (s[i].0, v));
    if i == 0 {
        assert(u.drop_first() =~= s.drop_first());
    } else {
        let t = s.drop_first();
        assert(u.drop_first() =~= t.update(i - 1, (t[i - 1].0, v)));
        lemma_assoc_update(t, i - 1, v);
        assert(s[0].0 != s[i].0);
    }
}

/// Removing a stored pair removes its key.
pub proof fn lemma_assoc_remove<K, V>(s: Seq<(K, V)>, i: int)
    requires
        keys_unique(s),
        0 <= i < s.len(),
    ensures
        assoc_map(s.remove(i)) =~= assoc_map(s).remove(s[i].0),
    decreases s.len(),
{
    let t = s.drop_first();
    if i == 0 {
        assert(s.remove(0) =~= t);
        assert forall|j: int| 0 <= j < t.len() implies t[j].0 != s[0].0 by {
            assert(t[j] == s[j + 1]);
        }
        lemma_assoc_absent(t, s[0].0);
    } else {
        assert(s.remove(i).drop_first() =~= t.remove(i - 1));
        assert(s.remove(i)[0] == s[0]);
        lemma_assoc_remove(t, i - 1);
        assert(s[0].0 != s[i].0);
    }
}

} // verus!
