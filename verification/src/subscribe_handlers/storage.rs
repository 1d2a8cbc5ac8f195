//! Subscription storage and MQTT topic filter matching.
use vstd::prelude::*;

use tokio::sync::mpsc::Sender;
use vstd::string::{StringExecFns, StringSliceAdditionalSpecFns};
use vstd::utf8::encode_utf8;

use crate::bytes_text::{bytes_equal, str_equal};
use crate::client_registry::ConnectionCommand;

verus! {

/// The level separator `/`.
pub open spec fn separator() -> u8 {
    0x2f
}

/// The level `#` (multi-level wildcard).
pub open spec fn hash_level() -> Seq<u8> {
    seq![0x23u8]
}

/// The level `+` (single-level wildcard).
pub open spec fn plus_level() -> Seq<u8> {
    seq![0x2bu8]
}

/// The topic levels of `s`: the pieces between `/` separators, in order.
/// An empty string has one (empty) level; `a/` has the levels `a` and ``.
pub open spec fn levels(s: Seq<u8>) -> Seq<Seq<u8>>
    decreases s.len(),
{
    if s.len() == 0 {
        seq![Seq::<u8>::empty()]
    } else {
        let prev = levels(s.drop_last());
        if s.last() == separator() {
            prev.push(Seq::<u8>::empty())
        } else {
            prev.update(prev.len() - 1, prev.last().push(s.last()))
        }
    }
}

/// Filter levels against topic levels: `#` matches all remaining levels
/// (also none), `+` matches exactly one level, any other level matches
/// only an equal level, and both must end together.
pub open spec fn levels_match(f: Seq<Seq<u8>>, t: Seq<Seq<u8>>) -> bool
    decreases f.len(),
{
    if f.len() == 0 {
        t.len() == 0
    } else if f[0] == hash_level() {
        true
    } else if t.len() == 0 {
        false
    } else {
        (f[0] == plus_level() || f[0] == t[0]) && levels_match(f.drop_first(), t.drop_first())
    }
}

/// MQTT 3.1.1 topic matching of `filter` against `topic`, on their UTF-8 bytes.
pub open spec fn topic_match_spec(filter: Seq<u8>, topic: Seq<u8>) -> bool {
    levels_match(levels(filter), levels(topic))
}

/// Every string has at least one level.
pub proof fn lemma_levels_nonempty(s: Seq<u8>)
    ensures
        levels(s).len() >= 1,
    decreases s.len(),
{
    if s.len() > 0 {
        lemma_levels_nonempty(s.drop_last());
    }
}

/// Any sequence of levels matches itself.
pub proof fn lemma_levels_match_reflexive(f: Seq<Seq<u8>>)
    ensures
        levels_match(f, f),
    decreases f.len(),
{
    if f.len() > 0 && f[0] != hash_level() {
        lemma_levels_match_reflexive(f.drop_first());
    }
}

/// The levels joined back with `/` between them.
pub open spec fn join_levels(ls: Seq<Seq<u8>>) -> Seq<u8>
    decreases ls.len(),
{
    if ls.len() <= 1 {
        if ls.len() == 1 {
            ls[0]
        } else {
            Seq::empty()
        }
    } else {
        join_levels(ls.drop_last()) + seq![separator()] + ls.last()
    }
}

/// No level is `+` or `#`.
pub open spec fn no_wildcard_levels(ls: Seq<Seq<u8>>) -> bool {
    forall|i: int| 0 <= i < ls.len() ==> #[trigger] ls[i] != plus_level() && ls[i] != hash_level()
}

proof fn lemma_join_push_last(ls: Seq<Seq<u8>>, b: u8)
    requires
        ls.len() >= 1,
    ensures
        join_levels(ls.update(ls.len() - 1, ls.last().push(b))) == join_levels(ls).push(b),
{
    let u = ls.update(ls.len() - 1, ls.last().push(b));
    if ls.len() > 1 {
        assert(u.drop_last() =~= ls.drop_last());
        assert(join_levels(u) =~= join_levels(ls).push(b));
    }
}

/// Splitting is undone by joining: a string is its levels joined with `/`.
pub proof fn lemma_join_levels(s: Seq<u8>)
    ensures
        join_levels(levels(s)) == s,
    decreases s.len(),
{
    if s.len() > 0 {
        let d = s.drop_last();
        lemma_join_levels(d);
        lemma_levels_nonempty(d);
        let l = levels(d);
        if s.last() == separator() {
            assert(l.push(Seq::<u8>::empty()).drop_last() =~= l);
            assert(join_levels(levels(s)) =~= s);
        } else {
            lemma_join_push_last(l, s.last());
            assert(d.push(s.last()) =~= s);
        }
    }
}

proof fn lemma_levels_match_plain(f: Seq<Seq<u8>>, t: Seq<Seq<u8>>)
    requires
        no_wildcard_levels(f),
    ensures
        levels_match(f, t) == (f == t),
    decreases f.len(),
{
    if f.len() == 0 {
        if t.len() > 0 {
            assert(f.len() != t.len());
        } else {
            assert(f =~= t);
        }
    } else if t.len() == 0 {
        assert(f[0] != hash_level());
        assert(f.len() != t.len());
    } else {
        assert(f[0] != hash_level() && f[0] != plus_level());
        let fd = f.drop_first();
        let td = t.drop_first();
        assert forall|i: int| 0 <= i < fd.len() implies #[trigger] fd[i] != plus_level() && fd[i]
            != hash_level() by {
            assert(fd[i] == f[i + 1]);
        }
        lemma_levels_match_plain(fd, td);
        if f[0] == t[0] && fd == td {
            assert forall|i: int| 0 <= i < f.len() implies f[i] == t[i] by {
                if i > 0 {
                    assert(f[i] == fd[i - 1]);
                    assert(t[i] == td[i - 1]);
                }
            }
            assert(f =~= t);
        }
        if f == t {
            assert(fd =~= td);
        }
    }
}

/// A filter without wildcard levels matches exactly the topic equal to it.
pub proof fn lemma_plain_filter_matches_only_itself(filter: Seq<u8>, topic: Seq<u8>)
    requires
        no_wildcard_levels(levels(filter)),
    ensures
        topic_match_spec(filter, topic) == (filter == topic),
{
    lemma_levels_match_plain(levels(filter), levels(topic));
    lemma_join_levels(filter);
    lemma_join_levels(topic);
}

proof fn lemma_levels_of_single_byte(b: u8)
    requires
        b != separator(),
    ensures
        levels(seq![b]) == seq![seq![b]],
{
    let s = seq![b];
    assert(s.drop_last() =~= Seq::<u8>::empty());
    assert(levels(Seq::<u8>::empty()) =~= seq![Seq::<u8>::empty()]);
    assert(Seq::<u8>::empty().push(b) =~= seq![b]);
    assert(levels(s) =~= seq![seq![b]]);
}

/// Every filter matches the topic equal to it.
pub proof fn lemma_topic_matches_itself(s: Seq<u8>)
    ensures
        topic_match_spec(s, s),
{
    lemma_levels_match_reflexive(levels(s));
}

/// The filter `#` matches every topic.
pub proof fn lemma_hash_matches_every_topic(topic: Seq<u8>)
    ensures
        topic_match_spec(hash_level(), topic),
{
    lemma_levels_of_single_byte(0x23u8);
}

/// Splitting at a separator: the levels of `a/b` are those of `a` followed by
/// those of `b`.
pub proof fn lemma_levels_append(a: Seq<u8>, b: Seq<u8>)
    ensures
        levels(a + seq![separator()] + b) == levels(a) + levels(b),
    decreases b.len(),
{
    let ab = a + seq![separator()] + b;
    lemma_levels_nonempty(a);
    if b.len() == 0 {
        assert(ab.drop_last() =~= a);
        assert(levels(b) =~= seq![Seq::<u8>::empty()]);
        assert(levels(ab) =~= levels(a) + levels(b));
    } else {
        let bd = b.drop_last();
        lemma_levels_append(a, bd);
        lemma_levels_nonempty(bd);
        assert(ab.drop_last() =~= a + seq![separator()] + bd);
        assert(ab.last() == b.last());
        assert(levels(ab) =~= levels(a) + levels(b));
    }
}

proof fn lemma_levels_match_hash_suffix(f: Seq<Seq<u8>>, t: Seq<Seq<u8>>)
    ensures
        levels_match(f + seq![hash_level()], f + t),
    decreases f.len(),
{
    if f.len() == 0 {
        assert(f + seq![hash_level()] =~= seq![hash_level()]);
    } else {
        let fh = f + seq![hash_level()];
        let ft = f + t;
        if f[0] != hash_level() {
            assert(fh[0] == f[0] && ft[0] == f[0]);
            assert(fh.drop_first() =~= f.drop_first() + seq![hash_level()]);
            assert(ft.drop_first() =~= f.drop_first() + t);
            lemma_levels_match_hash_suffix(f.drop_first(), t);
        } else {
            assert(fh[0] == hash_level());
        }
    }
}

/// A trailing `#` matches the parent level itself and every topic below it:
/// `p/#` matches `p` and `p/r` for every `r`.
pub proof fn lemma_trailing_hash_matches_subtree(p: Seq<u8>, r: Seq<u8>)
    ensures
        topic_match_spec(p + seq![separator()] + hash_level(), p),
        topic_match_spec(p + seq![separator()] + hash_level(), p + seq![separator()] + r),
{
    lemma_levels_append(p, hash_level());
    lemma_levels_append(p, r);
    lemma_levels_of_single_byte(0x23u8);
    lemma_levels_match_hash_suffix(levels(p), Seq::empty());
    assert(levels(p) + Seq::<Seq<u8>>::empty() =~= levels(p));
    lemma_levels_match_hash_suffix(levels(p), levels(r));
}

/// `+` as a whole filter matches exactly the topics of one level, the topics
/// without `/`.
pub proof fn lemma_plus_matches_one_level(topic: Seq<u8>)
    ensures
        topic_match_spec(plus_level(), topic) == !topic.contains(separator()),
{
    lemma_levels_of_single_byte(0x2bu8);
    assert(plus_level()[0] != hash_level()[0]);
    lemma_levels_nonempty(topic);
    lemma_levels_single(topic);
    let t = levels(topic);
    let f = seq![plus_level()];
    assert(f.drop_first() =~= Seq::<Seq<u8>>::empty());
    assert(f[0] == plus_level());
    assert(f[0] != hash_level());
    assert(levels_match(f.drop_first(), t.drop_first()) == (t.drop_first().len() == 0));
    assert(levels_match(f, t) == levels_match(f.drop_first(), t.drop_first()));
}

proof fn lemma_levels_single(s: Seq<u8>)
    ensures
        (levels(s).len() == 1) == !s.contains(separator()),
    decreases s.len(),
{
    if s.len() > 0 {
        let d = s.drop_last();
        lemma_levels_single(d);
        lemma_levels_nonempty(d);
        if d.contains(separator()) {
            let k = choose|k: int| 0 <= k < d.len() && d[k] == separator();
            assert(s[k] == separator());
        }
        if s.contains(separator()) && s.last() != separator() {
            let k = choose|k: int| 0 <= k < s.len() && s[k] == separator();
            assert(d[k] == separator());
        }
        if s.last() == separator() {
            assert(s[s.len() - 1] == separator());
        }
    }
}

/// How many times the byte `b` occurs in `s`.
pub open spec fn byte_count(s: Seq<u8>, b: u8) -> nat
    decreases s.len(),
{
    if s.len() == 0 {
        0
    } else {
        byte_count(s.drop_last(), b) + if s.last() == b {
            1nat
        } else {
            0nat
        }
    }
}

proof fn lemma_levels_count_and_bytes(s: Seq<u8>)
    ensures
        levels(s).len() == byte_count(s, separator()) + 1,
        forall|k: int, j: int|
            0 <= k < levels(s).len() && 0 <= j < levels(s)[k].len() ==> s.contains(
                #[trigger] levels(s)[k][j],
            ),
    decreases s.len(),
{
    if s.len() > 0 {
        let d = s.drop_last();
        lemma_levels_count_and_bytes(d);
        lemma_levels_nonempty(d);
        let prev = levels(d);
        assert forall|k: int, j: int|
            0 <= k < levels(s).len() && 0 <= j < levels(s)[k].len() implies s.contains(
                #[trigger] levels(s)[k][j],
            ) by {
            if s.last() == separator() {
                if k < prev.len() {
                    assert(levels(s)[k] == prev[k]);
                    let m = choose|m: int| 0 <= m < d.len() && d[m] == prev[k][j];
                    assert(s[m] == d[m]);
                }
            } else {
                if k < prev.len() - 1 {
                    assert(levels(s)[k] == prev[k]);
                    let m = choose|m: int| 0 <= m < d.len() && d[m] == prev[k][j];
                    assert(s[m] == d[m]);
                } else {
                    assert(levels(s)[k] == prev.last().push(s.last()));
                    if j < prev.last().len() {
                        assert(levels(s)[k][j] == prev[prev.len() - 1][j]);
                        let m = choose|m: int| 0 <= m < d.len() && d[m] == prev[prev.len() - 1][j];
                        assert(s[m] == d[m]);
                    } else {
                        assert(levels(s)[k][j] == s[s.len() - 1]);
                    }
                }
            }
        }
    }
}

proof fn lemma_levels_match_same_length(f: Seq<Seq<u8>>, t: Seq<Seq<u8>>)
    requires
        forall|k: int| 0 <= k < f.len() ==> #[trigger] f[k] != hash_level(),
        levels_match(f, t),
    ensures
        f.len() == t.len(),
    decreases f.len(),
{
    if f.len() > 0 {
        assert(f[0] != hash_level());
        assert forall|k: int| 0 <= k < f.drop_first().len() implies #[trigger] f.drop_first()[k]
            != hash_level() by {
            assert(f.drop_first()[k] == f[k + 1]);
        }
        lemma_levels_match_same_length(f.drop_first(), t.drop_first());
    }
}

/// Without `#`, matching keeps the number of levels: a filter holding no `#`
/// matches only topics with as many `/` separators as itself, so `+` matches
/// exactly one level and never swallows deeper ones.
pub proof fn lemma_match_without_hash_keeps_depth(filter: Seq<u8>, topic: Seq<u8>)
    requires
        !filter.contains(0x23u8),
        topic_match_spec(filter, topic),
    ensures
        byte_count(filter, 0x2fu8) == byte_count(topic, 0x2fu8),
{
    lemma_levels_count_and_bytes(filter);
    lemma_levels_count_and_bytes(topic);
    let fl = levels(filter);
    assert forall|k: int| 0 <= k < fl.len() implies #[trigger] fl[k] != hash_level() by {
        if fl[k] == hash_level() {
            assert(fl[k][0] == 0x23u8);
            assert(filter.contains(fl[k][0]));
        }
    }
    lemma_levels_match_same_length(fl, levels(topic));
}

/// No level holds the separator `/`: together with `lemma_join_levels` this
/// fixes the levels of a string.
pub proof fn lemma_levels_have_no_separator(s: Seq<u8>)
    ensures
        forall|k: int| 0 <= k < levels(s).len() ==> !(#[trigger] levels(s)[k]).contains(separator()),
    decreases s.len(),
{
    if s.len() > 0 {
        let d = s.drop_last();
        lemma_levels_have_no_separator(d);
        lemma_levels_nonempty(d);
        let prev = levels(d);
        assert forall|k: int| 0 <= k < levels(s).len() implies !(#[trigger] levels(s)[k]).contains(
            separator(),
        ) by {
            if s.last() == separator() {
                if k < prev.len() {
                    assert(levels(s)[k] == prev[k]);
                } else {
                    assert(levels(s)[k] =~= Seq::<u8>::empty());
                }
            } else {
                if k < prev.len() - 1 {
                    assert(levels(s)[k] == prev[k]);
                } else {
                    let l = prev.last().push(s.last());
                    assert(levels(s)[k] == l);
                    if l.contains(separator()) {
                        let j = choose|j: int| 0 <= j < l.len() && l[j] == separator();
                        if j < prev.last().len() {
                            assert(prev[prev.len() - 1][j] == separator());
                            assert(prev[prev.len() - 1].contains(separator()));
                        }
                    }
                }
            }
        }
    }
}

/// Level-wise matching without `#`: the filter levels match the topic levels
/// exactly when there are as many of each and every filter level is `+` or
/// equal to the topic level at the same place.
pub proof fn lemma_levels_match_plain_filter(f: Seq<Seq<u8>>, t: Seq<Seq<u8>>)
    requires
        forall|k: int| 0 <= k < f.len() ==> #[trigger] f[k] != hash_level(),
    ensures
        levels_match(f, t) <==> (f.len() == t.len() && forall|k: int|
            0 <= k < f.len() ==> #[trigger] f[k] == plus_level() || f[k] == t[k]),
    decreases f.len(),
{
    if f.len() > 0 {
        assert(f[0] != hash_level());
        assert forall|k: int| 0 <= k < f.drop_first().len() implies #[trigger] f.drop_first()[k]
            != hash_level() by {
            assert(f.drop_first()[k] == f[k + 1]);
        }
        lemma_levels_match_plain_filter(f.drop_first(), t.drop_first());
        if t.len() > 0 {
            if f.len() == t.len() && forall|k: int|
                0 <= k < f.len() ==> #[trigger] f[k] == plus_level() || f[k] == t[k] {
                assert forall|k: int| 0 <= k < f.drop_first().len() implies #[trigger] f.drop_first()[k]
                    == plus_level() || f.drop_first()[k] == t.drop_first()[k] by {
                    assert(f.drop_first()[k] == f[k + 1]);
                    assert(t.drop_first()[k] == t[k + 1]);
                    assert(f[k + 1] == plus_level() || f[k + 1] == t[k + 1]);
                }
            }
            if levels_match(f, t) {
                assert forall|k: int| 0 <= k < f.len() implies #[trigger] f[k] == plus_level() || f[k]
                    == t[k] by {
                    if k > 0 {
                        assert(f.drop_first()[k - 1] == f[k]);
                        assert(t.drop_first()[k - 1] == t[k]);
                    }
                }
            }
        }
    }
}

/// Level-wise matching with a `#`: a filter made of levels `p` without `#`,
/// then `#`, then anything, matches the topic levels exactly when the topic
/// has at least as many levels as `p` and every level of `p` is `+` or equal
/// to the topic level at the same place.
pub proof fn lemma_levels_match_hash_filter(p: Seq<Seq<u8>>, rest: Seq<Seq<u8>>, t: Seq<Seq<u8>>)
    requires
        forall|k: int| 0 <= k < p.len() ==> #[trigger] p[k] != hash_level(),
    ensures
        levels_match(p + seq![hash_level()] + rest, t) <==> (t.len() >= p.len() && forall|k: int|
            0 <= k < p.len() ==> #[trigger] p[k] == plus_level() || p[k] == t[k]),
    decreases p.len(),
{
    let f = p + seq![hash_level()] + rest;
    if p.len() == 0 {
        assert(f[0] == hash_level());
    } else {
        assert(f[0] == p[0]);
        let p2 = p.drop_first();
        assert(f.drop_first() =~= p2 + seq![hash_level()] + rest);
        assert forall|k: int| 0 <= k < p2.len() implies #[trigger] p2[k] != hash_level() by {
            assert(p2[k] == p[k + 1]);
        }
        lemma_levels_match_hash_filter(p2, rest, t.drop_first());
        if t.len() > 0 {
            if t.len() >= p.len() && forall|k: int|
                0 <= k < p.len() ==> #[trigger] p[k] == plus_level() || p[k] == t[k] {
                assert forall|k: int| 0 <= k < p2.len() implies #[trigger] p2[k] == plus_level()
                    || p2[k] == t.drop_first()[k] by {
                    assert(p2[k] == p[k + 1]);
                    assert(t.drop_first()[k] == t[k + 1]);
                    assert(p[k + 1] == plus_level() || p[k + 1] == t[k + 1]);
                }
            }
            if levels_match(f, t) {
                assert forall|k: int| 0 <= k < p.len() implies #[trigger] p[k] == plus_level() || p[k]
                    == t[k] by {
                    if k > 0 {
                        assert(p2[k - 1] == p[k]);
                        assert(t.drop_first()[k - 1] == t[k]);
                    }
                }
            }
        }
    }
}

/// Topic matching of a filter without `#`, level by level: the filter
/// matches exactly the topics with as many levels in which every filter level
/// is `+` or equal to the topic level at the same place.
pub proof fn lemma_topic_match_plain(filter: Seq<u8>, topic: Seq<u8>)
    requires
        !filter.contains(0x23u8),
    ensures
        topic_match_spec(filter, topic) <==> (levels(filter).len() == levels(topic).len()
            && forall|k: int|
            0 <= k < levels(filter).len() ==> #[trigger] levels(filter)[k] == plus_level()
                || levels(filter)[k] == levels(topic)[k]),
{
    lemma_levels_count_and_bytes(filter);
    let fl = levels(filter);
    assert forall|k: int| 0 <= k < fl.len() implies #[trigger] fl[k] != hash_level() by {
        if fl[k] == hash_level() {
            assert(fl[k][0] == 0x23u8);
            assert(filter.contains(fl[k][0]));
        }
    }
    lemma_levels_match_plain_filter(fl, levels(topic));
}

/// Topic matching of a filter whose levels are `p` (without `#`), `#`, and
/// any further levels: it matches exactly the topics with at least as many
/// levels as `p` in which every level of `p` is `+` or equal to the topic
/// level at the same place.
pub proof fn lemma_topic_match_hash(
    filter: Seq<u8>,
    topic: Seq<u8>,
    p: Seq<Seq<u8>>,
    rest: Seq<Seq<u8>>,
)
    requires
        levels(filter) == p + seq![hash_level()] + rest,
        forall|k: int| 0 <= k < p.len() ==> #[trigger] p[k] != hash_level(),
    ensures
        topic_match_spec(filter, topic) <==> (levels(topic).len() >= p.len() && forall|k: int|
            0 <= k < p.len() ==> #[trigger] p[k] == plus_level() || p[k] == levels(topic)[k]),
{
    lemma_levels_match_hash_filter(p, rest, levels(topic));
}

/// Splits `s` at every `/` into its levels.
fn split_levels(s: &[u8]) -> (r: Vec<Vec<u8>>)
    ensures
        r@.len() == levels(s@).len(),
        forall|i: int| 0 <= i < r@.len() ==> #[trigger] r@[i]@ == levels(s@)[i],
{
    let n = s.len();
    let mut done: Vec<Vec<u8>> = Vec::new();
    let mut cur: Vec<u8> = Vec::new();
    let mut i: usize = 0;
    while i < n
        invariant
            n == s@.len(),
            i <= n,
            levels(s@.subrange(0, i as int)).len() == done@.len() + 1,
            forall|k: int|
                0 <= k < done@.len() ==> #[trigger] done@[k]@ == levels(s@.subrange(0, i as int))[k],
            cur@ == levels(s@.subrange(0, i as int)).last(),
        decreases n - i,
    {
        let ghost prefix = s@.subrange(0, i as int);
        let ghost next = s@.subrange(0, i + 1);
        assert(next.drop_last() =~= prefix);
        assert(next.last() == s@[i as int]);
        proof {
            lemma_levels_nonempty(prefix);
        }
        let b = s[i];
        if b == 0x2f {
            let finished = cur;
            done.push(finished);
            cur = Vec::new();
            assert(cur@ =~= Seq::<u8>::empty());
        } else {
            cur.push(b);
        }
        i = i + 1;
    }
    assert(s@.subrange(0, n as int) =~= s@);
    done.push(cur);
    done
}

fn is_single_level(level: &Vec<u8>, b: u8) -> (r: bool)
    ensures
        r == (level@ == seq![b]),
{
    if level.len() == 1 {
        let first = level[0];
        if first == b {
            assert(level@ =~= seq![b]);
            true
        } else {
            false
        }
    } else {
        false
    }
}

/// MQTT topic wildcard matching per MQTT 3.1.1 spec.
///
/// - `+` matches exactly one topic level (everything between two `/`)
/// - `#` matches zero or more remaining levels (must appear at the end)
/// - Without wildcards: exact string comparison
pub fn topic_matches(filter: &str, topic: &str) -> (r: bool)
    ensures
        r == topic_match_spec(filter.spec_bytes(), topic.spec_bytes()),
{
    let fb = filter.as_bytes();
    let tb = topic.as_bytes();
    if bytes_equal(fb, tb) {
        proof {
            lemma_levels_match_reflexive(levels(fb@));
        }
        return true;
    }
    let filter_levels = split_levels(fb);
    let topic_levels = split_levels(tb);
    let ghost fl = levels(fb@);
    let ghost tl = levels(tb@);
    assert(fl.skip(0) =~= fl);
    assert(tl.skip(0) =~= tl);
    let mut i: usize = 0;
    while i < filter_levels.len()
        invariant
            fl == levels(filter.spec_bytes()),
            tl == levels(topic.spec_bytes()),
            i <= filter_levels@.len(),
            filter_levels@.len() == fl.len(),
            topic_levels@.len() == tl.len(),
            i <= tl.len(),
            forall|k: int| 0 <= k < fl.len() ==> #[trigger] filter_levels@[k]@ == fl[k],
            forall|k: int| 0 <= k < tl.len() ==> #[trigger] topic_levels@[k]@ == tl[k],
            levels_match(fl, tl) == levels_match(fl.skip(i as int), tl.skip(i as int)),
        decreases filter_levels@.len() - i,
    {
        let ghost fs = fl.skip(i as int);
        let ghost ts = tl.skip(i as int);
        assert(fs.len() > 0);
        assert(fs[0] == fl[i as int]);
        assert(fs.drop_first() =~= fl.skip(i + 1));
        assert(filter_levels@[i as int]@ == fl[i as int]);
        if is_single_level(&filter_levels[i], 0x23) {
            assert(fs[0] == hash_level());
            assert(levels_match(fs, ts));
            assert(levels_match(fl, tl));
            return true;
        }
        if i >= topic_levels.len() {
            assert(ts.len() == 0);
            assert(!levels_match(fs, ts));
            return false;
        }
        assert(ts[0] == tl[i as int]);
        assert(ts.drop_first() =~= tl.skip(i + 1));
        let plus = is_single_level(&filter_levels[i], 0x2b);
        assert(topic_levels@[i as int]@ == tl[i as int]);
        if !plus && !bytes_equal(filter_levels[i].as_slice(), topic_levels[i].as_slice()) {
            assert(fs[0] != plus_level() && fs[0] != ts[0]);
            assert(!levels_match(fs, ts));
            return false;
        }
        i = i + 1;
    }
    assert(fl.skip(i as int).len() == 0);
    assert(levels_match(fl.skip(i as int), tl.skip(i as int)) == (tl.skip(i as int).len() == 0));
    i == topic_levels.len()
}


/// A single subscriber for a topic.
///
/// Also holds an `mpsc::Sender` through which pre-rendered PUBLISH frames
/// are pushed by the router fanout to the responsible connection task.
#[derive(Debug, Clone)]
pub struct Subscriber {
    /// Client ID of the subscriber.
    pub client_id: String,
    /// QoS value granted by the broker (`granted_qos`).
    pub qos: u8,
    /// Channel sender to the connection task; pre-rendered frames go here.
    pub tx: Sender<ConnectionCommand>,
}

/// A subscriber as a value: client ID, granted QoS, channel.
pub type SubscriberView = (Seq<char>, u8, Sender<ConnectionCommand>);

/// The router's contents in storage order: each topic filter with its
/// subscribers.
pub type RouterView = Seq<(Seq<char>, Seq<SubscriberView>)>;

/// The value of a subscriber.
pub open spec fn subscriber_view(s: Subscriber) -> SubscriberView {
    (s.client_id@, s.qos, s.tx)
}

/// The values of a list of subscribers.
pub open spec fn subscribers_view(s: Seq<Subscriber>) -> Seq<SubscriberView> {
    s.map_values(|x: Subscriber| subscriber_view(x))
}

/// `i` is the first position of a subscriber with client ID `c`.
pub open spec fn is_first_client(l: Seq<SubscriberView>, c: Seq<char>, i: int) -> bool {
    &&& 0 <= i < l.len()
    &&& l[i].0 == c
    &&& forall|k: int| 0 <= k < i ==> l[k].0 != c
}

/// `i` is the first position of the topic filter `f`.
pub open spec fn is_first_filter(v: RouterView, f: Seq<char>, i: int) -> bool {
    &&& 0 <= i < v.len()
    &&& v[i].0 == f
    &&& forall|k: int| 0 <= k < i ==> v[k].0 != f
}

/// Replace semantics: the subscriber of the same client is replaced by `s`,
/// otherwise `s` is appended.
pub open spec fn upsert_subscriber(l: Seq<SubscriberView>, s: SubscriberView) -> Seq<
    SubscriberView,
> {
    if exists|i: int| is_first_client(l, s.0, i) {
        l.update(choose|i: int| is_first_client(l, s.0, i), s)
    } else {
        l.push(s)
    }
}

/// One subscription of `s` to the topic filter `f`.
pub open spec fn subscribe_one(v: RouterView, f: Seq<char>, s: SubscriberView) -> RouterView {
    if exists|i: int| is_first_filter(v, f, i) {
        let i = choose|i: int| is_first_filter(v, f, i);
        v.update(i, (f, upsert_subscriber(v[i].1, s)))
    } else {
        v.push((f, seq![s]))
    }
}

/// Subscriptions of client `c` with channel `tx` to `filters` (filter, QoS),
/// taken in order.
pub open spec fn subscribe_spec(
    v: RouterView,
    c: Seq<char>,
    filters: Seq<(Seq<char>, u8)>,
    tx: Sender<ConnectionCommand>,
) -> RouterView
    decreases filters.len(),
{
    if filters.len() == 0 {
        v
    } else {
        subscribe_one(
            subscribe_spec(v, c, filters.drop_last(), tx),
            filters.last().0,
            (c, filters.last().1, tx),
        )
    }
}

/// The subscribers of every filter that matches the topic bytes `topic`, in
/// storage order.
pub open spec fn matching_subscribers(v: RouterView, topic: Seq<u8>) -> Seq<SubscriberView>
    decreases v.len(),
{
    if v.len() == 0 {
        Seq::empty()
    } else {
        matching_subscribers(v.drop_last(), topic) + if topic_match_spec(
            encode_utf8(v.last().0),
            topic,
        ) {
            v.last().1
        } else {
            Seq::empty()
        }
    }
}

/// The subscribers of `l` whose client ID is not `c`, in order.
pub open spec fn without_client(l: Seq<SubscriberView>, c: Seq<char>) -> Seq<SubscriberView>
    decreases l.len(),
{
    if l.len() == 0 {
        l
    } else {
        let rest = without_client(l.drop_last(), c);
        if l.last().0 != c {
            rest.push(l.last())
        } else {
            rest
        }
    }
}

/// The entries of `v` that still have subscribers, in order.
pub open spec fn drop_empty(v: RouterView) -> RouterView
    decreases v.len(),
{
    if v.len() == 0 {
        v
    } else {
        let rest = drop_empty(v.drop_last());
        if v.last().1.len() > 0 {
            rest.push(v.last())
        } else {
            rest
        }
    }
}

/// Every entry without the subscribers of client `c`.
pub open spec fn strip_client(v: RouterView, c: Seq<char>) -> RouterView {
    v.map_values(|e: (Seq<char>, Seq<SubscriberView>)| (e.0, without_client(e.1, c)))
}

/// All subscriptions of client `c` removed, and filters left without
/// subscribers dropped.
pub open spec fn remove_client_spec(v: RouterView, c: Seq<char>) -> RouterView {
    drop_empty(strip_client(v, c))
}

/// The subscription of client `c` to filter `f` removed, if `f` is stored.
pub open spec fn unsubscribe_step(v: RouterView, c: Seq<char>, f: Seq<char>) -> RouterView {
    if exists|i: int| is_first_filter(v, f, i) {
        let i = choose|i: int| is_first_filter(v, f, i);
        v.update(i, (f, without_client(v[i].1, c)))
    } else {
        v
    }
}

/// `unsubscribe_step` for each of `filters`, in order.
pub open spec fn unsubscribe_steps(v: RouterView, c: Seq<char>, filters: Seq<Seq<char>>) -> RouterView
    decreases filters.len(),
{
    if filters.len() == 0 {
        v
    } else {
        unsubscribe_step(unsubscribe_steps(v, c, filters.drop_last()), c, filters.last())
    }
}

/// The subscriptions of client `c` to `filters` removed, and filters left
/// without subscribers dropped.
pub open spec fn unsubscribe_spec(v: RouterView, c: Seq<char>, filters: Seq<Seq<char>>) -> RouterView {
    drop_empty(unsubscribe_steps(v, c, filters))
}

/// No two subscribers of `l` have the same client ID.
pub open spec fn clients_unique(l: Seq<SubscriberView>) -> bool {
    forall|a: int, b: int| 0 <= a < b < l.len() ==> l[a].0 != l[b].0
}

/// Filters are stored once each and every stored filter's subscribers have
/// distinct client IDs.
pub open spec fn router_keys_wf(v: RouterView) -> bool {
    &&& forall|i: int, j: int| 0 <= i < j < v.len() ==> v[i].0 != v[j].0
    &&& forall|i: int| 0 <= i < v.len() ==> clients_unique(#[trigger] v[i].1)
}

/// The router's invariant: `router_keys_wf`, and no filter is stored without
/// subscribers.
pub open spec fn router_wf(v: RouterView) -> bool {
    &&& router_keys_wf(v)
    &&& forall|i: int| 0 <= i < v.len() ==> #[trigger] v[i].1.len() > 0
}

proof fn lemma_without_client_from(l: Seq<SubscriberView>, c: Seq<char>)
    ensures
        without_client(l, c).len() <= l.len(),
        forall|i: int|
            0 <= i < without_client(l, c).len() ==> (exists|j: int|
                0 <= j < l.len() && #[trigger] without_client(l, c)[i] == l[j]) && without_client(
                l,
                c,
            )[i].0 != c,
        clients_unique(l) ==> clients_unique(without_client(l, c)),
    decreases l.len(),
{
    if l.len() > 0 {
        let d = l.drop_last();
        lemma_without_client_from(d, c);
        let r = without_client(d, c);
        assert forall|i: int| 0 <= i < r.len() implies exists|j: int|
            0 <= j < l.len() && #[trigger] r[i] == l[j] by {
            let j = choose|j: int| 0 <= j < d.len() && r[i] == d[j];
            assert(l[j] == d[j]);
        }
        if clients_unique(l) {
            assert(clients_unique(d));
            if l.last().0 != c {
                assert forall|a: int| 0 <= a < r.len() implies r[a].0 != l.last().0 by {
                    let j = choose|j: int| 0 <= j < d.len() && r[a] == d[j];
                    assert(l[j] == d[j]);
                }
            }
        }
    }
}

proof fn lemma_drop_empty_from(v: RouterView)
    ensures
        drop_empty(v).len() <= v.len(),
        forall|i: int|
            0 <= i < drop_empty(v).len() ==> (exists|j: int|
                0 <= j < v.len() && #[trigger] drop_empty(v)[i] == v[j]) && drop_empty(
                v,
            )[i].1.len() > 0,
        router_keys_wf(v) ==> router_wf(drop_empty(v)),
    decreases v.len(),
{
    if v.len() > 0 {
        let d = v.drop_last();
        lemma_drop_empty_from(d);
        let r = drop_empty(d);
        assert forall|i: int| 0 <= i < r.len() implies exists|j: int|
            0 <= j < v.len() && #[trigger] r[i] == v[j] by {
            let j = choose|j: int| 0 <= j < d.len() && r[i] == d[j];
            assert(v[j] == d[j]);
        }
        if router_keys_wf(v) {
            assert(router_keys_wf(d)) by {
                assert forall|i: int| 0 <= i < d.len() implies clients_unique(#[trigger] d[i].1) by {
                    assert(d[i] == v[i]);
                }
            }
            if v.last().1.len() > 0 {
                assert forall|a: int| 0 <= a < r.len() implies r[a].0 != v.last().0 by {
                    let j = choose|j: int| 0 <= j < d.len() && r[a] == d[j];
                    assert(v[j] == d[j]);
                }
            }
            let out = drop_empty(v);
            assert forall|i: int| 0 <= i < out.len() implies clients_unique(#[trigger] out[i].1) by {
                if i < r.len() {
                    let j = choose|j: int| 0 <= j < d.len() && r[i] == d[j];
                    assert(d[j] == v[j]);
                } else {
                    assert(out[i] == v.last());
                }
            }
        }
    }
}

/// Replace semantics: after subscribing `s` to `f`, the filter `f` is stored
/// and holds `s` as the only subscriber with `s`'s client ID.
pub proof fn lemma_subscribe_replaces(v: RouterView, f: Seq<char>, s: SubscriberView)
    requires
        router_wf(v),
    ensures
        ({
            let w = subscribe_one(v, f, s);
            exists|i: int|
                0 <= i < w.len() && #[trigger] w[i].0 == f && w[i].1.contains(s) && (forall|j: int|
                    0 <= j < w[i].1.len() && w[i].1[j].0 == s.0 ==> w[i].1[j] == s)
        }),
{
    let w = subscribe_one(v, f, s);
    if exists|i: int| is_first_filter(v, f, i) {
        let i = choose|i: int| is_first_filter(v, f, i);
        let l = v[i].1;
        assert(clients_unique(v[i].1));
        let u = upsert_subscriber(l, s);
        assert(w[i] == (f, u));
        if exists|j: int| is_first_client(l, s.0, j) {
            let j = choose|j: int| is_first_client(l, s.0, j);
            assert(u[j] == s);
            assert(u.contains(s));
            assert forall|k: int| 0 <= k < u.len() && u[k].0 == s.0 implies u[k] == s by {
                if k != j {
                    assert(u[k] == l[k]);
                    assert(l[j].0 == s.0);
                }
            }
        } else {
            assert(u[l.len() as int] == s);
            assert(u.contains(s));
            assert forall|k: int| 0 <= k < u.len() && u[k].0 == s.0 implies u[k] == s by {
                if k < l.len() {
                    assert(u[k] == l[k]);
                    assert(is_first_client(l, s.0, k) || exists|m: int| 0 <= m < k && l[m].0 == s.0);
                    lemma_first_client_exists(l, s.0, k);
                }
            }
        }
        assert(w[i].0 == f);
        assert(w[i].1 == u);
        assert(0 <= i < w.len() && w[i].0 == f && w[i].1.contains(s));
    } else {
        let i = v.len() as int;
        assert(w[i] == (f, seq![s]));
        assert(w[i].1[0] == s);
        assert(w[i].1.contains(s));
        assert(0 <= i < w.len() && w[i].0 == f && w[i].1.contains(s));
    }
}

proof fn lemma_first_client_exists(l: Seq<SubscriberView>, c: Seq<char>, k: int)
    requires
        0 <= k < l.len(),
        l[k].0 == c,
    ensures
        exists|i: int| is_first_client(l, c, i),
    decreases k,
{
    if !is_first_client(l, c, k) {
        let m = choose|m: int| 0 <= m < k && l[m].0 == c;
        lemma_first_client_exists(l, c, m);
    }
}

proof fn lemma_upsert_facts(l: Seq<SubscriberView>, s: SubscriberView)
    requires
        clients_unique(l),
    ensures
        clients_unique(upsert_subscriber(l, s)),
        upsert_subscriber(l, s).len() >= l.len(),
        upsert_subscriber(l, s).len() > 0,
        forall|j: int|
            0 <= j < l.len() && l[j].0 != s.0 ==> #[trigger] upsert_subscriber(l, s)[j] == l[j],
        forall|j: int|
            0 <= j < upsert_subscriber(l, s).len() && (#[trigger] upsert_subscriber(l, s)[j]).0
                != s.0 ==> j < l.len() && upsert_subscriber(l, s)[j] == l[j],
        upsert_subscriber(l, s).contains(s),
        forall|j: int|
            0 <= j < upsert_subscriber(l, s).len() && (#[trigger] upsert_subscriber(l, s)[j]).0
                == s.0 ==> upsert_subscriber(l, s)[j] == s,
{
    let u = upsert_subscriber(l, s);
    if exists|i: int| is_first_client(l, s.0, i) {
        let i = choose|i: int| is_first_client(l, s.0, i);
        assert(u == l.update(i, s));
        assert(u[i] == s);
        assert forall|j: int| 0 <= j < u.len() && u[j].0 == s.0 implies u[j] == s by {
            if j != i {
                assert(u[j] == l[j]);
            }
        }
        assert forall|a: int, b: int| 0 <= a < b < u.len() implies u[a].0 != u[b].0 by {
            if a != i && b != i {
                assert(u[a] == l[a] && u[b] == l[b]);
            } else if a == i {
                assert(u[b] == l[b]);
                assert(l[i].0 == s.0);
            } else {
                assert(u[a] == l[a]);
                assert(l[i].0 == s.0);
            }
        }
    } else {
        assert(u == l.push(s));
        assert(u[l.len() as int] == s);
        assert forall|j: int| 0 <= j < l.len() implies l[j].0 != s.0 by {
            if l[j].0 == s.0 {
                lemma_first_client_exists(l, s.0, j);
            }
        }
        assert forall|j: int| 0 <= j < u.len() && u[j].0 == s.0 implies u[j] == s by {
            if j < l.len() {
                assert(u[j] == l[j]);
            }
        }
        assert forall|a: int, b: int| 0 <= a < b < u.len() implies u[a].0 != u[b].0 by {
            assert(u[a] == l[a]);
            if b < l.len() {
                assert(u[b] == l[b]);
            }
        }
    }
}

proof fn lemma_subscribe_one_facts(v: RouterView, f: Seq<char>, s: SubscriberView)
    requires
        router_wf(v),
    ensures
        router_wf(subscribe_one(v, f, s)),
        subscribe_one(v, f, s).len() >= v.len(),
        forall|i: int| 0 <= i < v.len() ==> (#[trigger] subscribe_one(v, f, s)[i]).0 == v[i].0,
        forall|i: int|
            0 <= i < v.len() && v[i].0 != f ==> #[trigger] subscribe_one(v, f, s)[i] == v[i],
        forall|i: int|
            v.len() <= i < subscribe_one(v, f, s).len() ==> (#[trigger] subscribe_one(v, f, s)[i]).0
                == f,
        forall|i: int, j: int|
            0 <= i < v.len() && 0 <= j < v[i].1.len() && v[i].1[j].0 != s.0 ==> j
                < subscribe_one(v, f, s)[i].1.len() && #[trigger] subscribe_one(v, f, s)[i].1[j]
                == v[i].1[j],
        forall|i: int, j: int|
            0 <= i < subscribe_one(v, f, s).len() && 0 <= j < subscribe_one(v, f, s)[i].1.len() && (
            #[trigger] subscribe_one(v, f, s)[i].1[j]).0 != s.0 ==> i < v.len() && j < v[i].1.len()
                && subscribe_one(v, f, s)[i].1[j] == v[i].1[j],
        exists|i: int|
            0 <= i < subscribe_one(v, f, s).len() && (#[trigger] subscribe_one(v, f, s)[i]).0 == f
                && subscribe_one(v, f, s)[i].1.contains(s) && (forall|j: int|
                0 <= j < subscribe_one(v, f, s)[i].1.len() && subscribe_one(v, f, s)[i].1[j].0
                    == s.0 ==> subscribe_one(v, f, s)[i].1[j] == s),
{
    let w = subscribe_one(v, f, s);
    lemma_subscribe_replaces(v, f, s);
    if exists|i: int| is_first_filter(v, f, i) {
        let i = choose|i: int| is_first_filter(v, f, i);
        let l = v[i].1;
        assert(clients_unique(l));
        lemma_upsert_facts(l, s);
        let u = upsert_subscriber(l, s);
        assert(w == v.update(i, (f, u)));
        assert forall|k: int| 0 <= k < v.len() && v[k].0 == f implies k == i by {
            if k != i {
                assert(v[k].0 != v[i].0);
            }
        }
        assert forall|a: int| 0 <= a < w.len() implies clients_unique(#[trigger] w[a].1) by {
            if a != i {
                assert(w[a] == v[a]);
            }
        }
        assert forall|a: int| 0 <= a < w.len() implies #[trigger] w[a].1.len() > 0 by {
            if a != i {
                assert(w[a] == v[a]);
            }
        }
        assert forall|a: int, b: int| 0 <= a < b < w.len() implies w[a].0 != w[b].0 by {
            assert(w[a].0 == v[a].0 && w[b].0 == v[b].0);
        }
        assert forall|a: int, j: int|
            0 <= a < v.len() && 0 <= j < v[a].1.len() && v[a].1[j].0 != s.0 implies j < w[a].1.len()
                && #[trigger] w[a].1[j] == v[a].1[j] by {
            if a == i {
                assert(u[j] == l[j]);
            }
        }
        assert forall|a: int, j: int|
            0 <= a < w.len() && 0 <= j < w[a].1.len() && (#[trigger] w[a].1[j]).0 != s.0 implies a
                < v.len() && j < v[a].1.len() && w[a].1[j] == v[a].1[j] by {
            if a == i {
                assert(u[j].0 != s.0);
            }
        }
    } else {
        assert(w == v.push((f, seq![s])));
        assert forall|k: int| 0 <= k < v.len() implies v[k].0 != f by {
            if v[k].0 == f {
                assert forall|m: int| 0 <= m < k implies v[m].0 != f by {
                    assert(v[m].0 != v[k].0);
                }
                assert(is_first_filter(v, f, k));
            }
        }
        assert forall|a: int| 0 <= a < w.len() implies clients_unique(#[trigger] w[a].1) by {
            if a < v.len() {
                assert(w[a] == v[a]);
            }
        }
        assert forall|a: int| 0 <= a < w.len() implies #[trigger] w[a].1.len() > 0 by {
            if a < v.len() {
                assert(w[a] == v[a]);
            }
        }
        assert forall|a: int, b: int| 0 <= a < b < w.len() implies w[a].0 != w[b].0 by {
            assert(w[a] == v[a]);
            if b < v.len() {
                assert(w[b] == v[b]);
            }
        }
        assert forall|a: int, j: int|
            0 <= a < w.len() && 0 <= j < w[a].1.len() && (#[trigger] w[a].1[j]).0 != s.0 implies a
                < v.len() && j < v[a].1.len() && w[a].1[j] == v[a].1[j] by {
            if a == v.len() {
                assert(w[a].1 == seq![s]);
            } else {
                assert(w[a] == v[a]);
            }
        }
    }
}

/// The QoS of the last pair in `filters` for the topic filter `f` (0 when
/// there is none).
pub open spec fn last_qos(filters: Seq<(Seq<char>, u8)>, f: Seq<char>) -> u8
    decreases filters.len(),
{
    if filters.len() == 0 {
        0
    } else if filters.last().0 == f {
        filters.last().1
    } else {
        last_qos(filters.drop_last(), f)
    }
}

/// The filter `f` is stored in `v` with `s` among its subscribers, and `s` is
/// the only one of them with `s`'s client ID.
pub open spec fn holds_only(v: RouterView, f: Seq<char>, s: SubscriberView) -> bool {
    exists|i: int|
        0 <= i < v.len() && (#[trigger] v[i]).0 == f && v[i].1.contains(s) && (forall|j: int|
            0 <= j < v[i].1.len() && v[i].1[j].0 == s.0 ==> v[i].1[j] == s)
}

/// The topic filter `f` occurs in the (filter, QoS) list `filters`.
pub open spec fn filter_listed(filters: Seq<(Seq<char>, u8)>, f: Seq<char>) -> bool {
    exists|k: int| 0 <= k < filters.len() && (#[trigger] filters[k]).0 == f
}

/// Subscribing client `c` to a list of filters: the router stays
/// well-formed; each filter of the list holds `c` exactly once, with the QoS
/// of the filter's last occurrence in the list and the channel `tx` (replace,
/// not duplicate); every subscriber of another client stays in place, and no
/// subscriber of another client is added.
pub proof fn lemma_subscribe_all(
    v: RouterView,
    c: Seq<char>,
    filters: Seq<(Seq<char>, u8)>,
    tx: Sender<ConnectionCommand>,
)
    requires
        router_wf(v),
    ensures
        router_wf(subscribe_spec(v, c, filters, tx)),
        subscribe_spec(v, c, filters, tx).len() >= v.len(),
        forall|i: int|
            0 <= i < v.len() ==> (#[trigger] subscribe_spec(v, c, filters, tx)[i]).0 == v[i].0,
        forall|i: int|
            0 <= i < v.len() && !filter_listed(filters, v[i].0) ==> #[trigger] subscribe_spec(
                v,
                c,
                filters,
                tx,
            )[i] == v[i],
        forall|i: int|
            v.len() <= i < subscribe_spec(v, c, filters, tx).len() ==> filter_listed(
                filters,
                (#[trigger] subscribe_spec(v, c, filters, tx)[i]).0,
            ),
        forall|k: int|
            0 <= k < filters.len() ==> holds_only(
                subscribe_spec(v, c, filters, tx),
                (#[trigger] filters[k]).0,
                (c, last_qos(filters, filters[k].0), tx),
            ),
        forall|i: int, j: int|
            #![trigger v[i].1[j]]
            0 <= i < v.len() && 0 <= j < v[i].1.len() && v[i].1[j].0 != c ==> j < subscribe_spec(
                v,
                c,
                filters,
                tx,
            )[i].1.len() && subscribe_spec(v, c, filters, tx)[i].1[j] == v[i].1[j],
        forall|i: int, j: int|
            0 <= i < subscribe_spec(v, c, filters, tx).len() && 0 <= j < subscribe_spec(
                v,
                c,
                filters,
                tx,
            )[i].1.len() && (#[trigger] subscribe_spec(v, c, filters, tx)[i].1[j]).0 != c ==> i
                < v.len() && j < v[i].1.len() && subscribe_spec(v, c, filters, tx)[i].1[j]
                == v[i].1[j],
    decreases filters.len(),
{
    if filters.len() > 0 {
        let d = filters.drop_last();
        let fl = filters.last().0;
        let s = (c, filters.last().1, tx);
        lemma_subscribe_all(v, c, d, tx);
        let w0 = subscribe_spec(v, c, d, tx);
        let w = subscribe_spec(v, c, filters, tx);
        assert(w == subscribe_one(w0, fl, s));
        lemma_subscribe_one_facts(w0, fl, s);
        assert forall|i: int| 0 <= i < v.len() implies (#[trigger] w[i]).0 == v[i].0 by {
            assert(w0[i].0 == v[i].0);
        }
        assert forall|i: int| 0 <= i < v.len() && !filter_listed(filters, v[i].0) implies #[trigger] w[i]
            == v[i] by {
            if filter_listed(d, v[i].0) {
                let k = choose|k: int| 0 <= k < d.len() && (#[trigger] d[k]).0 == v[i].0;
                assert(filters[k] == d[k]);
            }
            if v[i].0 == fl {
                assert(filters[filters.len() - 1].0 == v[i].0);
            }
            assert(w0[i] == v[i]);
        }
        assert forall|i: int| v.len() <= i < w.len() implies filter_listed(
            filters,
            (#[trigger] w[i]).0,
        ) by {
            if i < w0.len() {
                assert(filter_listed(d, w0[i].0));
                let k = choose|k: int| 0 <= k < d.len() && (#[trigger] d[k]).0 == w0[i].0;
                assert(filters[k] == d[k]);
                assert(w[i].0 == w0[i].0);
            } else {
                assert(w[i].0 == fl);
                assert(filters[filters.len() - 1].0 == fl);
            }
        }
        assert forall|k: int| 0 <= k < filters.len() implies holds_only(
            w,
            (#[trigger] filters[k]).0,
            (c, last_qos(filters, filters[k].0), tx),
        ) by {
            let f = filters[k].0;
            if f == fl {
                assert(last_qos(filters, f) == filters.last().1);
            } else {
                assert(d[k] == filters[k]);
                assert(last_qos(filters, f) == last_qos(d, f));
                assert(holds_only(w0, d[k].0, (c, last_qos(d, d[k].0), tx)));
                let i = choose|i: int|
                    0 <= i < w0.len() && (#[trigger] w0[i]).0 == f && w0[i].1.contains(
                        (c, last_qos(d, f), tx),
                    ) && (forall|j: int|
                        0 <= j < w0[i].1.len() && w0[i].1[j].0 == c ==> w0[i].1[j] == (
                            c,
                            last_qos(d, f),
                            tx,
                        ));
                assert(w[i] == w0[i]);
            }
        }
        assert forall|i: int, j: int|
            #![trigger v[i].1[j]]
            0 <= i < v.len() && 0 <= j < v[i].1.len() && v[i].1[j].0 != c implies j < w[i].1.len()
                && w[i].1[j] == v[i].1[j] by {
            assert(j < w0[i].1.len() && w0[i].1[j] == v[i].1[j]);
            assert(w0[i].1[j].0 != c);
        }
        assert forall|i: int, j: int|
            0 <= i < w.len() && 0 <= j < w[i].1.len() && (#[trigger] w[i].1[j]).0 != c implies i
                < v.len() && j < v[i].1.len() && w[i].1[j] == v[i].1[j] by {
            assert(w[i].1[j] == w0[i].1[j]);
            assert(w0[i].1[j].0 != c);
        }
    } else {
        assert(subscribe_spec(v, c, filters, tx) == v);
    }
}

/// Every subscriber of a stored filter that matches the topic is among the
/// subscribers the topic is delivered to.
pub proof fn lemma_matching_includes(v: RouterView, topic: Seq<u8>, i: int, j: int)
    requires
        0 <= i < v.len(),
        0 <= j < v[i].1.len(),
        topic_match_spec(encode_utf8(v[i].0), topic),
    ensures
        matching_subscribers(v, topic).contains(v[i].1[j]),
    decreases v.len(),
{
    let d = v.drop_last();
    let tail = if topic_match_spec(encode_utf8(v.last().0), topic) {
        v.last().1
    } else {
        Seq::<SubscriberView>::empty()
    };
    let m = matching_subscribers(v, topic);
    assert(m == matching_subscribers(d, topic) + tail);
    if i == v.len() - 1 {
        assert(m[matching_subscribers(d, topic).len() + j] == v[i].1[j]);
    } else {
        assert(d[i] == v[i]);
        lemma_matching_includes(d, topic, i, j);
        let k = choose|k: int|
            0 <= k < matching_subscribers(d, topic).len() && matching_subscribers(d, topic)[k]
                == v[i].1[j];
        assert(m[k] == v[i].1[j]);
    }
}

/// A subscription is seen by publishing: after subscribing `s` to `f`, every
/// topic that `f` matches is delivered to `s`.
pub proof fn lemma_subscribed_receives(
    v: RouterView,
    f: Seq<char>,
    s: SubscriberView,
    topic: Seq<u8>,
)
    requires
        router_wf(v),
        topic_match_spec(encode_utf8(f), topic),
    ensures
        matching_subscribers(subscribe_one(v, f, s), topic).contains(s),
{
    lemma_subscribe_replaces(v, f, s);
    let w = subscribe_one(v, f, s);
    let i = choose|i: int|
        0 <= i < w.len() && #[trigger] w[i].0 == f && w[i].1.contains(s) && (forall|j: int|
            0 <= j < w[i].1.len() && w[i].1[j].0 == s.0 ==> w[i].1[j] == s);
    let j = choose|j: int| 0 <= j < w[i].1.len() && w[i].1[j] == s;
    lemma_matching_includes(w, topic, i, j);
}

proof fn lemma_without_client_concat(a: Seq<SubscriberView>, b: Seq<SubscriberView>, c: Seq<char>)
    ensures
        without_client(a + b, c) == without_client(a, c) + without_client(b, c),
    decreases b.len(),
{
    if b.len() == 0 {
        assert(a + b =~= a);
        assert(without_client(a, c) + without_client(b, c) =~= without_client(a, c));
    } else {
        lemma_without_client_concat(a, b.drop_last(), c);
        assert((a + b).drop_last() =~= a + b.drop_last());
        assert((a + b).last() == b.last());
        assert(without_client(a + b, c) =~= without_client(a, c) + without_client(b, c));
    }
}

proof fn lemma_matching_drop_empty(v: RouterView, topic: Seq<u8>)
    ensures
        matching_subscribers(drop_empty(v), topic) == matching_subscribers(v, topic),
    decreases v.len(),
{
    if v.len() > 0 {
        let d = v.drop_last();
        lemma_matching_drop_empty(d, topic);
        if v.last().1.len() > 0 {
            let r = drop_empty(d);
            assert(r.push(v.last()).drop_last() =~= r);
        } else {
            assert(v.last().1 =~= Seq::<SubscriberView>::empty());
            assert(matching_subscribers(v, topic) =~= matching_subscribers(d, topic));
        }
    }
}

proof fn lemma_matching_strip(v: RouterView, c: Seq<char>, topic: Seq<u8>)
    ensures
        matching_subscribers(strip_client(v, c), topic) == without_client(
            matching_subscribers(v, topic),
            c,
        ),
    decreases v.len(),
{
    if v.len() == 0 {
        assert(strip_client(v, c) =~= v);
    } else {
        let d = v.drop_last();
        lemma_matching_strip(d, c, topic);
        let sv = strip_client(v, c);
        assert(sv.drop_last() =~= strip_client(d, c));
        assert(sv.last() == (v.last().0, without_client(v.last().1, c)));
        let tail = if topic_match_spec(encode_utf8(v.last().0), topic) {
            v.last().1
        } else {
            Seq::<SubscriberView>::empty()
        };
        lemma_without_client_concat(matching_subscribers(d, topic), tail, c);
        assert(without_client(Seq::<SubscriberView>::empty(), c) =~= Seq::<SubscriberView>::empty());
    }
}

/// After `remove_client`, a topic is delivered to exactly the subscribers it
/// was delivered to before, except those of the removed client, in the same
/// order.
pub proof fn lemma_remove_client_matching(v: RouterView, c: Seq<char>, topic: Seq<u8>)
    ensures
        matching_subscribers(remove_client_spec(v, c), topic) == without_client(
            matching_subscribers(v, topic),
            c,
        ),
{
    lemma_matching_drop_empty(strip_client(v, c), topic);
    lemma_matching_strip(v, c, topic);
}

/// The client that is removed receives nothing any more.
pub proof fn lemma_removed_client_receives_nothing(v: RouterView, c: Seq<char>, topic: Seq<u8>)
    ensures
        forall|i: int|
            0 <= i < matching_subscribers(remove_client_spec(v, c), topic).len()
                ==> #[trigger] matching_subscribers(remove_client_spec(v, c), topic)[i].0 != c,
{
    lemma_remove_client_matching(v, c, topic);
    lemma_without_client_from(matching_subscribers(v, topic), c);
}

/// After `remove_client`, no stored filter holds a subscriber of the removed
/// client, and the router stays well-formed.
pub proof fn lemma_remove_client_clears(v: RouterView, c: Seq<char>)
    requires
        router_wf(v),
    ensures
        router_wf(remove_client_spec(v, c)),
        forall|i: int, j: int|
            0 <= i < remove_client_spec(v, c).len() && 0 <= j < remove_client_spec(v, c)[i].1.len()
                ==> (#[trigger] remove_client_spec(v, c)[i].1[j]).0 != c,
{
    let st = strip_client(v, c);
    assert forall|i: int| 0 <= i < st.len() implies clients_unique(#[trigger] st[i].1) by {
        lemma_without_client_from(v[i].1, c);
    }
    assert forall|a: int, b: int| 0 <= a < b < st.len() implies st[a].0 != st[b].0 by {
        assert(st[a].0 == v[a].0 && st[b].0 == v[b].0);
    }
    assert(router_keys_wf(st));
    lemma_drop_empty_from(st);
    let w = remove_client_spec(v, c);
    assert forall|i: int, j: int| 0 <= i < w.len() && 0 <= j < w[i].1.len() implies (
    #[trigger] w[i].1[j]).0 != c by {
        let m = choose|m: int| 0 <= m < st.len() && w[i] == st[m];
        lemma_without_client_from(v[m].1, c);
        assert(w[i].1 == without_client(v[m].1, c));
    }
}

proof fn lemma_drop_empty_keeps_full(v: RouterView)
    requires
        forall|i: int| 0 <= i < v.len() ==> #[trigger] v[i].1.len() > 0,
    ensures
        drop_empty(v) == v,
    decreases v.len(),
{
    if v.len() > 0 {
        let d = v.drop_last();
        assert forall|i: int| 0 <= i < d.len() implies #[trigger] d[i].1.len() > 0 by {
            assert(d[i] == v[i]);
        }
        lemma_drop_empty_keeps_full(d);
        assert(v.last().1.len() > 0);
        assert(d.push(v.last()) =~= v);
    }
}

/// Unsubscribing from a filter that is not stored changes nothing.
pub proof fn lemma_unsubscribe_absent_filter(v: RouterView, c: Seq<char>, f: Seq<char>)
    requires
        router_wf(v),
        forall|i: int| 0 <= i < v.len() ==> #[trigger] v[i].0 != f,
    ensures
        unsubscribe_spec(v, c, seq![f]) == v,
{
    let fs = seq![f];
    assert(fs.drop_last() =~= Seq::<Seq<char>>::empty());
    assert(unsubscribe_steps(v, c, fs.drop_last()) == v);
    assert(!exists|i: int| is_first_filter(v, f, i));
    assert(unsubscribe_steps(v, c, fs) == v);
    lemma_drop_empty_keeps_full(v);
}

proof fn lemma_unsubscribe_steps_exclude(v: RouterView, c: Seq<char>, fs: Seq<Seq<char>>)
    requires
        router_keys_wf(v),
    ensures
        unsubscribe_steps(v, c, fs).len() == v.len(),
        forall|i: int|
            0 <= i < v.len() ==> #[trigger] unsubscribe_steps(v, c, fs)[i].0 == v[i].0,
        forall|i: int, j: int|
            0 <= i < v.len() && fs.contains(v[i].0) && 0 <= j < unsubscribe_steps(
                v,
                c,
                fs,
            )[i].1.len() ==> #[trigger] unsubscribe_steps(v, c, fs)[i].1[j].0 != c,
    decreases fs.len(),
{
    if fs.len() > 0 {
        let d = fs.drop_last();
        let f = fs.last();
        lemma_unsubscribe_steps_exclude(v, c, d);
        let u0 = unsubscribe_steps(v, c, d);
        let u = unsubscribe_steps(v, c, fs);
        assert(u == unsubscribe_step(u0, c, f));
        assert forall|i: int| 0 <= i < v.len() && fs.contains(v[i].0) implies forall|j: int|
            0 <= j < u[i].1.len() ==> #[trigger] u[i].1[j].0 != c by {
            let k = choose|k: int| 0 <= k < fs.len() && fs[k] == v[i].0;
            if exists|i0: int| is_first_filter(u0, f, i0) {
                let i0 = choose|i0: int| is_first_filter(u0, f, i0);
                lemma_without_client_from(u0[i0].1, c);
                if i != i0 {
                    assert(u[i] == u0[i]);
                    if k == fs.len() - 1 {
                        assert(v[i].0 == f);
                        assert(v[i0].0 == f);
                        if i < i0 {
                            assert(u0[i].0 == f);
                        } else {
                            assert(v[i0].0 != v[i].0);
                        }
                    } else {
                        assert(d[k] == v[i].0);
                        assert(d.contains(v[i].0));
                    }
                }
            } else {
                assert(u == u0);
                if k == fs.len() - 1 {
                    assert forall|m: int| 0 <= m < i implies u0[m].0 != f by {
                        assert(u0[m].0 == v[m].0);
                    }
                    assert(is_first_filter(u0, f, i));
                } else {
                    assert(d[k] == v[i].0);
                    assert(d.contains(v[i].0));
                }
            }
        }
    }
}

/// Unsubscribing is seen by publishing: after client `c` unsubscribes from
/// `filters`, none of those filters holds a subscription of `c`, so no topic
/// reaches `c` through them.
pub proof fn lemma_unsubscribed_filters_exclude_client(
    v: RouterView,
    c: Seq<char>,
    filters: Seq<Seq<char>>,
)
    requires
        router_wf(v),
    ensures
        forall|i: int, j: int|
            0 <= i < unsubscribe_spec(v, c, filters).len() && filters.contains(
                unsubscribe_spec(v, c, filters)[i].0,
            ) && 0 <= j < unsubscribe_spec(v, c, filters)[i].1.len()
                ==> #[trigger] unsubscribe_spec(v, c, filters)[i].1[j].0 != c,
{
    let u = unsubscribe_steps(v, c, filters);
    lemma_unsubscribe_steps_exclude(v, c, filters);
    lemma_drop_empty_from(u);
    let w = unsubscribe_spec(v, c, filters);
    assert forall|i: int, j: int|
        0 <= i < w.len() && filters.contains(w[i].0) && 0 <= j < w[i].1.len() implies #[trigger] w[
        i].1[j].0 != c by {
        let m = choose|m: int| 0 <= m < u.len() && w[i] == u[m];
        assert(u[m].0 == v[m].0);
    }
}

struct FilterEntry {
    filter: String,
    subscribers: Vec<Subscriber>,
}

spec fn entry_view(e: FilterEntry) -> (Seq<char>, Seq<SubscriberView>) {
    (e.filter@, subscribers_view(e.subscribers@))
}

spec fn entries_view(s: Seq<FilterEntry>) -> RouterView {
    s.map_values(|e: FilterEntry| entry_view(e))
}

/// The view of `&str` filters given to `unsubscribe`.
pub open spec fn strings_view(s: Seq<String>) -> Seq<Seq<char>> {
    s.map_values(|x: String| x@)
}

/// The view of (filter, QoS) pairs given to `subscribe`.
pub open spec fn filters_view(s: Seq<(String, u8)>) -> Seq<(Seq<char>, u8)> {
    s.map_values(|p: (String, u8)| (p.0@, p.1))
}

fn copy_subscriber(s: &Subscriber) -> (r: Subscriber)
    ensures
        subscriber_view(r) == subscriber_view(*s),
{
    Subscriber { client_id: s.client_id.clone(), qos: s.qos, tx: s.tx.clone() }
}

fn client_position(subs: &Vec<Subscriber>, client_id: &str) -> (r: Option<usize>)
    ensures
        match r {
            Some(i) => is_first_client(subscribers_view(subs@), client_id@, i as int),
            None => forall|k: int|
                0 <= k < subs@.len() ==> #[trigger] subs@[k].client_id@ != client_id@,
        },
{
    let n = subs.len();
    let mut i: usize = 0;
    while i < n
        invariant
            n == subs@.len(),
            i <= n,
            forall|k: int| 0 <= k < i ==> #[trigger] subs@[k].client_id@ != client_id@,
        decreases n - i,
    {
        if str_equal(subs[i].client_id.as_str(), client_id) {
            return Some(i);
        }
        i = i + 1;
    }
    None
}

fn filter_position(entries: &Vec<FilterEntry>, filter: &str) -> (r: Option<usize>)
    ensures
        match r {
            Some(i) => is_first_filter(entries_view(entries@), filter@, i as int),
            None => forall|k: int|
                0 <= k < entries@.len() ==> #[trigger] entries@[k].filter@ != filter@,
        },
{
    let n = entries.len();
    let mut i: usize = 0;
    while i < n
        invariant
            n == entries@.len(),
            i <= n,
            forall|k: int| 0 <= k < i ==> #[trigger] entries@[k].filter@ != filter@,
        decreases n - i,
    {
        if str_equal(entries[i].filter.as_str(), filter) {
            return Some(i);
        }
        i = i + 1;
    }
    None
}

fn retain_others(subs: &Vec<Subscriber>, client_id: &str) -> (r: Vec<Subscriber>)
    ensures
        subscribers_view(r@) == without_client(subscribers_view(subs@), client_id@),
{
    let n = subs.len();
    let mut out: Vec<Subscriber> = Vec::new();
    let mut i: usize = 0;
    while i < n
        invariant
            n == subs@.len(),
            i <= n,
            subscribers_view(out@) == without_client(
                subscribers_view(subs@).take(i as int),
                client_id@,
            ),
        decreases n - i,
    {
        let ghost before = subscribers_view(subs@).take(i as int);
        let ghost after = subscribers_view(subs@).take(i + 1);
        assert(after.drop_last() =~= before);
        assert(after.last() == subscriber_view(subs@[i as int]));
        if !str_equal(subs[i].client_id.as_str(), client_id) {
            let c = copy_subscriber(&subs[i]);
            out.push(c);
            assert(subscribers_view(out@) =~= without_client(before, client_id@).push(
                subscriber_view(c),
            ));
        }
        i = i + 1;
    }
    assert(subscribers_view(subs@).take(n as int) =~= subscribers_view(subs@));
    out
}

/// Global topic router: stores subscriptions by topic filter.
/// Each topic filter is stored once, with its list of subscribers.
pub struct TopicRouter {
    subscriptions: Vec<FilterEntry>,
}

impl Default for TopicRouter {
    fn default() -> (r: Self)
        ensures
            r@ == Seq::<(Seq<char>, Seq<SubscriberView>)>::empty(),
    {
        Self::new()
    }
}

impl View for TopicRouter {
    type V = RouterView;

    closed spec fn view(&self) -> RouterView {
        entries_view(self.subscriptions@)
    }
}

impl TopicRouter {
    #[verifier::type_invariant]
    closed spec fn well_formed(&self) -> bool {
        router_wf(entries_view(self.subscriptions@))
    }

    /// Creates an empty router.
    pub fn new() -> (r: Self)
        ensures
            r@ == Seq::<(Seq<char>, Seq<SubscriberView>)>::empty(),
    {
        let r = Self { subscriptions: Vec::new() };
        assert(entries_view(r.subscriptions@) =~= Seq::<(Seq<char>, Seq<SubscriberView>)>::empty());
        r
    }

    fn subscribe_entry(
        entries: &mut Vec<FilterEntry>,
        filter: &String,
        client_id: &str,
        qos: u8,
        tx: &Sender<ConnectionCommand>,
    )
        requires
            router_wf(entries_view(old(entries)@)),
        ensures
            entries_view(final(entries)@) == subscribe_one(
                entries_view(old(entries)@),
                filter@,
                (client_id@, qos, *tx),
            ),
            router_wf(entries_view(final(entries)@)),
    {
        let ghost v = entries_view(entries@);
        let ghost sv: SubscriberView = (client_id@, qos, *tx);
        let sub = Subscriber {
            client_id: <String as StringExecFns>::from_str(client_id),
            qos,
            tx: tx.clone(),
        };
        assert(subscriber_view(sub) == sv);
        match filter_position(entries, filter.as_str()) {
            Some(i) => {
                let mut entry = entries.remove(i);
                let ghost l = subscribers_view(entry.subscribers@);
                assert(v[i as int] == entry_view(entry));
                proof {
                    let c = choose|k: int| is_first_filter(v, filter@, k);
                    assert(is_first_filter(v, filter@, c));
                    assert(c == i as int);
                }
                match client_position(&entry.subscribers, client_id) {
                    Some(j) => {
                        proof {
                            let c = choose|k: int| is_first_client(l, client_id@, k);
                            assert(is_first_client(l, client_id@, c));
                            assert(c == j as int);
                            assert(is_first_client(l, sv.0, j as int));
                            assert(upsert_subscriber(l, sv) == l.update(j as int, sv));
                        }
                        entry.subscribers.set(j, sub);
                        assert(subscribers_view(entry.subscribers@) =~= upsert_subscriber(l, sv));
                    },
                    None => {
                        assert(!exists|k: int| is_first_client(l, client_id@, k));
                        entry.subscribers.push(sub);
                        assert(subscribers_view(entry.subscribers@) =~= upsert_subscriber(l, sv));
                    },
                }
                let ghost u = upsert_subscriber(l, sv);
                entries.insert(i, entry);
                assert(entries_view(entries@) =~= v.update(i as int, (filter@, u)));
                proof {
                    assert(v[i as int].1 == l);
                    assert(clients_unique(v[i as int].1));
                    assert(clients_unique(l));
                    assert(clients_unique(u));
                    assert(u.len() > 0);
                    let w = entries_view(entries@);
                    assert forall|a: int| 0 <= a < w.len() implies clients_unique(#[trigger] w[a].1)
                        && w[a].1.len() > 0 by {
                        if a != i {
                            assert(w[a] == v[a]);
                        }
                    }
                }
            },
            None => {
                assert(!exists|k: int| is_first_filter(v, filter@, k));
                let mut subs: Vec<Subscriber> = Vec::new();
                subs.push(sub);
                let entry = FilterEntry { filter: filter.clone(), subscribers: subs };
                assert(subscribers_view(entry.subscribers@) =~= seq![sv]);
                entries.push(entry);
                assert(entries_view(entries@) =~= v.push((filter@, seq![sv])));
                proof {
                    let w = entries_view(entries@);
                    assert forall|a: int| 0 <= a < w.len() implies clients_unique(#[trigger] w[a].1)
                        && w[a].1.len() > 0 by {
                        if a < v.len() {
                            assert(w[a] == v[a]);
                        }
                    }
                    assert forall|a: int, b: int| 0 <= a < b < w.len() implies w[a].0 != w[b].0 by {
                        if b == v.len() {
                            assert(w[a] == v[a]);
                            assert(entries@[a] == old(entries)@[a]);
                        }
                    }
                }
            },
        }
    }

    /// Registers subscriptions for a client.
    /// On duplicates (same client_id + same topic filter) the QoS is updated
    /// (replace semantics). Returns the granted QoS values (in the order of the
    /// provided filters).
    pub fn subscribe(
        &mut self,
        client_id: &str,
        filters: &[(String, u8)],
        tx: &Sender<ConnectionCommand>,
    ) -> (granted: Vec<u8>)
        ensures
            final(self)@ == subscribe_spec(old(self)@, client_id@, filters_view(filters@), *tx),
            router_wf(final(self)@),
            granted@ == filters@.map_values(|p: (String, u8)| p.1),
    {
        proof {
            use_type_invariant(&*self);
        }
        let ghost v0 = self@;
        let ghost fv = filters_view(filters@);
        let mut entries: Vec<FilterEntry> = Vec::new();
        std::mem::swap(&mut entries, &mut self.subscriptions);
        let mut granted_qos: Vec<u8> = Vec::with_capacity(filters.len());
        let n = filters.len();
        let mut k: usize = 0;
        assert(fv.take(0) =~= Seq::<(Seq<char>, u8)>::empty());
        while k < n
            invariant
                n == filters@.len(),
                fv == filters_view(filters@),
                k <= n,
                entries_view(entries@) == subscribe_spec(v0, client_id@, fv.take(k as int), *tx),
                router_wf(entries_view(entries@)),
                granted_qos@ == filters@.take(k as int).map_values(|p: (String, u8)| p.1),
            decreases n - k,
        {
            let (ref topic_filter, qos) = filters[k];
            assert(fv.take(k + 1).drop_last() =~= fv.take(k as int));
            assert(fv.take(k + 1).last() == (topic_filter@, qos));
            Self::subscribe_entry(&mut entries, topic_filter, client_id, qos, tx);
            granted_qos.push(qos);
            assert(granted_qos@ =~= filters@.take(k + 1).map_values(|p: (String, u8)| p.1));
            k = k + 1;
        }
        assert(fv.take(n as int) =~= fv);
        assert(filters@.take(n as int) =~= filters@);
        self.subscriptions = entries;
        granted_qos
    }

    /// Returns all subscribers whose topic filter matches the given topic.
    pub fn get_subscribers_for_topic(&self, topic: &str) -> (r: Vec<&Subscriber>)
        ensures
            r@.map_values(|s: &Subscriber| subscriber_view(*s)) == matching_subscribers(
                self@,
                topic.spec_bytes(),
            ),
    {
        let ghost v = self@;
        let mut result: Vec<&Subscriber> = Vec::new();
        let n = self.subscriptions.len();
        let mut i: usize = 0;
        while i < n
            invariant
                n == self.subscriptions@.len(),
                v == self@,
                i <= n,
                result@.map_values(|s: &Subscriber| subscriber_view(*s)) == matching_subscribers(
                    v.take(i as int),
                    topic.spec_bytes(),
                ),
            decreases n - i,
        {
            let entry = &self.subscriptions[i];
            let ghost before = result@.map_values(|s: &Subscriber| subscriber_view(*s));
            assert(v.take(i + 1).drop_last() =~= v.take(i as int));
            assert(v.take(i + 1).last() == entry_view(*entry));
            if topic_matches(entry.filter.as_str(), topic) {
                let m = entry.subscribers.len();
                let mut j: usize = 0;
                while j < m
                    invariant
                        m == entry.subscribers@.len(),
                        j <= m,
                        result@.map_values(|s: &Subscriber| subscriber_view(*s)) == before
                            + subscribers_view(entry.subscribers@).take(j as int),
                    decreases m - j,
                {
                    let ghost prev = result@;
                    let x = &entry.subscribers[j];
                    result.push(x);
                    assert(result@ =~= prev.push(x));
                    assert(subscribers_view(entry.subscribers@).take(j + 1) =~= subscribers_view(
                        entry.subscribers@,
                    ).take(j as int).push(subscriber_view(*x)));
                    assert(result@.map_values(|s: &Subscriber| subscriber_view(*s)) =~= prev.map_values(
                        |s: &Subscriber| subscriber_view(*s),
                    ).push(subscriber_view(*x)));
                    assert(result@.map_values(|s: &Subscriber| subscriber_view(*s)) =~= before
                        + subscribers_view(entry.subscribers@).take(j + 1));
                    j = j + 1;
                }
                assert(subscribers_view(entry.subscribers@).take(m as int) =~= subscribers_view(
                    entry.subscribers@,
                ));
            } else {
                assert(before =~= before + Seq::<SubscriberView>::empty());
            }
            i = i + 1;
        }
        assert(v.take(n as int) =~= v);
        result
    }

    /// Removes all subscriptions of a client (e.g. on disconnect).
    pub fn remove_client(&mut self, client_id: &str)
        ensures
            final(self)@ == remove_client_spec(old(self)@, client_id@),
            router_wf(final(self)@),
    {
        proof {
            use_type_invariant(&*self);
        }
        let ghost v = self@;
        let ghost stripped = strip_client(v, client_id@);
        let mut entries: Vec<FilterEntry> = Vec::new();
        std::mem::swap(&mut entries, &mut self.subscriptions);
        let mut kept: Vec<FilterEntry> = Vec::new();
        let n = entries.len();
        let mut i: usize = 0;
        while i < n
            invariant
                n == entries@.len(),
                v == entries_view(entries@),
                stripped == strip_client(v, client_id@),
                i <= n,
                entries_view(kept@) == drop_empty(stripped.take(i as int)),
            decreases n - i,
        {
            let entry = &entries[i];
            let subs = retain_others(&entry.subscribers, client_id);
            assert(stripped.take(i + 1).drop_last() =~= stripped.take(i as int));
            assert(stripped.take(i + 1).last() == (entry.filter@, subscribers_view(subs@)));
            if subs.len() > 0 {
                kept.push(FilterEntry { filter: entry.filter.clone(), subscribers: subs });
                assert(entries_view(kept@) =~= drop_empty(stripped.take(i + 1)));
            }
            i = i + 1;
        }
        assert(stripped.take(n as int) =~= stripped);
        proof {
            assert forall|a: int| 0 <= a < stripped.len() implies clients_unique(
                #[trigger] stripped[a].1,
            ) by {
                assert(clients_unique(v[a].1));
                lemma_without_client_from(v[a].1, client_id@);
            }
            lemma_drop_empty_from(stripped);
        }
        self.subscriptions = kept;
    }

    /// Removes the subscriptions of a client for the given topic filters.
    /// Filters that are not present are silently ignored (no-op).
    pub fn unsubscribe(&mut self, client_id: &str, filters: &[String])
        ensures
            final(self)@ == unsubscribe_spec(old(self)@, client_id@, strings_view(filters@)),
            router_wf(final(self)@),
    {
        proof {
            use_type_invariant(&*self);
        }
        let ghost v = self@;
        let ghost fv = strings_view(filters@);
        let mut entries: Vec<FilterEntry> = Vec::new();
        std::mem::swap(&mut entries, &mut self.subscriptions);
        let n = filters.len();
        let mut k: usize = 0;
        assert(fv.take(0) =~= Seq::<Seq<char>>::empty());
        while k < n
            invariant
                n == filters@.len(),
                fv == strings_view(filters@),
                k <= n,
                entries_view(entries@) == unsubscribe_steps(v, client_id@, fv.take(k as int)),
                router_keys_wf(entries_view(entries@)),
            decreases n - k,
        {
            let ghost w = entries_view(entries@);
            assert(fv.take(k + 1).drop_last() =~= fv.take(k as int));
            assert(fv.take(k + 1).last() == filters@[k as int]@);
            match filter_position(&entries, filters[k].as_str()) {
                Some(i) => {
                    proof {
                        let c = choose|x: int| is_first_filter(w, filters@[k as int]@, x);
                        assert(is_first_filter(w, filters@[k as int]@, c));
                        assert(c == i as int);
                    }
                    let entry = entries.remove(i);
                    let subs = retain_others(&entry.subscribers, client_id);
                    let ghost l = subscribers_view(entry.subscribers@);
                    entries.insert(i, FilterEntry { filter: entry.filter, subscribers: subs });
                    assert(entries_view(entries@) =~= w.update(
                        i as int,
                        (filters@[k as int]@, without_client(l, client_id@)),
                    ));
                    proof {
                        assert(w[i as int].1 == l);
                        assert(clients_unique(w[i as int].1));
                        lemma_without_client_from(l, client_id@);
                        let u = entries_view(entries@);
                        assert forall|a: int| 0 <= a < u.len() implies clients_unique(#[trigger] u[a].1) by {
                            if a != i {
                                assert(u[a] == w[a]);
                            }
                        }
                    }
                },
                None => {
                    assert(!exists|x: int| is_first_filter(w, filters@[k as int]@, x));
                },
            }
            k = k + 1;
        }
        assert(fv.take(n as int) =~= fv);
        let ghost stepped = entries_view(entries@);
        let mut kept: Vec<FilterEntry> = Vec::new();
        let m = entries.len();
        let mut i: usize = 0;
        while i < m
            invariant
                m == entries@.len(),
                stepped == entries_view(entries@),
                i <= m,
                entries_view(kept@) == drop_empty(stepped.take(i as int)),
            decreases m - i,
        {
            let entry = &entries[i];
            assert(stepped.take(i + 1).drop_last() =~= stepped.take(i as int));
            assert(stepped.take(i + 1).last() == entry_view(*entry));
            if entry.subscribers.len() > 0 {
                let mut copy: Vec<Subscriber> = Vec::new();
                let c = entry.subscribers.len();
                let mut j: usize = 0;
                while j < c
                    invariant
                        c == entry.subscribers@.len(),
                        j <= c,
                        subscribers_view(copy@) == subscribers_view(entry.subscribers@).take(j as int),
                    decreases c - j,
                {
                    let ghost prev = copy@;
                    let x = copy_subscriber(&entry.subscribers[j]);
                    copy.push(x);
                    assert(copy@ =~= prev.push(x));
                    assert(subscribers_view(entry.subscribers@).take(j + 1) =~= subscribers_view(
                        entry.subscribers@,
                    ).take(j as int).push(subscriber_view(x)));
                    assert(subscribers_view(copy@) =~= subscribers_view(prev).push(subscriber_view(x)));
                    assert(subscribers_view(copy@) =~= subscribers_view(entry.subscribers@).take(j + 1));
                    j = j + 1;
                }
                assert(subscribers_view(entry.subscribers@).take(c as int) =~= subscribers_view(
                    entry.subscribers@,
                ));
                kept.push(FilterEntry { filter: entry.filter.clone(), subscribers: copy });
                assert(entries_view(kept@) =~= drop_empty(stepped.take(i + 1)));
            }
            i = i + 1;
        }
        assert(stepped.take(m as int) =~= stepped);
        proof {
            lemma_drop_empty_from(stepped);
        }
        self.subscriptions = kept;
    }
}

/// Creates a new empty [`TopicRouter`] (convenience function).
pub fn create_router() -> (r: TopicRouter)
    ensures
        r@ == Seq::<(Seq<char>, Seq<SubscriberView>)>::empty(),
{
    TopicRouter::new()
}

} // verus!
