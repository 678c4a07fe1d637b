//! Lists of `(key, value)` pairs kept in strictly increasing key order: the
//! map such a list stands for, and an insertion that keeps the order.
use vstd::prelude::*;
use crate::textops::{text_lt, text_less, lemma_text_lt_irreflexive, lemma_text_lt_transitive, lemma_text_lt_total};
use crate::text::chars_of;

verus! {

/// Keys in strictly increasing order.
pub open spec fn strictly_sorted(keys: Seq<Seq<char>>) -> bool {
    forall|i: int, j: int| 0 <= i < j < keys.len() ==> text_lt(#[trigger] keys[i], #[trigger] keys[j])
}

/// The keys of a list of pairs.
pub open spec fn pair_keys<V>(s: Seq<(Seq<char>, V)>) -> Seq<Seq<char>> {
    s.map_values(|e: (Seq<char>, V)| e.0)
}

/// The keys of a list of pairs keyed by strings.
pub open spec fn string_keys<E>(s: Seq<(String, E)>) -> Seq<Seq<char>> {
    s.map_values(|e: (String, E)| e.0@)
}

/// Whether `k` is the key of some pair.
pub open spec fn has_key<V>(s: Seq<(Seq<char>, V)>, k: Seq<char>) -> bool {
    exists|i: int| 0 <= i < s.len() && #[trigger] s[i].0 == k
}

/// An index whose pair has key `k`.
pub open spec fn key_index<V>(s: Seq<(Seq<char>, V)>, k: Seq<char>) -> int {
    choose|i: int| 0 <= i < s.len() && #[trigger] s[i].0 == k
}

/// The map that a list of pairs with distinct keys stands for.
pub open spec fn pairs_map<V>(s: Seq<(Seq<char>, V)>) -> Map<Seq<char>, V> {
    Map::new(|k: Seq<char>| has_key(s, k), |k: Seq<char>| s[key_index(s, k)].1)
}

/// In a list with strictly sorted keys, a key sits at one index only.
pub proof fn lemma_unique_key<V>(s: Seq<(Seq<char>, V)>, i: int, j: int)
    requires
        strictly_sorted(pair_keys(s)),
        0 <= i < s.len(),
        0 <= j < s.len(),
        s[i].0 == s[j].0,
    ensures
        i == j,
{
    let ks = pair_keys(s);
    if i < j {
        assert(text_lt(ks[i], ks[j]));
        lemma_text_lt_irreflexive(s[i].0);
    } else if j < i {
        assert(text_lt(ks[j], ks[i]));
        lemma_text_lt_irreflexive(s[i].0);
    }
}

/// The value of a key found at index `i`.
pub proof fn lemma_pairs_map_at<V>(s: Seq<(Seq<char>, V)>, i: int)
    requires
        strictly_sorted(pair_keys(s)),
        0 <= i < s.len(),
    ensures
        pairs_map(s).dom().contains(s[i].0),
        pairs_map(s)[s[i].0] == s[i].1,
{
    let k = s[i].0;
    assert(has_key(s, k));
    let j = key_index(s, k);
    lemma_unique_key(s, i, j);
}

/// Replacing the value of the pair at `p`, whose key is `k`, sets `k` in
/// the map.
pub proof fn lemma_pairs_map_update<V>(s: Seq<(Seq<char>, V)>, p: int, k: Seq<char>, v: V)
    requires
        strictly_sorted(pair_keys(s)),
        0 <= p < s.len(),
        s[p].0 == k,
    ensures
        pair_keys(s.update(p, (k, v))) == pair_keys(s),
        pairs_map(s.update(p, (k, v))) == pairs_map(s).insert(k, v),
{
    let s2 = s.update(p, (k, v));
    assert(pair_keys(s2) =~= pair_keys(s));
    lemma_pairs_map_at(s2, p);
    assert forall|q: Seq<char>| #![auto] pairs_map(s2).dom().contains(q) == pairs_map(s).insert(k, v).dom().contains(q) by {
        if q != k {
            if pairs_map(s).dom().contains(q) {
                let j = key_index(s, q);
                assert(s2[j].0 == q);
            }
            if pairs_map(s2).dom().contains(q) {
                let j = key_index(s2, q);
                assert(s[j].0 == q);
            }
        }
    }
    assert forall|q: Seq<char>| #[trigger] pairs_map(s2).dom().contains(q) && q != k implies pairs_map(s2)[q] == pairs_map(s)[q] by {
        let j = key_index(s2, q);
        assert(s[j] == s2[j]);
        lemma_pairs_map_at(s, j);
        lemma_pairs_map_at(s2, j);
    }
    assert(pairs_map(s2) =~= pairs_map(s).insert(k, v));
}

/// Inserting a pair at `p` so that the keys stay sorted sets its key in the
/// map.
pub proof fn lemma_pairs_map_insert<V>(s: Seq<(Seq<char>, V)>, p: int, k: Seq<char>, v: V)
    requires
        strictly_sorted(pair_keys(s.insert(p, (k, v)))),
        0 <= p <= s.len(),
    ensures
        pairs_map(s.insert(p, (k, v))) == pairs_map(s).insert(k, v),
{
    let s2 = s.insert(p, (k, v));
    assert(s2[p] == (k, v));
    assert(strictly_sorted(pair_keys(s))) by {
        assert forall|i: int, j: int| 0 <= i < j < pair_keys(s).len() implies
            text_lt(#[trigger] pair_keys(s)[i], #[trigger] pair_keys(s)[j]) by {
            let a = if i < p { i } else { i + 1 };
            let b = if j < p { j } else { j + 1 };
            assert(pair_keys(s2)[a] == pair_keys(s)[i]);
            assert(pair_keys(s2)[b] == pair_keys(s)[j]);
        }
    }
    lemma_pairs_map_at(s2, p);
    assert forall|q: Seq<char>| #![auto] pairs_map(s2).dom().contains(q) == pairs_map(s).insert(k, v).dom().contains(q) by {
        if q != k {
            if pairs_map(s).dom().contains(q) {
                let j = key_index(s, q);
                if j < p {
                    assert(s2[j].0 == q);
                } else {
                    assert(s2[j + 1].0 == q);
                }
            }
            if pairs_map(s2).dom().contains(q) {
                let j = key_index(s2, q);
                if j < p {
                    assert(s[j].0 == q);
                } else {
                    assert(j != p);
                    assert(s[j - 1].0 == q);
                }
            }
        }
    }
    assert forall|q: Seq<char>| #[trigger] pairs_map(s2).dom().contains(q) && q != k implies pairs_map(s2)[q] == pairs_map(s)[q] by {
        let j = key_index(s2, q);
        lemma_pairs_map_at(s2, j);
        if j < p {
            assert(s[j] == s2[j]);
            lemma_pairs_map_at(s, j);
        } else {
            assert(j != p);
            assert(s[j - 1] == s2[j]);
            lemma_pairs_map_at(s, j - 1);
        }
    }
    assert(pairs_map(s2) =~= pairs_map(s).insert(k, v));
}

/// Sets the value of `key` in a list kept in key order: replaces the pair
/// with that key, or inserts a new pair where it keeps the order. Returns
/// the pair's index.
pub fn sorted_insert<E>(v: &mut Vec<(String, E)>, key: String, entry: E) -> (p: usize)
    requires
        strictly_sorted(string_keys(old(v)@)),
    ensures
        p <= old(v)@.len(),
        strictly_sorted(string_keys(final(v)@)),
        (p < old(v)@.len() && old(v)@[p as int].0@ == key@ && final(v)@ == old(v)@.update(p as int, (key, entry)))
            || final(v)@ == old(v)@.insert(p as int, (key, entry)),
{
    let ghost ks = string_keys(v@);
    let kc = chars_of(key.as_str());
    let mut p: usize = 0;
    while p < v.len() && text_less(chars_of(v[p].0.as_str()).as_slice(), kc.as_slice())
        invariant
            p <= v@.len(),
            kc@ == key@,
            ks == string_keys(v@),
            strictly_sorted(ks),
            forall|j: int| 0 <= j < p ==> text_lt(#[trigger] ks[j], key@),
        decreases v@.len() - p,
    {
        p += 1;
    }
    if p < v.len() && v[p].0 == key {
        let ghost old_v = v@;
        v.set(p, (key, entry));
        assert(string_keys(v@) =~= ks);
        assert(v@ == old_v.update(p as int, (key, entry)));
    } else {
        proof {
            if p < v@.len() {
                lemma_text_lt_total(ks[p as int], key@);
            }
        }
        let ghost old_v = v@;
        v.insert(p, (key, entry));
        let ghost ks2 = string_keys(v@);
        assert(ks2 =~= ks.insert(p as int, kc@));
        proof {
            assert forall|i: int, j: int| 0 <= i < j < ks2.len() implies text_lt(#[trigger] ks2[i], #[trigger] ks2[j]) by {
                if j < p {
                } else if j == p {
                } else if i < p {
                    assert(ks2[j] == ks[j - 1]);
                    if p < ks.len() {
                        lemma_text_lt_transitive(ks[i], key@, ks[p as int]);
                        if j - 1 > p {
                            lemma_text_lt_transitive(ks[i], ks[p as int], ks[j - 1]);
                        }
                    }
                } else if i == p {
                    assert(ks2[j] == ks[j - 1]);
                    if j - 1 > p {
                        lemma_text_lt_transitive(key@, ks[p as int], ks[j - 1]);
                    }
                } else {
                    assert(ks2[i] == ks[i - 1] && ks2[j] == ks[j - 1]);
                }
            }
        }
    }
    p
}

} // verus!
