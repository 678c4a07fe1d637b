//! The baseline of a turn: the signatures that already exist in the
//! repository, keyed by `Owner::name` (or `name`), kept in key order.
use vstd::prelude::*;
use crate::repo::spec::{BaselineEntry, EntryView, entry_view};
use crate::text::owned;
use crate::keyed::{strictly_sorted, pair_keys, string_keys, has_key, key_index, pairs_map, lemma_pairs_map_at,
    lemma_pairs_map_update, lemma_pairs_map_insert, sorted_insert};
use crate::repo::context::texts;

verus! {

/// The signatures that exist before a turn, by key.
#[derive(Debug)]
pub struct Baseline {
    entries: Vec<(String, BaselineEntry)>,
}

impl Baseline {
    /// The keys, in increasing order.
    pub closed spec fn keys_view(&self) -> Seq<Seq<char>> {
        self.entries@.map_values(|e: (String, BaselineEntry)| e.0@)
    }

    /// The entries in key order.
    pub closed spec fn pairs(&self) -> Seq<(Seq<char>, EntryView)> {
        self.entries@.map_values(|e: (String, BaselineEntry)| (e.0@, entry_view(e.1)))
    }

    #[verifier::type_invariant]
    spec fn keys_sorted(&self) -> bool {
        strictly_sorted(self.keys_view())
    }
}

impl View for Baseline {
    type V = Map<Seq<char>, EntryView>;

    closed spec fn view(&self) -> Map<Seq<char>, EntryView> {
        pairs_map(self.pairs())
    }
}

impl Baseline {
    proof fn lemma_views(&self)
        requires
            strictly_sorted(self.keys_view()),
        ensures
            self.pairs().len() == self.entries@.len(),
            self.pairs().map_values(|e: (Seq<char>, EntryView)| e.0) == self.keys_view(),
            strictly_sorted(self.pairs().map_values(|e: (Seq<char>, EntryView)| e.0)),
    {
        assert(self.pairs().map_values(|e: (Seq<char>, EntryView)| e.0) =~= self.keys_view());
    }

    /// An empty baseline.
    pub fn new() -> (b: Baseline)
        ensures
            b@ == Map::<Seq<char>, EntryView>::empty(),
            b.keys_view() == Seq::<Seq<char>>::empty(),
    {
        let b = Baseline { entries: Vec::new() };
        assert(b.keys_view() =~= Seq::<Seq<char>>::empty());
        assert(b@ =~= Map::<Seq<char>, EntryView>::empty());
        b
    }

    /// The entry of `key`, if any.
    pub fn get(&self, key: &str) -> (r: Option<&BaselineEntry>)
        ensures
            match r {
                Some(e) => self@.contains_key(key@) && self@[key@] == entry_view(*e),
                None => !self@.contains_key(key@),
            },
    {
        proof {
            use_type_invariant(self);
            self.lemma_views();
        }
        let k = owned(key);
        let mut i: usize = 0;
        while i < self.entries.len()
            invariant
                i <= self.entries@.len(),
                k@ == key@,
                strictly_sorted(self.keys_view()),
                forall|j: int| 0 <= j < i ==> self.entries@[j].0@ != key@,
            decreases self.entries@.len() - i,
        {
            if self.entries[i].0 == k {
                proof {
                    self.lemma_views();
                    assert(self.pairs()[i as int] == (self.entries@[i as int].0@, entry_view(self.entries@[i as int].1)));
                    lemma_pairs_map_at(self.pairs(), i as int);
                }
                return Some(&self.entries[i].1);
            }
            i += 1;
        }
        proof {
            if self@.contains_key(key@) {
                let j = key_index(self.pairs(), key@);
                assert(self.pairs()[j].0 == self.entries@[j].0@);
            }
        }
        None
    }

    /// The keys in increasing order.
    pub fn keys(&self) -> (r: Vec<String>)
        ensures
            texts(r@) == self.keys_view(),
    {
        let mut r: Vec<String> = Vec::new();
        let mut i: usize = 0;
        while i < self.entries.len()
            invariant
                i <= self.entries@.len(),
                texts(r@) == self.keys_view().subrange(0, i as int),
            decreases self.entries@.len() - i,
        {
            let ghost before = texts(r@);
            r.push(self.entries[i].0.clone());
            assert(self.keys_view()[i as int] == self.entries@[i as int].0@);
            assert(texts(r@) =~= before.push(self.entries@[i as int].0@));
            assert(texts(r@) =~= self.keys_view().subrange(0, i + 1));
            i += 1;
        }
        assert(self.keys_view().subrange(0, i as int) =~= self.keys_view());
        r
    }

    /// How many keys there are.
    pub fn len(&self) -> (n: usize)
        ensures
            n == self.keys_view().len(),
    {
        self.entries.len()
    }

    /// Sets the entry of `key` to `entry`, keeping the keys in order.
    pub fn insert(&mut self, key: String, entry: BaselineEntry)
        ensures
            final(self)@ == old(self)@.insert(key@, entry_view(entry)),
    {
        proof {
            use_type_invariant(&*self);
        }
        let ghost kv = key@;
        let ghost ev = entry_view(entry);
        let mut v: Vec<(String, BaselineEntry)> = Vec::new();
        std::mem::swap(&mut v, &mut self.entries);
        let ghost old_v = v@;
        assert(string_keys(old_v) =~= old(self).keys_view());
        let p = sorted_insert(&mut v, key, entry);
        let ghost new_v = v@;
        self.entries = v;
        proof {
            let s = old_v.map_values(|e: (String, BaselineEntry)| (e.0@, entry_view(e.1)));
            let s2 = self.pairs();
            assert(s == old(self).pairs());
            assert(pair_keys(s) =~= string_keys(old_v));
            assert(self.keys_view() =~= string_keys(new_v));
            if p < old_v.len() && old_v[p as int].0@ == kv && new_v == old_v.update(p as int, (new_v[p as int].0, new_v[p as int].1)) {
                assert(s2 =~= s.update(p as int, (kv, ev)));
                lemma_pairs_map_update(s, p as int, kv, ev);
            } else {
                assert(s2 =~= s.insert(p as int, (kv, ev)));
                assert(pair_keys(s2) =~= string_keys(new_v));
                lemma_pairs_map_insert(s, p as int, kv, ev);
            }
        }
    }
}

} // verus!
