//! Workspace transactions: what changed since a turn began, stable digests
//! of paths and contents, and which files a snapshot skips.
use vstd::prelude::*;
use vstd::utf8::encode_utf8;
use crate::text::{chars_of, owned, push_str, string_of, has_prefix, starts_with, dec, push_decimal};
use crate::textops::{trim_ws, trim_bounds, trim_str, has_suffix, ends_with, text_lt, text_less,
    lemma_text_lt_irreflexive, lemma_text_lt_total, lemma_text_lt_transitive, replace_char, replaced_range, sub_vec, range_eq_str};
use crate::ui::engine::widgets::{split_lines, text_lines};
use crate::repo::context::{texts, join, push_joined};
use crate::tools::patch::{hex16, hex16_text, hex_digit, pow16};
use crate::tools::exec_policy::trim_start_char;
use crate::repo::contract::ot;
use crate::textops::{trim_end_char, trim_end_char_bound, index_of};
use crate::tools::shell::{last_sep, program_name};

verus! {

/// The FNV-1a offset basis.
pub const FNV_OFFSET: u64 = 0xcbf29ce484222325;

/// The FNV-1a prime.
pub const FNV_PRIME: u64 = 0x100000001b3;

/// FNV-1a 64 continued from `h` over `b`: each byte is XORed in, then the
/// state is multiplied by the prime (wrapping).
pub open spec fn fnv_fold(h: u64, b: Seq<u8>) -> u64
    decreases b.len(),
{
    if b.len() == 0 {
        h
    } else {
        (fnv_fold(h, b.drop_last()) ^ (b.last() as u64)).wrapping_mul(FNV_PRIME)
    }
}

/// Continues FNV-1a over `b` (see `fnv_fold`).
pub fn fnv_update(h: u64, b: &[u8]) -> (r: u64)
    ensures
        r == fnv_fold(h, b@),
{
    let mut acc = h;
    let mut i: usize = 0;
    assert(b@.subrange(0, 0) =~= Seq::<u8>::empty());
    while i < b.len()
        invariant
            i <= b@.len(),
            acc == fnv_fold(h, b@.subrange(0, i as int)),
        decreases b@.len() - i,
    {
        assert(b@.subrange(0, i + 1).drop_last() =~= b@.subrange(0, i as int));
        acc = (acc ^ (b[i] as u64)).wrapping_mul(FNV_PRIME);
        i += 1;
    }
    assert(b@.subrange(0, i as int) =~= b@);
    acc
}

/// The FNV-1a 64 hash of bytes.
pub fn fnv1a_64(bytes: &[u8]) -> (h: u64)
    ensures
        h == fnv_fold(FNV_OFFSET, bytes@),
{
    fnv_update(FNV_OFFSET, bytes)
}

/// `t` placed into `sorted` after every text not greater than it.
pub open spec fn insert_text(sorted: Seq<Seq<char>>, t: Seq<char>) -> Seq<Seq<char>>
    decreases sorted.len(),
{
    if sorted.len() == 0 || !text_lt(t, sorted.last()) {
        sorted.push(t)
    } else {
        insert_text(sorted.drop_last(), t).push(sorted.last())
    }
}

/// Texts in increasing order (`sort` on strings).
pub open spec fn sorted_texts(s: Seq<Seq<char>>) -> Seq<Seq<char>>
    decreases s.len(),
{
    if s.len() == 0 { Seq::empty() } else { insert_text(sorted_texts(s.drop_last()), s.last()) }
}

/// Texts with each run of equal ones reduced to one (`dedup`).
pub open spec fn dedup_texts(s: Seq<Seq<char>>) -> Seq<Seq<char>>
    decreases s.len(),
{
    if s.len() == 0 {
        Seq::empty()
    } else {
        let d = dedup_texts(s.drop_last());
        if d.len() > 0 && d.last() == s.last() { d } else { d.push(s.last()) }
    }
}

fn insert_text_position(sorted: &Vec<String>, t: &Vec<char>) -> (p: usize)
    ensures
        p <= sorted@.len(),
        insert_text(texts(sorted@), t@) == texts(sorted@).subrange(0, p as int).push(t@)
            + texts(sorted@).subrange(p as int, sorted@.len() as int),
{
    let n = sorted.len();
    let ghost s = texts(sorted@);
    let mut p = n;
    assert(s.subrange(0, n as int) =~= s);
    assert(s.subrange(n as int, n as int) =~= Seq::<Seq<char>>::empty());
    loop
        invariant
            p <= n == sorted@.len() == s.len(),
            s == texts(sorted@),
            insert_text(s, t@) == insert_text(s.subrange(0, p as int), t@) + s.subrange(p as int, n as int),
        decreases p,
    {
        if p == 0 {
            assert(s.subrange(0, 0) =~= Seq::<Seq<char>>::empty());
            assert(insert_text(s.subrange(0, 0), t@) =~= Seq::<Seq<char>>::empty().push(t@));
            return 0;
        }
        let kv = chars_of(sorted[p - 1].as_str());
        let ghost pre = s.subrange(0, p as int);
        assert(pre.last() == sorted@[p - 1]@);
        if !text_less(t.as_slice(), kv.as_slice()) {
            return p;
        }
        assert(pre.drop_last() =~= s.subrange(0, p - 1));
        assert(s.subrange(p - 1, n as int) =~= seq![s[p - 1]] + s.subrange(p as int, n as int));
        assert(insert_text(s, t@) =~= insert_text(s.subrange(0, p - 1), t@) + s.subrange(p - 1, n as int));
        p -= 1;
    }
}

/// Sorts strings (see `sorted_texts`).
pub fn sort_strings(v: Vec<String>) -> (r: Vec<String>)
    ensures
        texts(r@) == sorted_texts(texts(v@)),
{
    let mut v = v;
    let ghost all = texts(v@);
    let total = v.len();
    let mut sorted: Vec<String> = Vec::new();
    let mut taken: usize = 0;
    assert(texts(sorted@) =~= Seq::<Seq<char>>::empty());
    assert(all.subrange(0, 0) =~= Seq::<Seq<char>>::empty());
    while v.len() > 0
        invariant
            taken + v@.len() == total == all.len(),
            texts(v@) == all.subrange(taken as int, total as int),
            texts(sorted@) == sorted_texts(all.subrange(0, taken as int)),
        decreases v@.len(),
    {
        let ghost vv = v@;
        let x = v.remove(0);
        assert(vv[0] == x);
        assert(texts(vv)[0] == x@);
        assert(texts(v@) =~= texts(vv).subrange(1, vv.len() as int));
        assert(all[taken as int] == x@);
        let xv = chars_of(x.as_str());
        let p = insert_text_position(&sorted, &xv);
        let ghost before = texts(sorted@);
        sorted.insert(p, x);
        assert(texts(sorted@) =~= before.subrange(0, p as int).push(xv@) + before.subrange(p as int, before.len() as int));
        assert(all.subrange(0, taken + 1).drop_last() =~= all.subrange(0, taken as int));
        taken += 1;
        assert(texts(v@) =~= all.subrange(taken as int, total as int));
    }
    assert(all.subrange(0, total as int) =~= all);
    sorted
}

/// Removes runs of equal strings (see `dedup_texts`).
pub fn dedup_strings(v: Vec<String>) -> (r: Vec<String>)
    ensures
        texts(r@) == dedup_texts(texts(v@)),
{
    let mut v = v;
    let ghost all = texts(v@);
    let total = v.len();
    let mut out: Vec<String> = Vec::new();
    let mut done: usize = 0;
    assert(texts(out@) =~= Seq::<Seq<char>>::empty());
    assert(all.subrange(0, 0) =~= Seq::<Seq<char>>::empty());
    while v.len() > 0
        invariant
            done + v@.len() == total == all.len(),
            texts(v@) == all.subrange(done as int, total as int),
            texts(out@) == dedup_texts(all.subrange(0, done as int)),
        decreases v@.len(),
    {
        let ghost vv = v@;
        let x = v.remove(0);
        assert(vv[0] == x);
        assert(texts(vv)[0] == x@);
        assert(texts(v@) =~= texts(vv).subrange(1, vv.len() as int));
        assert(all[done as int] == x@);
        assert(all.subrange(0, done + 1).drop_last() =~= all.subrange(0, done as int));
        let keep = if out.len() == 0 {
            true
        } else {
            let a = chars_of(x.as_str());
            let b = chars_of(out[out.len() - 1].as_str());
            assert(texts(out@).last() == out@[out@.len() - 1]@);
            !(a.len() == b.len() && starts_with(a.as_slice(), b.as_slice()))
        };
        proof {
            if out@.len() > 0 {
                let l = out@[out@.len() - 1]@;
                if x@ == l {
                    assert(x@.subrange(0, l.len() as int) =~= x@);
                }
                if x@.len() == l.len() && has_prefix(x@, l) {
                    assert(x@ =~= x@.subrange(0, l.len() as int));
                }
            }
        }
        if keep {
            let ghost before = texts(out@);
            let ghost xv = x@;
            out.push(x);
            assert(texts(out@) =~= before.push(xv));
        }
        done += 1;
        assert(texts(v@) =~= all.subrange(done as int, total as int));
    }
    assert(all.subrange(0, total as int) =~= all);
    out
}

/// The files that changed in a workspace during a turn.
#[derive(Clone, Debug, Default, PartialEq, Eq)]
pub struct WorkspaceDiff {
    pub added: Vec<String>,
    pub modified: Vec<String>,
    pub deleted: Vec<String>,
    /// Unified diffs of the modified files.
    pub diff_content: Vec<String>,
}

/// One labelled list of a summary, or nothing when the list is empty.
pub open spec fn labelled(label: Seq<char>, paths: Seq<Seq<char>>) -> Seq<Seq<char>> {
    if paths.len() == 0 { Seq::empty() } else { seq![label + ": "@ + join(paths, ", "@)] }
}

/// The summary of a diff: `no workspace changes`, or the non-empty lists
/// labelled `added`, `modified` and `deleted`, separated by `; `.
pub open spec fn diff_summary(added: Seq<Seq<char>>, modified: Seq<Seq<char>>, deleted: Seq<Seq<char>>) -> Seq<char> {
    if added.len() == 0 && modified.len() == 0 && deleted.len() == 0 {
        "no workspace changes"@
    } else {
        join(labelled("added"@, added) + labelled("modified"@, modified) + labelled("deleted"@, deleted), "; "@)
    }
}

/// The bytes of texts, one after another.
pub open spec fn all_bytes(ts: Seq<Seq<char>>) -> Seq<u8>
    decreases ts.len(),
{
    if ts.len() == 0 { Seq::empty() } else { all_bytes(ts.drop_last()) + encode_utf8(ts.last()) }
}

/// The checksum of a diff: FNV-1a over the bytes of its sorted added, then
/// modified, then deleted paths, in hexadecimal.
pub open spec fn diff_checksum(added: Seq<Seq<char>>, modified: Seq<Seq<char>>, deleted: Seq<Seq<char>>) -> Seq<char> {
    hex16(fnv_fold(FNV_OFFSET, all_bytes(sorted_texts(added) + sorted_texts(modified) + sorted_texts(deleted))))
}

/// Every text of `s` comes no later than the ones after it.
pub open spec fn texts_sorted(s: Seq<Seq<char>>) -> bool {
    forall|i: int, j: int| 0 <= i < j < s.len() ==> !text_lt(#[trigger] s[j], #[trigger] s[i])
}

proof fn lemma_insert_text(sorted: Seq<Seq<char>>, t: Seq<char>)
    requires
        texts_sorted(sorted),
    ensures
        texts_sorted(insert_text(sorted, t)),
        insert_text(sorted, t).to_multiset() == sorted.to_multiset().insert(t),
        insert_text(sorted, t).len() == sorted.len() + 1,
    decreases sorted.len(),
{
    broadcast use vstd::seq_lib::group_to_multiset_ensures;
    if sorted.len() == 0 || !text_lt(t, sorted.last()) {
        let r = sorted.push(t);
        assert forall|i: int, j: int| 0 <= i < j < r.len() implies !text_lt(#[trigger] r[j], #[trigger] r[i]) by {
            if j == r.len() - 1 && i < sorted.len() {
                lemma_text_lt_total(t, sorted.last());
                if i < sorted.len() - 1 {
                    assert(!text_lt(sorted.last(), sorted[i]));
                    if text_lt(t, sorted[i]) {
                        lemma_text_lt_total(sorted.last(), sorted[i]);
                        if text_lt(sorted[i], sorted.last()) {
                            lemma_text_lt_transitive(t, sorted[i], sorted.last());
                        }
                    }
                }
            }
        }
    } else {
        let d = sorted.drop_last();
        let m = sorted.last();
        assert(texts_sorted(d));
        lemma_insert_text(d, t);
        let r0 = insert_text(d, t);
        let r = r0.push(m);
        assert(sorted =~= d.push(m));
        assert forall|i: int, j: int| 0 <= i < j < r.len() implies !text_lt(#[trigger] r[j], #[trigger] r[i]) by {
            if j == r.len() - 1 {
                let x = r0[i];
                assert(r0.to_multiset().count(x) > 0);
                assert(d.to_multiset().insert(t).count(x) > 0);
                if x == t {
                    lemma_text_lt_irreflexive(m);
                    if text_lt(m, t) {
                        lemma_text_lt_transitive(m, t, m);
                    }
                } else {
                    assert(d.to_multiset().count(x) > 0);
                    assert(d.contains(x));
                    let k = choose|k: int| 0 <= k < d.len() && d[k] == x;
                    assert(sorted[k] == x);
                    assert(!text_lt(sorted[sorted.len() - 1], sorted[k]));
                }
            } else {
                assert(r[i] == r0[i] && r[j] == r0[j]);
            }
        }
    }
}

proof fn lemma_sorted_texts(s: Seq<Seq<char>>)
    ensures
        texts_sorted(sorted_texts(s)),
        sorted_texts(s).to_multiset() == s.to_multiset(),
    decreases s.len(),
{
    broadcast use vstd::seq_lib::group_to_multiset_ensures;
    if s.len() > 0 {
        lemma_sorted_texts(s.drop_last());
        lemma_insert_text(sorted_texts(s.drop_last()), s.last());
        assert(s =~= s.drop_last().push(s.last()));
    } else {
        assert(sorted_texts(s) =~= Seq::<Seq<char>>::empty());
    }
}

/// The last text of a sorted sequence comes no earlier than any of its texts.
proof fn lemma_sorted_last_max(s: Seq<Seq<char>>, x: Seq<char>)
    requires
        texts_sorted(s),
        s.contains(x),
    ensures
        !text_lt(s.last(), x),
{
    let k = choose|k: int| 0 <= k < s.len() && s[k] == x;
    if k < s.len() - 1 {
        assert(!text_lt(s[s.len() - 1], s[k]));
    } else {
        lemma_text_lt_irreflexive(x);
    }
}

/// Two sorted sequences holding the same texts are equal.
proof fn lemma_sorted_unique(a: Seq<Seq<char>>, b: Seq<Seq<char>>)
    requires
        texts_sorted(a),
        texts_sorted(b),
        a.to_multiset() == b.to_multiset(),
    ensures
        a == b,
    decreases a.len(),
{
    broadcast use vstd::seq_lib::group_to_multiset_ensures;
    assert(a.len() == a.to_multiset().len());
    assert(b.len() == b.to_multiset().len());
    if a.len() == 0 {
        assert(a =~= b);
    } else {
        let x = a.last();
        let y = b.last();
        assert(a.contains(x));
        assert(a.to_multiset().count(x) > 0);
        assert(b.contains(x));
        assert(b.to_multiset().count(y) > 0);
        assert(a.contains(y));
        lemma_sorted_last_max(a, y);
        lemma_sorted_last_max(b, x);
        lemma_text_lt_total(x, y);
        assert(x == y);
        let ad = a.drop_last();
        let bd = b.drop_last();
        assert(a =~= ad.push(x));
        assert(b =~= bd.push(y));
        assert(ad.to_multiset() =~= a.to_multiset().remove(x));
        assert(bd.to_multiset() =~= b.to_multiset().remove(y));
        assert(texts_sorted(ad));
        assert(texts_sorted(bd));
        lemma_sorted_unique(ad, bd);
        assert(a =~= b);
    }
}

/// The checksum of a diff depends only on which paths its lists hold, not on
/// their order; it is sixteen lowercase hexadecimal digits.
pub proof fn lemma_checksum_order_free(a: WorkspaceDiff, b: WorkspaceDiff)
    requires
        texts(a.added@).to_multiset() == texts(b.added@).to_multiset(),
        texts(a.modified@).to_multiset() == texts(b.modified@).to_multiset(),
        texts(a.deleted@).to_multiset() == texts(b.deleted@).to_multiset(),
    ensures
        diff_checksum(texts(a.added@), texts(a.modified@), texts(a.deleted@))
            == diff_checksum(texts(b.added@), texts(b.modified@), texts(b.deleted@)),
        diff_checksum(texts(a.added@), texts(a.modified@), texts(a.deleted@)).len() == 16,
        forall|i: int| 0 <= i < 16 ==> {
            let c = #[trigger] diff_checksum(texts(a.added@), texts(a.modified@), texts(a.deleted@))[i];
            ('0' <= c <= '9') || ('a' <= c <= 'f')
        },
{
    lemma_sorted_texts(texts(a.added@));
    lemma_sorted_texts(texts(b.added@));
    lemma_sorted_unique(sorted_texts(texts(a.added@)), sorted_texts(texts(b.added@)));
    lemma_sorted_texts(texts(a.modified@));
    lemma_sorted_texts(texts(b.modified@));
    lemma_sorted_unique(sorted_texts(texts(a.modified@)), sorted_texts(texts(b.modified@)));
    lemma_sorted_texts(texts(a.deleted@));
    lemma_sorted_texts(texts(b.deleted@));
    lemma_sorted_unique(sorted_texts(texts(a.deleted@)), sorted_texts(texts(b.deleted@)));
    let h = diff_checksum(texts(a.added@), texts(a.modified@), texts(a.deleted@));
    assert forall|i: int| 0 <= i < 16 implies {
        let c = #[trigger] h[i];
        ('0' <= c <= '9') || ('a' <= c <= 'f')
    } by {
        let v = fnv_fold(FNV_OFFSET, all_bytes(sorted_texts(texts(a.added@)) + sorted_texts(texts(a.modified@))
            + sorted_texts(texts(a.deleted@))));
        let d = ((v as int) / pow16(15 - i)) % 16;
        assert(0 <= d < 16);
        assert(h[i] == hex_digit(d));
        if d < 10 {
            let u = (d + 48) as u8;
            assert(48 <= u <= 57);
        } else {
            let u = (d + 87) as u8;
            assert(97 <= u <= 102);
        }
    }
}

fn labelled_exec(label: &str, paths: &Vec<String>) -> (r: Vec<String>)
    ensures
        texts(r@) == labelled(label@, texts(paths@)),
{
    let mut r: Vec<String> = Vec::new();
    if paths.len() > 0 {
        let mut s = owned(label);
        push_str(&mut s, ": ");
        push_joined(&mut s, paths, ", ");
        let ghost sv = s@;
        r.push(s);
        assert(texts(r@) =~= seq![sv]);
    } else {
        assert(texts(r@) =~= Seq::<Seq<char>>::empty());
    }
    r
}

fn clone_strings(v: &Vec<String>) -> (r: Vec<String>)
    ensures
        texts(r@) == texts(v@),
{
    let mut r: Vec<String> = Vec::new();
    let mut i: usize = 0;
    while i < v.len()
        invariant
            i <= v@.len(),
            texts(r@) == texts(v@).subrange(0, i as int),
        decreases v@.len() - i,
    {
        let ghost before = texts(r@);
        let c = owned(v[i].as_str());
        r.push(c);
        assert(texts(r@) =~= before.push(v@[i as int]@));
        assert(texts(v@).subrange(0, i + 1) =~= texts(v@).subrange(0, i as int).push(v@[i as int]@));
        i += 1;
    }
    assert(texts(v@).subrange(0, i as int) =~= texts(v@));
    r
}

fn fnv_texts(h: u64, ts: &Vec<String>) -> (r: u64)
    ensures
        r == fnv_fold(h, all_bytes(texts(ts@))),
{
    let mut acc = h;
    let mut i: usize = 0;
    assert(texts(ts@).subrange(0, 0) =~= Seq::<Seq<char>>::empty());
    while i < ts.len()
        invariant
            i <= ts@.len(),
            acc == fnv_fold(h, all_bytes(texts(ts@).subrange(0, i as int))),
        decreases ts@.len() - i,
    {
        let b = ts[i].as_str().as_bytes();
        proof { lemma_fnv_concat(h, all_bytes(texts(ts@).subrange(0, i as int)), b@); }
        acc = fnv_update(acc, b);
        assert(texts(ts@).subrange(0, i + 1).drop_last() =~= texts(ts@).subrange(0, i as int));
        i += 1;
    }
    assert(texts(ts@).subrange(0, i as int) =~= texts(ts@));
    acc
}

/// FNV-1a over two byte runs is FNV-1a over the second continued from the first.
pub proof fn lemma_fnv_concat(h: u64, a: Seq<u8>, b: Seq<u8>)
    ensures
        fnv_fold(h, a + b) == fnv_fold(fnv_fold(h, a), b),
    decreases b.len(),
{
    if b.len() == 0 {
        assert(a + b =~= a);
    } else {
        lemma_fnv_concat(h, a, b.drop_last());
        assert((a + b).drop_last() =~= a + b.drop_last());
    }
}

proof fn lemma_all_bytes_concat(a: Seq<Seq<char>>, b: Seq<Seq<char>>)
    ensures
        all_bytes(a + b) == all_bytes(a) + all_bytes(b),
    decreases b.len(),
{
    if b.len() == 0 {
        assert(a + b =~= a);
        assert(all_bytes(a) + Seq::<u8>::empty() =~= all_bytes(a));
    } else {
        lemma_all_bytes_concat(a, b.drop_last());
        assert((a + b).drop_last() =~= a + b.drop_last());
        assert(all_bytes(a) + all_bytes(b.drop_last()) + encode_utf8(b.last())
            =~= all_bytes(a) + (all_bytes(b.drop_last()) + encode_utf8(b.last())));
    }
}

impl WorkspaceDiff {
    /// Whether nothing was added, modified or deleted.
    pub fn is_empty(&self) -> (b: bool)
        ensures
            b == (self.added@.len() == 0 && self.modified@.len() == 0 && self.deleted@.len() == 0),
    {
        self.added.len() == 0 && self.modified.len() == 0 && self.deleted.len() == 0
    }

    /// Every changed path once, in order.
    pub fn paths(&self) -> (r: Vec<String>)
        ensures
            texts(r@) == dedup_texts(sorted_texts(texts(self.added@) + texts(self.modified@) + texts(self.deleted@))),
    {
        let mut all = clone_strings(&self.added);
        let m = clone_strings(&self.modified);
        let d = clone_strings(&self.deleted);
        let ghost a0 = texts(all@);
        let mut i: usize = 0;
        while i < m.len()
            invariant
                i <= m@.len(),
                texts(all@) == a0 + texts(m@).subrange(0, i as int),
            decreases m@.len() - i,
        {
            let ghost before = texts(all@);
            all.push(owned(m[i].as_str()));
            assert(texts(all@) =~= before.push(m@[i as int]@));
            assert(texts(m@).subrange(0, i + 1) =~= texts(m@).subrange(0, i as int).push(m@[i as int]@));
            i += 1;
        }
        assert(texts(m@).subrange(0, i as int) =~= texts(m@));
        let ghost a1 = texts(all@);
        let mut j: usize = 0;
        while j < d.len()
            invariant
                j <= d@.len(),
                texts(all@) == a1 + texts(d@).subrange(0, j as int),
            decreases d@.len() - j,
        {
            let ghost before = texts(all@);
            all.push(owned(d[j].as_str()));
            assert(texts(all@) =~= before.push(d@[j as int]@));
            assert(texts(d@).subrange(0, j + 1) =~= texts(d@).subrange(0, j as int).push(d@[j as int]@));
            j += 1;
        }
        assert(texts(d@).subrange(0, j as int) =~= texts(d@));
        let sorted = sort_strings(all);
        dedup_strings(sorted)
    }

    /// A one-line summary (see `diff_summary`).
    pub fn summary(&self) -> (s: String)
        ensures
            s@ == diff_summary(texts(self.added@), texts(self.modified@), texts(self.deleted@)),
    {
        if self.is_empty() {
            return owned("no workspace changes");
        }
        let a = labelled_exec("added", &self.added);
        let m = labelled_exec("modified", &self.modified);
        let d = labelled_exec("deleted", &self.deleted);
        let mut parts = a;
        let ghost p0 = texts(parts@);
        let mut i: usize = 0;
        while i < m.len()
            invariant
                i <= m@.len(),
                texts(parts@) == p0 + texts(m@).subrange(0, i as int),
            decreases m@.len() - i,
        {
            let ghost before = texts(parts@);
            parts.push(owned(m[i].as_str()));
            assert(texts(parts@) =~= before.push(m@[i as int]@));
            assert(texts(m@).subrange(0, i + 1) =~= texts(m@).subrange(0, i as int).push(m@[i as int]@));
            i += 1;
        }
        assert(texts(m@).subrange(0, i as int) =~= texts(m@));
        let ghost p1 = texts(parts@);
        let mut j: usize = 0;
        while j < d.len()
            invariant
                j <= d@.len(),
                texts(parts@) == p1 + texts(d@).subrange(0, j as int),
            decreases d@.len() - j,
        {
            let ghost before = texts(parts@);
            parts.push(owned(d[j].as_str()));
            assert(texts(parts@) =~= before.push(d@[j as int]@));
            assert(texts(d@).subrange(0, j + 1) =~= texts(d@).subrange(0, j as int).push(d@[j as int]@));
            j += 1;
        }
        assert(texts(d@).subrange(0, j as int) =~= texts(d@));
        let mut s = String::new();
        push_joined(&mut s, &parts, "; ");
        assert(s@ =~= join(texts(parts@), "; "@));
        s
    }

    /// A digest of which paths changed, not of how (see `diff_checksum`).
    pub fn checksum(&self) -> (s: String)
        ensures
            s@ == diff_checksum(texts(self.added@), texts(self.modified@), texts(self.deleted@)),
    {
        let a = sort_strings(clone_strings(&self.added));
        let m = sort_strings(clone_strings(&self.modified));
        let d = sort_strings(clone_strings(&self.deleted));
        let h1 = fnv_texts(FNV_OFFSET, &a);
        let h2 = fnv_texts(h1, &m);
        let h3 = fnv_texts(h2, &d);
        proof {
            let sa = texts(a@);
            let sm = texts(m@);
            let sd = texts(d@);
            lemma_all_bytes_concat(sa, sm);
            lemma_all_bytes_concat(sa + sm, sd);
            lemma_fnv_concat(FNV_OFFSET, all_bytes(sa), all_bytes(sm));
            lemma_fnv_concat(FNV_OFFSET, all_bytes(sa + sm), all_bytes(sd));
        }
        hex16_text(h3)
    }
}


/// A file of a snapshot by its path and content.
pub open spec fn file_view(f: (String, Vec<u8>)) -> (Seq<char>, Seq<u8>) {
    (f.0@, f.1@)
}

/// A snapshot by its files' paths and contents.
pub open spec fn files_view(fs: Seq<(String, Vec<u8>)>) -> Seq<(Seq<char>, Seq<u8>)> {
    fs.map_values(|f: (String, Vec<u8>)| file_view(f))
}

/// The index of the first file at `path` (from `i`), or the length.
pub open spec fn file_index(fs: Seq<(Seq<char>, Seq<u8>)>, path: Seq<char>, i: int) -> int
    decreases fs.len() - i,
{
    if i < 0 || i >= fs.len() { fs.len() as int } else if fs[i].0 == path { i } else { file_index(fs, path, i + 1) }
}

/// The content of the file at `path`, if the snapshot has one.
pub open spec fn content_at(fs: Seq<(Seq<char>, Seq<u8>)>, path: Seq<char>) -> Option<Seq<u8>> {
    let k = file_index(fs, path, 0);
    if 0 <= k < fs.len() { Some(fs[k].1) } else { None }
}

/// The paths of `current` that the baseline lacks, in order.
pub open spec fn added_paths(base: Seq<(Seq<char>, Seq<u8>)>, cur: Seq<(Seq<char>, Seq<u8>)>) -> Seq<Seq<char>>
    decreases cur.len(),
{
    if cur.len() == 0 {
        Seq::empty()
    } else {
        let rest = added_paths(base, cur.drop_last());
        if content_at(base, cur.last().0) is None { rest.push(cur.last().0) } else { rest }
    }
}

/// The paths of `current` whose content differs from the baseline's, in order.
pub open spec fn modified_paths(base: Seq<(Seq<char>, Seq<u8>)>, cur: Seq<(Seq<char>, Seq<u8>)>) -> Seq<Seq<char>>
    decreases cur.len(),
{
    if cur.len() == 0 {
        Seq::empty()
    } else {
        let rest = modified_paths(base, cur.drop_last());
        match content_at(base, cur.last().0) {
            Some(b) => if b != cur.last().1 { rest.push(cur.last().0) } else { rest },
            None => rest,
        }
    }
}

/// The paths of the baseline that `current` lacks, in order.
pub open spec fn deleted_paths(base: Seq<(Seq<char>, Seq<u8>)>, cur: Seq<(Seq<char>, Seq<u8>)>) -> Seq<Seq<char>> {
    added_paths(cur, base)
}

/// A path with each `/` made the smallest character: comparing these keys
/// as texts orders paths component by component, as `Path` orders them.
pub open spec fn path_key(p: Seq<char>) -> Seq<char> {
    p.map_values(|c: char| if c == '/' { '\0' } else { c })
}

/// Files in strictly increasing path order (so each path once).
pub open spec fn path_sorted(fs: Seq<(Seq<char>, Seq<u8>)>) -> bool {
    forall|i: int, j: int| 0 <= i < j < fs.len() ==> text_lt(path_key(#[trigger] fs[i].0), path_key(#[trigger] fs[j].0))
}

fn path_key_of(p: &str) -> (k: Vec<char>)
    ensures
        k@ == path_key(p@),
{
    let v = chars_of(p);
    let mut k: Vec<char> = Vec::new();
    let mut i: usize = 0;
    while i < v.len()
        invariant
            i <= v@.len(),
            k@ == path_key(v@.subrange(0, i as int)),
        decreases v@.len() - i,
    {
        let c = if v[i] == '/' { '\0' } else { v[i] };
        k.push(c);
        assert(path_key(v@.subrange(0, i + 1)) =~= path_key(v@.subrange(0, i as int)).push(c));
        i += 1;
    }
    assert(v@.subrange(0, i as int) =~= v@);
    k
}

/// Whether files are in strictly increasing path order (see `path_sorted`),
/// as a snapshot must be.
pub fn snapshot_in_order(files: &Vec<(String, Vec<u8>)>) -> (b: bool)
    ensures
        b == path_sorted(files_view(files@)),
{
    let ghost fs = files_view(files@);
    if files.len() < 2 {
        return true;
    }
    let mut i: usize = 1;
    while i < files.len()
        invariant
            1 <= i <= files@.len(),
            fs == files_view(files@),
            forall|a: int, b: int| 0 <= a < b < i ==> text_lt(path_key(#[trigger] fs[a].0), path_key(#[trigger] fs[b].0)),
        decreases files@.len() - i,
    {
        let ka = path_key_of(files[i - 1].0.as_str());
        let kb = path_key_of(files[i].0.as_str());
        assert(fs[i - 1].0 == files@[i - 1].0@);
        assert(fs[i as int].0 == files@[i as int].0@);
        if !text_less(ka.as_slice(), kb.as_slice()) {
            return false;
        }
        proof {
            assert forall|a: int, b: int| 0 <= a < b < i + 1 implies text_lt(path_key(#[trigger] fs[a].0), path_key(#[trigger] fs[b].0)) by {
                if b == i && a < i - 1 {
                    lemma_text_lt_transitive(path_key(fs[a].0), path_key(fs[i - 1].0), path_key(fs[b].0));
                }
            }
        }
        i += 1;
    }
    true
}

fn copy_files(files: &Vec<(String, Vec<u8>)>) -> (r: Vec<(String, Vec<u8>)>)
    ensures
        files_view(r@) == files_view(files@),
{
    let mut fs: Vec<(String, Vec<u8>)> = Vec::new();
    let mut i: usize = 0;
    while i < files.len()
        invariant
            i <= files@.len(),
            files_view(fs@) == files_view(files@).subrange(0, i as int),
        decreases files@.len() - i,
    {
        let ghost before = files_view(fs@);
        let f = (owned(files[i].0.as_str()), copy_bytes(&files[i].1));
        fs.push(f);
        assert(files_view(fs@) =~= before.push(files_view(files@)[i as int]));
        assert(files_view(files@).subrange(0, i + 1) =~= files_view(files@).subrange(0, i as int).push(files_view(files@)[i as int]));
        i += 1;
    }
    assert(files_view(files@).subrange(0, i as int) =~= files_view(files@));
    fs
}

/// The workspace as it was when a turn began: its root, its files (path,
/// content) in path order, each path once, and the snapshot budget.
#[derive(Debug)]
pub struct WorkspaceTransaction {
    root: String,
    baseline: Vec<(String, Vec<u8>)>,
    max_bytes: usize,
}

impl WorkspaceTransaction {
    /// The files when the turn began, in path order.
    pub closed spec fn files(&self) -> Seq<(Seq<char>, Seq<u8>)> {
        files_view(self.baseline@)
    }

    /// The workspace root.
    pub closed spec fn root_text(&self) -> Seq<char> {
        self.root@
    }

    /// The snapshot budget in bytes.
    pub closed spec fn budget(&self) -> usize {
        self.max_bytes
    }

    #[verifier::type_invariant]
    spec fn files_in_order(&self) -> bool {
        path_sorted(files_view(self.baseline@))
    }

    /// An independent copy of this transaction.
    pub fn duplicate(&self) -> (t: WorkspaceTransaction)
        ensures
            t.files() == self.files(),
            t.root_text() == self.root_text(),
            t.budget() == self.budget(),
    {
        proof {
            use_type_invariant(self);
        }
        let fs = copy_files(&self.baseline);
        WorkspaceTransaction { root: owned(self.root.as_str()), baseline: fs, max_bytes: self.max_bytes }
    }
}

impl Clone for WorkspaceTransaction {
    fn clone(&self) -> Self {
        self.duplicate()
    }
}

fn find_file(fs: &Vec<(String, Vec<u8>)>, path: &str) -> (r: usize)
    ensures
        r == file_index(files_view(fs@), path@, 0),
{
    let mut i: usize = 0;
    let pv = chars_of(path);
    assert(pv@.subrange(0, pv@.len() as int) =~= pv@);
    while i < fs.len()
        invariant
            i <= fs@.len(),
            pv@ == path@,
            file_index(files_view(fs@), path@, i as int) == file_index(files_view(fs@), path@, 0),
        decreases fs@.len() - i,
    {
        let kv = chars_of(fs[i].0.as_str());
        assert(files_view(fs@)[i as int].0 == fs@[i as int].0@);
        if kv.len() == pv.len() && starts_with(kv.as_slice(), pv.as_slice()) {
            assert(kv@ =~= kv@.subrange(0, pv@.len() as int));
            return i;
        }
        proof {
            if fs@[i as int].0@ == path@ {
                assert(kv@.subrange(0, pv@.len() as int) =~= kv@);
            }
        }
        i += 1;
    }
    i
}

fn bytes_equal(a: &Vec<u8>, b: &Vec<u8>) -> (r: bool)
    ensures
        r == (a@ == b@),
{
    if a.len() != b.len() {
        return false;
    }
    let mut i: usize = 0;
    while i < a.len()
        invariant
            i <= a@.len() == b@.len(),
            forall|k: int| 0 <= k < i ==> a@[k] == b@[k],
        decreases a@.len() - i,
    {
        if a[i] != b[i] {
            return false;
        }
        i += 1;
    }
    assert(a@ =~= b@);
    true
}

fn copy_bytes(a: &Vec<u8>) -> (r: Vec<u8>)
    ensures
        r@ == a@,
{
    let mut r: Vec<u8> = Vec::new();
    let mut i: usize = 0;
    while i < a.len()
        invariant
            i <= a@.len(),
            r@ == a@.subrange(0, i as int),
        decreases a@.len() - i,
    {
        r.push(a[i]);
        i += 1;
    }
    assert(a@.subrange(0, i as int) =~= a@);
    r
}

/// The FNV-1a of every path's bytes followed by its content, file by file.
pub open spec fn snapshot_fold(h: u64, fs: Seq<(Seq<char>, Seq<u8>)>) -> u64
    decreases fs.len(),
{
    if fs.len() == 0 {
        h
    } else {
        fnv_fold(fnv_fold(snapshot_fold(h, fs.drop_last()), encode_utf8(fs.last().0)), fs.last().1)
    }
}

/// The lines of a text, each marked with `mark`, joined by newlines.
pub open spec fn marked_lines(lines: Seq<Seq<char>>, mark: char) -> Seq<char> {
    join(lines.map_values(|l: Seq<char>| seq![mark] + l), "\n"@)
}

/// The diff of a file that appeared: every line added in one hunk.
pub open spec fn added_file_diff(path: Seq<char>, text: Seq<char>) -> Seq<char> {
    "--- a/"@ + path + "\n+++ b/"@ + path + "\n"@ + "@@ -0,0 +1,"@ + dec(text_lines(text).len()) + " @@\n"@
        + marked_lines(text_lines(text), '+') + "\n"@
}

/// The diff of a file that disappeared: every line removed in one hunk.
pub open spec fn deleted_file_diff(path: Seq<char>, text: Seq<char>) -> Seq<char> {
    "--- a/"@ + path + "\n+++ b/"@ + path + "\n"@ + "@@ -1,"@ + dec(text_lines(text).len()) + " +0,0 @@\n"@
        + marked_lines(text_lines(text), '-') + "\n"@
}

fn push_marked_lines(out: &mut String, text: &str, mark: char) -> (n: usize)
    ensures
        n == text_lines(text@).len(),
        final(out)@ == old(out)@ + marked_lines(text_lines(text@), mark),
{
    let lines = split_lines(text);
    let mut marked: Vec<String> = Vec::new();
    let mut i: usize = 0;
    let ghost ls = text_lines(text@);
    while i < lines.len()
        invariant
            i <= lines@.len() == ls.len(),
            ls == text_lines(text@),
            forall|j: int| 0 <= j < lines@.len() ==> (#[trigger] lines@[j])@ == ls[j],
            texts(marked@) == ls.subrange(0, i as int).map_values(|l: Seq<char>| seq![mark] + l),
        decreases lines@.len() - i,
    {
        let mut m = String::new();
        crate::text::push_char(&mut m, mark);
        push_str(&mut m, lines[i].as_str());
        let ghost before = texts(marked@);
        let ghost mv = m@;
        marked.push(m);
        assert(texts(marked@) =~= before.push(mv));
        assert(ls.subrange(0, i + 1).map_values(|l: Seq<char>| seq![mark] + l)
            =~= ls.subrange(0, i as int).map_values(|l: Seq<char>| seq![mark] + l).push(seq![mark] + ls[i as int]));
        i += 1;
    }
    assert(ls.subrange(0, i as int) =~= ls);
    push_joined(out, &marked, "\n");
    lines.len()
}

impl WorkspaceTransaction {
    /// A transaction over a snapshot taken when the turn began.
    pub fn from_snapshot(root: String, baseline: Vec<(String, Vec<u8>)>, max_bytes: usize) -> (t: WorkspaceTransaction)
        requires
            path_sorted(files_view(baseline@)),
        ensures
            t.root_text() == root@,
            t.files() == files_view(baseline@),
            t.budget() == max_bytes,
    {
        WorkspaceTransaction { root, baseline, max_bytes }
    }

    /// What changed between the baseline and a snapshot taken now: the
    /// paths added, modified and deleted, each list sorted. The diffs of
    /// modified files are not filled in here: their hunks come from a patch
    /// builder outside this library (see `modified_file_diff`).
    pub fn diff_with(&self, current: &Vec<(String, Vec<u8>)>) -> (d: WorkspaceDiff)
        ensures
            texts(d.added@) == sorted_texts(added_paths(self.files(), files_view(current@))),
            texts(d.modified@) == sorted_texts(modified_paths(self.files(), files_view(current@))),
            texts(d.deleted@) == sorted_texts(deleted_paths(self.files(), files_view(current@))),
            d.diff_content@.len() == 0,
    {
        let ghost base = self.files();
        let ghost cur = files_view(current@);
        let mut added: Vec<String> = Vec::new();
        let mut modified: Vec<String> = Vec::new();
        let mut i: usize = 0;
        assert(cur.subrange(0, 0) =~= Seq::<(Seq<char>, Seq<u8>)>::empty());
        while i < current.len()
            invariant
                i <= current@.len(),
                base == self.files(),
                cur == files_view(current@),
                texts(added@) == added_paths(base, cur.subrange(0, i as int)),
                texts(modified@) == modified_paths(base, cur.subrange(0, i as int)),
            decreases current@.len() - i,
        {
            let path = current[i].0.as_str();
            let k = find_file(&self.baseline, path);
            assert(cur.subrange(0, i + 1).drop_last() =~= cur.subrange(0, i as int));
            assert(cur.subrange(0, i + 1).last() == (current@[i as int].0@, current@[i as int].1@));
            if k >= self.baseline.len() {
                let ghost before = texts(added@);
                added.push(owned(path));
                assert(texts(added@) =~= before.push(path@));
            } else {
                assert(base[k as int].1 == self.baseline@[k as int].1@);
                if !bytes_equal(&self.baseline[k].1, &current[i].1) {
                    let ghost before = texts(modified@);
                    modified.push(owned(path));
                    assert(texts(modified@) =~= before.push(path@));
                }
            }
            i += 1;
        }
        assert(cur.subrange(0, i as int) =~= cur);
        let mut deleted: Vec<String> = Vec::new();
        let mut j: usize = 0;
        assert(base.subrange(0, 0) =~= Seq::<(Seq<char>, Seq<u8>)>::empty());
        while j < self.baseline.len()
            invariant
                j <= self.baseline@.len(),
                base == self.files(),
                cur == files_view(current@),
                texts(deleted@) == added_paths(cur, base.subrange(0, j as int)),
            decreases self.baseline@.len() - j,
        {
            let path = self.baseline[j].0.as_str();
            let k = find_file(current, path);
            assert(base.subrange(0, j + 1).drop_last() =~= base.subrange(0, j as int));
            assert(base.subrange(0, j + 1).last() == (self.baseline@[j as int].0@, self.baseline@[j as int].1@));
            if k >= current.len() {
                let ghost before = texts(deleted@);
                deleted.push(owned(path));
                assert(texts(deleted@) =~= before.push(path@));
            }
            j += 1;
        }
        assert(base.subrange(0, j as int) =~= base);
        WorkspaceDiff {
            added: sort_strings(added),
            modified: sort_strings(modified),
            deleted: sort_strings(deleted),
            diff_content: Vec::new(),
        }
    }

    /// The content a path had when the turn began.
    pub fn baseline_content(&self, path: &str) -> (r: Option<Vec<u8>>)
        ensures
            match r {
                Some(b) => content_at(self.files(), path@) == Some(b@),
                None => content_at(self.files(), path@) is None,
            },
    {
        let k = find_file(&self.baseline, path);
        if k < self.baseline.len() {
            assert(self.files()[k as int].1 == self.baseline@[k as int].1@);
            Some(copy_bytes(&self.baseline[k].1))
        } else {
            None
        }
    }

    /// The FNV-1a digest (hexadecimal) of a path's content when the turn began.
    pub fn baseline_digest(&self, path: &str) -> (r: Option<String>)
        ensures
            match r {
                Some(d) => match content_at(self.files(), path@) {
                    Some(b) => d@ == hex16(fnv_fold(FNV_OFFSET, b)),
                    None => false,
                },
                None => content_at(self.files(), path@) is None,
            },
    {
        let k = find_file(&self.baseline, path);
        if k < self.baseline.len() {
            assert(self.files()[k as int].1 == self.baseline@[k as int].1@);
            Some(hex16_text(fnv1a_64(self.baseline[k].1.as_slice())))
        } else {
            None
        }
    }

    /// A digest of the whole baseline: FNV-1a over each file's path and then
    /// content, in path order (so it does not depend on the order in which
    /// the files were found), in hexadecimal.
    pub fn fingerprint(&self) -> (s: String)
        ensures
            s@ == hex16(snapshot_fold(FNV_OFFSET, self.files())),
    {
        let ghost base = self.files();
        let mut acc: u64 = FNV_OFFSET;
        let mut i: usize = 0;
        assert(base.subrange(0, 0) =~= Seq::<(Seq<char>, Seq<u8>)>::empty());
        while i < self.baseline.len()
            invariant
                i <= self.baseline@.len(),
                base == self.files(),
                acc == snapshot_fold(FNV_OFFSET, base.subrange(0, i as int)),
            decreases self.baseline@.len() - i,
        {
            assert(base.subrange(0, i + 1).drop_last() =~= base.subrange(0, i as int));
            assert(base.subrange(0, i + 1).last() == (self.baseline@[i as int].0@, self.baseline@[i as int].1@));
            acc = fnv_update(acc, self.baseline[i].0.as_str().as_bytes());
            acc = fnv_update(acc, self.baseline[i].1.as_slice());
            i += 1;
        }
        assert(base.subrange(0, i as int) =~= base);
        hex16_text(acc)
    }

    /// What undoing the turn does, given a snapshot taken now: the paths
    /// present now that the baseline lacks are removed (in the snapshot's
    /// order), then every baseline file is written back (in path order).
    pub fn rollback_plan(&self, current: &Vec<(String, Vec<u8>)>) -> (r: (Vec<String>, Vec<(String, Vec<u8>)>))
        ensures
            texts(r.0@) == added_paths(self.files(), files_view(current@)),
            files_view(r.1@) == self.files(),
    {
        let ghost base = self.files();
        let ghost cur = files_view(current@);
        let mut remove: Vec<String> = Vec::new();
        let mut i: usize = 0;
        assert(cur.subrange(0, 0) =~= Seq::<(Seq<char>, Seq<u8>)>::empty());
        while i < current.len()
            invariant
                i <= current@.len(),
                base == self.files(),
                cur == files_view(current@),
                texts(remove@) == added_paths(base, cur.subrange(0, i as int)),
            decreases current@.len() - i,
        {
            let path = current[i].0.as_str();
            let k = find_file(&self.baseline, path);
            assert(cur.subrange(0, i + 1).drop_last() =~= cur.subrange(0, i as int));
            assert(cur.subrange(0, i + 1).last() == (current@[i as int].0@, current@[i as int].1@));
            if k >= self.baseline.len() {
                let ghost before = texts(remove@);
                remove.push(owned(path));
                assert(texts(remove@) =~= before.push(path@));
            }
            i += 1;
        }
        assert(cur.subrange(0, i as int) =~= cur);
        (remove, copy_files(&self.baseline))
    }

    /// The diff of a file whose content changed: the `a/` and `b/` headers,
    /// then `patch`, the hunks between its old and new text.
    pub fn modified_file_diff(path: &str, patch: &str) -> (r: String)
        ensures
            r@ == "--- a/"@ + path@ + "\n+++ b/"@ + path@ + "\n"@ + patch@,
    {
        let mut s = owned("--- a/");
        push_str(&mut s, path);
        push_str(&mut s, "\n+++ b/");
        push_str(&mut s, path);
        push_str(&mut s, "\n");
        push_str(&mut s, patch);
        s
    }

    /// The diff of a file present now but not when the turn began (see
    /// `added_file_diff`).
    pub fn new_file_diff(path: &str, text: &str) -> (r: String)
        ensures
            r@ == added_file_diff(path@, text@),
    {
        let mut s = owned("--- a/");
        push_str(&mut s, path);
        push_str(&mut s, "\n+++ b/");
        push_str(&mut s, path);
        push_str(&mut s, "\n");
        push_str(&mut s, "@@ -0,0 +1,");
        let n = crate::ui::engine::widgets::split_lines(text).len();
        push_decimal(&mut s, n as u64);
        push_str(&mut s, " @@\n");
        let _ = push_marked_lines(&mut s, text, '+');
        push_str(&mut s, "\n");
        s
    }

    /// The diff of a file present when the turn began but not now (see
    /// `deleted_file_diff`).
    pub fn removed_file_diff(path: &str, text: &str) -> (r: String)
        ensures
            r@ == deleted_file_diff(path@, text@),
    {
        let mut s = owned("--- a/");
        push_str(&mut s, path);
        push_str(&mut s, "\n+++ b/");
        push_str(&mut s, path);
        push_str(&mut s, "\n");
        push_str(&mut s, "@@ -1,");
        let n = crate::ui::engine::widgets::split_lines(text).len();
        push_decimal(&mut s, n as u64);
        push_str(&mut s, " +0,0 @@\n");
        let _ = push_marked_lines(&mut s, text, '-');
        push_str(&mut s, "\n");
        s
    }
}


/// The directories a snapshot never enters.
pub open spec fn skipped_dir_names() -> Seq<Seq<char>> {
    seq![".git"@, "target"@, "node_modules"@, "memory_data"@]
}

/// Whether a snapshot never enters a directory of this name.
pub fn is_skipped_dir(name: &str) -> (b: bool)
    ensures
        b == skipped_dir_names().contains(name@),
{
    let v = chars_of(name);
    assert(v@.subrange(0, v@.len() as int) =~= v@);
    let r = range_eq_str(v.as_slice(), 0, v.len(), ".git") || range_eq_str(v.as_slice(), 0, v.len(), "target")
        || range_eq_str(v.as_slice(), 0, v.len(), "node_modules") || range_eq_str(v.as_slice(), 0, v.len(), "memory_data");
    proof {
        let ns = skipped_dir_names();
        if ns.contains(name@) {
            let i = choose|i: int| 0 <= i < ns.len() && ns[i] == name@;
            assert(i == 0 || i == 1 || i == 2 || i == 3);
        }
        if r {
            if name@ == ".git"@ { assert(ns[0] == name@); }
            if name@ == "target"@ { assert(ns[1] == name@); }
            if name@ == "node_modules"@ { assert(ns[2] == name@); }
            if name@ == "memory_data"@ { assert(ns[3] == name@); }
        }
    }
    r
}

/// The patterns of a `.gitignore`: its lines trimmed, without blank lines
/// and `#` comments.
pub open spec fn ignore_patterns(lines: Seq<Seq<char>>) -> Seq<Seq<char>>
    decreases lines.len(),
{
    if lines.len() == 0 {
        Seq::empty()
    } else {
        let rest = ignore_patterns(lines.drop_last());
        let t = trim_ws(lines.last());
        if t.len() == 0 || t[0] == '#' { rest } else { rest.push(t) }
    }
}

/// The last segment of a `/`-separated path.
pub open spec fn last_segment(p: Seq<char>) -> Seq<char> {
    p.subrange(index_after_last_slash(p), p.len() as int)
}

/// The index just after the last `/` of a path, or 0.
pub open spec fn index_after_last_slash(p: Seq<char>) -> int
    decreases p.len(),
{
    if p.len() == 0 {
        0
    } else if p.last() == '/' {
        p.len() as int
    } else {
        index_after_last_slash(p.drop_last())
    }
}

/// Whether one pattern ignores a path (separators made `/`): a pattern
/// ending in `/` only ignores directories; `*suffix` ignores paths or names
/// ending in `suffix`; any other pattern (outer `/` removed) ignores that
/// path, what lies under it, or entries of that name.
pub open spec fn pattern_ignores(pat: Seq<char>, norm: Seq<char>, is_dir: bool) -> bool {
    let pat_norm = trim_end_char(trim_start_char(pat, '/'), '/');
    let dir_only = pat.len() > 0 && pat.last() == '/';
    let name = last_segment(norm);
    if dir_only && !is_dir {
        false
    } else if pat.len() > 0 && pat[0] == '*' {
        let ext = pat.subrange(1, pat.len() as int);
        has_suffix(norm, ext) || has_suffix(name, ext)
    } else {
        norm == pat_norm || has_prefix(norm, pat_norm + "/"@) || name == pat_norm
    }
}

/// The ignore rules of a workspace's root `.gitignore`.
#[derive(Debug, Clone)]
pub struct GitIgnore {
    pub patterns: Vec<String>,
}

fn last_segment_start(v: &[char]) -> (k: usize)
    ensures
        k == index_after_last_slash(v@),
        k <= v@.len(),
{
    let mut e = v.len();
    assert(v@.subrange(0, e as int) =~= v@);
    while e > 0 && v[e - 1] != '/'
        invariant
            e <= v@.len(),
            index_after_last_slash(v@.subrange(0, e as int)) == index_after_last_slash(v@),
        decreases e,
    {
        assert(v@.subrange(0, e as int).drop_last() =~= v@.subrange(0, e - 1));
        e -= 1;
    }
    proof {
        if e > 0 {
            assert(v@.subrange(0, e as int).last() == v@[e - 1]);
        }
    }
    e
}

fn pattern_ignores_exec(pat: &[char], norm: &[char], is_dir: bool) -> (b: bool)
    ensures
        b == pattern_ignores(pat@, norm@, is_dir),
{
    proof { reveal_strlit("/"); }
    let n = pat.len();
    let mut a: usize = 0;
    assert(pat@.subrange(0, n as int) =~= pat@);
    while a < n && pat[a] == '/'
        invariant
            a <= n == pat@.len(),
            trim_start_char(pat@.subrange(a as int, n as int), '/') == trim_start_char(pat@, '/'),
        decreases n - a,
    {
        assert(pat@.subrange(a as int, n as int).subrange(1, (n - a) as int) =~= pat@.subrange(a + 1, n as int));
        a += 1;
    }
    let e = trim_end_char_bound(pat, a, n, '/');
    let pat_norm = sub_vec(pat, a, e);
    let dir_only = n > 0 && pat[n - 1] == '/';
    let k = last_segment_start(norm);
    let name = sub_vec(norm, k, norm.len());
    if dir_only && !is_dir {
        return false;
    }
    if n > 0 && pat[0] == '*' {
        let ext = sub_vec(pat, 1, n);
        return ends_with(norm, ext.as_slice()) || ends_with(name.as_slice(), ext.as_slice());
    }
    let same = norm.len() == pat_norm.len() && starts_with(norm, pat_norm.as_slice());
    let mut under = pat_norm.clone();
    under.push('/');
    assert(under@ =~= pat_norm@ + "/"@);
    let same_name = name.len() == pat_norm.len() && starts_with(name.as_slice(), pat_norm.as_slice());
    proof {
        if norm@ == pat_norm@ {
            assert(norm@.subrange(0, pat_norm@.len() as int) =~= norm@);
        }
        if norm@.len() == pat_norm@.len() && has_prefix(norm@, pat_norm@) {
            assert(norm@ =~= norm@.subrange(0, pat_norm@.len() as int));
        }
        if name@ == pat_norm@ {
            assert(name@.subrange(0, pat_norm@.len() as int) =~= name@);
        }
        if name@.len() == pat_norm@.len() && has_prefix(name@, pat_norm@) {
            assert(name@ =~= name@.subrange(0, pat_norm@.len() as int));
        }
    }
    same || starts_with(norm, under.as_slice()) || same_name
}

impl GitIgnore {
    /// The rules of a `.gitignore` text (see `ignore_patterns`).
    pub fn from_content(content: &str) -> (g: GitIgnore)
        ensures
            texts(g.patterns@) == ignore_patterns(text_lines(content@)),
    {
        let lines = split_lines(content);
        let ghost ls = text_lines(content@);
        let mut patterns: Vec<String> = Vec::new();
        let mut i: usize = 0;
        assert(ls.subrange(0, 0) =~= Seq::<Seq<char>>::empty());
        while i < lines.len()
            invariant
                i <= lines@.len() == ls.len(),
                ls == text_lines(content@),
                forall|j: int| 0 <= j < lines@.len() ==> (#[trigger] lines@[j])@ == ls[j],
                texts(patterns@) == ignore_patterns(ls.subrange(0, i as int)),
            decreases lines@.len() - i,
        {
            let t = trim_str(lines[i].as_str());
            let tv = chars_of(t.as_str());
            assert(ls.subrange(0, i + 1).drop_last() =~= ls.subrange(0, i as int));
            assert(ls.subrange(0, i + 1).last() == ls[i as int]);
            if tv.len() > 0 && tv[0] != '#' {
                let ghost before = texts(patterns@);
                let ghost tvv = t@;
                patterns.push(t);
                assert(texts(patterns@) =~= before.push(tvv));
            }
            i += 1;
        }
        assert(ls.subrange(0, i as int) =~= ls);
        GitIgnore { patterns }
    }

    /// Whether a path relative to the root is ignored: its separators are
    /// made `/` and some pattern ignores it (see `pattern_ignores`).
    pub fn is_ignored(&self, rel_path: &str, is_dir: bool) -> (b: bool)
        ensures
            b == exists|i: int| 0 <= i < self.patterns@.len()
                && pattern_ignores(#[trigger] self.patterns@[i]@, replace_char(rel_path@, '\\', '/'), is_dir),
    {
        let rv = chars_of(rel_path);
        let norm_s = replaced_range(rv.as_slice(), 0, rv.len(), '\\', '/');
        assert(rv@.subrange(0, rv@.len() as int) =~= rv@);
        let norm = chars_of(norm_s.as_str());
        let mut i: usize = 0;
        while i < self.patterns.len()
            invariant
                i <= self.patterns@.len(),
                norm@ == replace_char(rel_path@, '\\', '/'),
                forall|k: int| 0 <= k < i ==> !pattern_ignores(#[trigger] self.patterns@[k]@, norm@, is_dir),
            decreases self.patterns@.len() - i,
        {
            let pv = chars_of(self.patterns[i].as_str());
            if pattern_ignores_exec(pv.as_slice(), norm.as_slice(), is_dir) {
                return true;
            }
            i += 1;
        }
        false
    }

    /// Whether a snapshot leaves out a file: a `.gitignore` is always kept,
    /// any other file is left out when ignored.
    pub fn skips_file(&self, rel_path: &str) -> (b: bool)
        ensures
            b == (!(rel_path@ == ".gitignore"@ || has_suffix(rel_path@, "/.gitignore"@))
                && exists|i: int| 0 <= i < self.patterns@.len()
                    && pattern_ignores(#[trigger] self.patterns@[i]@, replace_char(rel_path@, '\\', '/'), false)),
    {
        let rv = chars_of(rel_path);
        assert(rv@.subrange(0, rv@.len() as int) =~= rv@);
        let gi = chars_of("/.gitignore");
        let is_gitignore = range_eq_str(rv.as_slice(), 0, rv.len(), ".gitignore") || ends_with(rv.as_slice(), gi.as_slice());
        !is_gitignore && self.is_ignored(rel_path, false)
    }
}

/// What a walked directory entry is.
#[derive(Clone, Copy, Debug, PartialEq, Eq, Structural)]
pub enum EntryKind {
    Symlink,
    Dir,
    File,
    Other,
}

/// What a snapshot does with a walked entry.
#[derive(Clone, Copy, Debug, PartialEq, Eq, Structural)]
pub enum EntryStep {
    Skip,
    Descend,
    Read,
}

impl GitIgnore {
    /// What a snapshot does with an entry of kind `kind`, named `name`, at
    /// `rel_path` below the root: links and anything but directories and
    /// files are skipped; a directory is entered unless its name is one never
    /// entered or it is ignored; a file is read unless it is left out (see
    /// `skips_file`).
    pub fn entry_step(&self, kind: EntryKind, name: &str, rel_path: &str) -> (r: EntryStep)
        ensures
            r == match kind {
                EntryKind::Dir => if skipped_dir_names().contains(name@)
                    || exists|i: int| 0 <= i < self.patterns@.len()
                        && pattern_ignores(#[trigger] self.patterns@[i]@, replace_char(rel_path@, '\\', '/'), true) {
                    EntryStep::Skip
                } else {
                    EntryStep::Descend
                },
                EntryKind::File => if !(rel_path@ == ".gitignore"@ || has_suffix(rel_path@, "/.gitignore"@))
                    && exists|i: int| 0 <= i < self.patterns@.len()
                        && pattern_ignores(#[trigger] self.patterns@[i]@, replace_char(rel_path@, '\\', '/'), false) {
                    EntryStep::Skip
                } else {
                    EntryStep::Read
                },
                _ => EntryStep::Skip,
            },
    {
        match kind {
            EntryKind::Dir => {
                if is_skipped_dir(name) || self.is_ignored(rel_path, true) {
                    EntryStep::Skip
                } else {
                    EntryStep::Descend
                }
            },
            EntryKind::File => {
                if self.skips_file(rel_path) {
                    EntryStep::Skip
                } else {
                    EntryStep::Read
                }
            },
            _ => EntryStep::Skip,
        }
    }
}

/// The bytes a snapshot holds after adding `len` more to `total`, saturating.
pub open spec fn snapshot_total(total: usize, len: usize) -> int {
    if total + len > usize::MAX { usize::MAX as int } else { total + len }
}

/// Counts a file of `len` bytes against a snapshot's budget of `max_bytes`:
/// the new total, or the error once the total goes past the budget.
pub fn charge_snapshot(total: usize, len: usize, max_bytes: usize) -> (r: Result<usize, String>)
    ensures
        match r {
            Ok(t) => t == snapshot_total(total, len) && t <= max_bytes,
            Err(e) => snapshot_total(total, len) > max_bytes
                && e@ == "workspace transaction snapshot exceeds "@ + dec(max_bytes as nat) + " bytes"@,
        },
{
    let t = total.saturating_add(len);
    if t > max_bytes {
        let mut e = owned("workspace transaction snapshot exceeds ");
        push_decimal(&mut e, max_bytes as u64);
        push_str(&mut e, " bytes");
        return Err(e);
    }
    Ok(t)
}

} // verus!
