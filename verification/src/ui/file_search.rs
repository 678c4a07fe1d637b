//! Fuzzy file search for the "open file" overlay: case-insensitive
//! subsequence matching, scored with bonuses for consecutive characters,
//! separators and word or camel-case boundaries.
use vstd::prelude::*;
use crate::text::{chars_of, utf8_len, utf8_prefix_len, lemma_utf8_prefix};
use crate::textops::{text_lt, text_less, lemma_text_lt_irreflexive, lemma_text_lt_transitive, lemma_text_lt_total};

verus! {

broadcast use vstd::seq_lib::group_to_multiset_ensures;

/// One fuzzy match against a workspace-relative path.
#[derive(Debug, Clone, PartialEq, Eq)]
pub struct FileMatch {
    pub path: String,
    pub score: i64,
    /// Character offsets into `path` matched by the query (ascending).
    pub indices: Vec<usize>,
}

/// A match as path, score and matched offsets.
pub type MatchView = (Seq<char>, int, Seq<usize>);

/// The view of a match.
pub open spec fn match_view(m: FileMatch) -> MatchView {
    (m.path@, m.score as int, m.indices@)
}

/// The views of a sequence of matches.
pub open spec fn matches_view(ms: Seq<FileMatch>) -> Seq<MatchView> {
    ms.map_values(|m: FileMatch| match_view(m))
}

/// Directories that the file walk never enters.
pub open spec fn ignored_dir(name: Seq<char>) -> bool {
    ||| name == ".git"@ ||| name == ".hg"@ ||| name == ".svn"@ ||| name == "node_modules"@
    ||| name == "target"@ ||| name == "dist"@ ||| name == "build"@ ||| name == ".venv"@
    ||| name == "venv"@ ||| name == ".idea"@ ||| name == ".vscode"@ ||| name == "vendor"@
    ||| name == "__pycache__"@ ||| name == ".pytest_cache"@ ||| name == ".mypy_cache"@
    ||| name == "memory_data"@
}

fn same_text(a: &Vec<char>, b: &str) -> (r: bool)
    ensures
        r == (a@ == b@),
{
    let bv = chars_of(b);
    if a.len() != bv.len() {
        return false;
    }
    let mut i: usize = 0;
    while i < a.len()
        invariant
            a@.len() == bv@.len(),
            bv@ == b@,
            i <= a@.len(),
            forall|k: int| 0 <= k < i ==> a@[k] == bv@[k],
        decreases a@.len() - i,
    {
        if a[i] != bv[i] {
            assert(a@[i as int] != bv@[i as int]);
            return false;
        }
        i += 1;
    }
    assert(a@ =~= bv@);
    true
}

/// Whether the file walk skips a directory of this name.
pub fn is_ignored_dir(name: &str) -> (r: bool)
    ensures
        r == ignored_dir(name@),
{
    let v = chars_of(name);
    same_text(&v, ".git") || same_text(&v, ".hg") || same_text(&v, ".svn") || same_text(&v, "node_modules")
        || same_text(&v, "target") || same_text(&v, "dist") || same_text(&v, "build") || same_text(&v, ".venv")
        || same_text(&v, "venv") || same_text(&v, ".idea") || same_text(&v, ".vscode") || same_text(&v, "vendor")
        || same_text(&v, "__pycache__") || same_text(&v, ".pytest_cache") || same_text(&v, ".mypy_cache")
        || same_text(&v, "memory_data")
}

/// ASCII letters lowered, every other scalar unchanged.
pub open spec fn ascii_lower(c: char) -> char {
    if 'A' <= c <= 'Z' { ((c as u32) + 32) as char } else { c }
}

/// A text with its ASCII letters lowered.
pub open spec fn lowered(s: Seq<char>) -> Seq<char> {
    s.map_values(|c: char| ascii_lower(c))
}

pub(crate) fn to_ascii_lower(c: char) -> (r: char)
    ensures
        r == ascii_lower(c),
{
    if 'A' <= c && c <= 'Z' {
        let b: u8 = (c as u32 + 32) as u8;
        b as char
    } else {
        c
    }
}

/// Whether a scalar has the Unicode `Uppercase` property.
pub uninterp spec fn has_uppercase_property(c: char) -> bool;

/// Whether a scalar has the Unicode `Lowercase` property.
pub uninterp spec fn has_lowercase_property(c: char) -> bool;

/// `char::is_uppercase`: whether `c` has the Unicode `Uppercase` property;
/// among ASCII scalars exactly `A` to `Z` have it.
#[verifier::external_body]
fn is_uppercase(c: char) -> (b: bool)
    ensures
        b == has_uppercase_property(c),
        (c as u32) < 128 ==> (b <==> 'A' <= c <= 'Z'),
{
    c.is_uppercase()
}

/// `char::is_lowercase`: whether `c` has the Unicode `Lowercase` property;
/// among ASCII scalars exactly `a` to `z` have it.
#[verifier::external_body]
fn is_lowercase(c: char) -> (b: bool)
    ensures
        b == has_lowercase_property(c),
        (c as u32) < 128 ==> (b <==> 'a' <= c <= 'z'),
{
    c.is_lowercase()
}

/// Separators after which a match counts as a word start.
pub open spec fn is_sep(c: char) -> bool {
    c == '/' || c == '-' || c == '_' || c == '.' || c == ' '
}

/// The score of matching at `hi`: 12 right after the previous match, 8 at
/// the start, 6 after a separator, 5 at a lower-to-upper case boundary, 1
/// elsewhere.
pub open spec fn match_bonus(h: Seq<char>, hi: int, prev: Option<int>) -> int {
    if prev == Some(if hi > 0 { hi - 1 } else { 0int }) {
        12
    } else if hi == 0 {
        8
    } else if is_sep(h[hi - 1]) {
        6
    } else if has_uppercase_property(h[hi]) && has_lowercase_property(h[hi - 1]) {
        5
    } else {
        1
    }
}

/// Left-to-right scan matching each character of `q` (already lowered) at
/// the first later position of `h` whose lowered scalar equals it.
pub open spec fn fuzzy_scan(q: Seq<char>, h: Seq<char>, hi: int, qi: int, prev: Option<int>, score: int, idx: Seq<usize>) -> Option<(int, Seq<usize>)>
    decreases h.len() - hi,
{
    if hi < 0 || hi >= h.len() || qi < 0 || qi >= q.len() {
        None
    } else if ascii_lower(h[hi]) != q[qi] {
        fuzzy_scan(q, h, hi + 1, qi, prev, score, idx)
    } else {
        let s2 = score + match_bonus(h, hi, prev);
        let i2 = idx.push(hi as usize);
        if qi + 1 == q.len() {
            Some((s2, i2))
        } else {
            fuzzy_scan(q, h, hi + 1, qi + 1, Some(hi), s2, i2)
        }
    }
}

/// The score and matched offsets of `query` in `h`, or `None` when the
/// query is not a case-insensitive subsequence.
pub open spec fn fuzzy(query: Seq<char>, h: Seq<char>) -> Option<(int, Seq<usize>)> {
    if query.len() == 0 {
        Some((0, Seq::empty()))
    } else {
        fuzzy_scan(lowered(query), h, 0, 0, None, 0, Seq::empty())
    }
}

/// Upper bound on query lengths, so that scores fit in an `i64`.
pub open spec fn max_query_len() -> int {
    0x0aaa_aaaa_aaaa_aaaa
}

/// The score and matched character offsets when every character of `query`
/// appears in `haystack` in order, ignoring ASCII case (see `fuzzy`).
pub fn fuzzy_match(query: &str, haystack: &str) -> (r: Option<(i64, Vec<usize>)>)
    requires
        query@.len() <= max_query_len(),
    ensures
        match r {
            None => fuzzy(query@, haystack@) is None,
            Some((s, v)) => fuzzy(query@, haystack@) == Some((s as int, v@)),
        },
{
    let qv = chars_of(query);
    if qv.len() == 0 {
        return Some((0, Vec::new()));
    }
    let mut q: Vec<char> = Vec::new();
    let mut k: usize = 0;
    while k < qv.len()
        invariant
            k <= qv@.len(),
            q@ == lowered(qv@).subrange(0, k as int),
        decreases qv@.len() - k,
    {
        q.push(to_ascii_lower(qv[k]));
        assert(q@ =~= lowered(qv@).subrange(0, k + 1));
        k += 1;
    }
    assert(q@ =~= lowered(query@));
    let chars = chars_of(haystack);
    let ghost goal = fuzzy(query@, haystack@);
    let mut qi: usize = 0;
    let mut score: i64 = 0;
    let mut indices: Vec<usize> = Vec::new();
    let mut prev: Option<usize> = None;
    let mut hi: usize = 0;
    while hi < chars.len()
        invariant
            chars@ == haystack@,
            q@.len() == query@.len(),
            q@.len() <= max_query_len(),
            qi < q@.len(),
            0 <= score <= 12 * qi,
            hi <= chars@.len(),
            goal == fuzzy_scan(q@, chars@, hi as int, qi as int,
                match prev { Some(p) => Some(p as int), None => None::<int> }, score as int, indices@),
            goal == fuzzy(query@, haystack@),
        decreases chars@.len() - hi,
    {
        let hc = chars[hi];
        let lc = to_ascii_lower(hc);
        if lc != q[qi] {
            hi += 1;
            continue;
        }
        let back = if hi > 0 { hi - 1 } else { 0 };
        let consecutive = match prev { Some(p) => p == back, None => false };
        let bonus: i64 = if consecutive {
            12
        } else if hi == 0 {
            8
        } else if {
            let c = chars[hi - 1];
            c == '/' || c == '-' || c == '_' || c == '.' || c == ' '
        } {
            6
        } else if is_uppercase(hc) && is_lowercase(chars[hi - 1]) {
            5
        } else {
            1
        };
        score = score + bonus;
        indices.push(hi);
        prev = Some(hi);
        if qi == q.len() - 1 {
            return Some((score, indices));
        }
        qi += 1;
        hi += 1;
    }
    None
}

/// Whether `a` ranks before `b`: higher score first, then shorter path in
/// bytes, then the path that sorts first.
pub open spec fn ranks_before(a: MatchView, b: MatchView) -> bool {
    ||| a.1 > b.1
    ||| (a.1 == b.1 && utf8_len(a.0) < utf8_len(b.0))
    ||| (a.1 == b.1 && utf8_len(a.0) == utf8_len(b.0) && text_lt(a.0, b.0))
}

/// No match ranks before an earlier one.
pub open spec fn ranked(s: Seq<MatchView>) -> bool {
    forall|i: int, j: int| 0 <= i < j < s.len() ==> !ranks_before(#[trigger] s[j], #[trigger] s[i])
}

/// The matches of `query` among `paths`, in the order of the paths.
pub open spec fn candidates(paths: Seq<Seq<char>>, query: Seq<char>) -> Seq<MatchView>
    decreases paths.len(),
{
    if paths.len() == 0 {
        Seq::empty()
    } else {
        let rest = candidates(paths.drop_last(), query);
        match fuzzy(query, paths.last()) {
            Some((s, idx)) => rest.push((paths.last(), s, idx)),
            None => rest,
        }
    }
}

/// `ranks_before` is a strict weak order: irreflexive, asymmetric and
/// negatively transitive.
pub proof fn lemma_ranks_before_order(x: MatchView, a: MatchView, b: MatchView)
    ensures
        !ranks_before(x, x),
        ranks_before(x, a) ==> !ranks_before(a, x),
        ranks_before(x, a) ==> ranks_before(x, b) || ranks_before(b, a),
{
    lemma_text_lt_irreflexive(x.0);
    if text_lt(x.0, a.0) && text_lt(a.0, x.0) {
        lemma_text_lt_transitive(x.0, a.0, x.0);
    }
    lemma_text_lt_total(x.0, b.0);
    lemma_text_lt_total(b.0, a.0);
    if text_lt(b.0, x.0) && text_lt(x.0, a.0) {
        lemma_text_lt_transitive(b.0, x.0, a.0);
    }
}


fn ranks_first(a: &FileMatch, b: &FileMatch) -> (r: bool)
    requires
        utf8_len(a.path@) <= usize::MAX,
        utf8_len(b.path@) <= usize::MAX,
    ensures
        r == ranks_before(match_view(*a), match_view(*b)),
{
    if a.score != b.score {
        return a.score > b.score;
    }
    let av = chars_of(a.path.as_str());
    let bv = chars_of(b.path.as_str());
    assert(av@.subrange(0, av@.len() as int) =~= av@);
    assert(bv@.subrange(0, bv@.len() as int) =~= bv@);
    let al = utf8_prefix_len(av.as_slice(), av.len());
    let bl = utf8_prefix_len(bv.as_slice(), bv.len());
    if al != bl {
        return al < bl;
    }
    text_less(av.as_slice(), bv.as_slice())
}

/// The paths that match `query`, best first (see `ranks_before`), at most
/// `limit` of them; an empty query matches every path with score 0 and
/// returns them all, whatever the limit.
pub fn search_files(paths: &[String], query: &str, limit: usize) -> (out: Vec<FileMatch>)
    requires
        query@.len() <= max_query_len(),
        forall|i: int| 0 <= i < paths@.len() ==> utf8_len((#[trigger] paths@[i])@) <= usize::MAX,
    ensures
        exists|full: Seq<MatchView>| {
            &&& full.to_multiset() == candidates(paths@.map_values(|p: String| p@), query@).to_multiset()
            &&& ranked(full)
            &&& matches_view(out@) == full.subrange(0, if query@.len() > 0 && limit < full.len() { limit as int } else { full.len() as int })
        },
{
    let ghost views = paths@.map_values(|p: String| p@);
    let mut sorted: Vec<FileMatch> = Vec::new();
    let mut k: usize = 0;
    while k < paths.len()
        invariant
            k <= paths@.len(),
            query@.len() <= max_query_len(),
            forall|i: int| 0 <= i < paths@.len() ==> utf8_len((#[trigger] paths@[i])@) <= usize::MAX,
            views == paths@.map_values(|p: String| p@),
            matches_view(sorted@).to_multiset() == candidates(views.subrange(0, k as int), query@).to_multiset(),
            ranked(matches_view(sorted@)),
            forall|i: int| 0 <= i < sorted@.len() ==> utf8_len(#[trigger] sorted@[i].path@) <= usize::MAX,
        decreases paths@.len() - k,
    {
        proof {
            assert(views.subrange(0, k + 1).drop_last() =~= views.subrange(0, k as int));
            assert(views.subrange(0, k + 1).last() == paths@[k as int]@);
        }
        match fuzzy_match(query, paths[k].as_str()) {
            Some((score, indices)) => {
                let m = FileMatch { path: paths[k].clone(), score, indices };
                let ghost mv = match_view(m);
                let ghost before = matches_view(sorted@);
                let mut p = sorted.len();
                while p > 0 && ranks_first(&m, &sorted[p - 1])
                    invariant
                        p <= sorted@.len(),
                        before == matches_view(sorted@),
                        mv == match_view(m),
                        utf8_len(m.path@) <= usize::MAX,
                        forall|i: int| 0 <= i < sorted@.len() ==> utf8_len(#[trigger] sorted@[i].path@) <= usize::MAX,
                        forall|i: int| p <= i < before.len() ==> ranks_before(mv, #[trigger] before[i]),
                    decreases p,
                {
                    p -= 1;
                }
                proof {
                    let after = before.insert(p as int, mv);
                    assert forall|i: int, j: int| 0 <= i < j < after.len() implies !ranks_before(#[trigger] after[j], #[trigger] after[i]) by {
                        if j == p {
                            if i < p - 1 {
                                lemma_ranks_before_order(mv, before[i], before[p - 1]);
                            }
                        } else if i == p {
                            lemma_ranks_before_order(mv, before[j - 1], mv);
                        } else {
                            let bi = if i < p { i } else { i - 1 };
                            let bj = if j < p { j } else { j - 1 };
                            assert(after[i] == before[bi] && after[j] == before[bj]);
                        }
                    }
                }
                sorted.insert(p, m);
                assert(matches_view(sorted@) =~= before.insert(p as int, mv));
            }
            None => {}
        }
        k += 1;
    }
    assert(views.subrange(0, k as int) =~= views);
    let ghost full = matches_view(sorted@);
    if query.unicode_len() > 0 {
        sorted.truncate(limit);
    }
    assert(matches_view(sorted@) =~= full.subrange(0, if query@.len() > 0 && limit < full.len() { limit as int } else { full.len() as int }));
    sorted
}


/// The segments from scalar `k` on, `start` being the byte offset where the
/// open segment begins and `in_match` whether it is matched: a segment
/// closes wherever the matched state changes.
pub open spec fn segments_from(s: Seq<char>, idx: Seq<usize>, k: int, start: int, in_match: bool) -> Seq<(usize, usize, bool)>
    decreases s.len() - k,
{
    if k >= s.len() || k < 0 {
        if utf8_len(s) > start { seq![(start as usize, utf8_len(s) as usize, in_match)] } else { Seq::empty() }
    } else {
        let m = idx.contains(k as usize);
        let b = utf8_len(s.subrange(0, k)) as int;
        if m != in_match {
            (if b > start { seq![(start as usize, b as usize, in_match)] } else { Seq::empty() })
                + segments_from(s, idx, k + 1, b, m)
        } else {
            segments_from(s, idx, k + 1, start, in_match)
        }
    }
}

/// The byte ranges of `path` split where it switches between matched and
/// unmatched scalars, each with whether it is matched.
pub open spec fn segments(s: Seq<char>, idx: Seq<usize>) -> Seq<(usize, usize, bool)> {
    if idx.len() == 0 {
        if s.len() > 0 { seq![(0usize, utf8_len(s) as usize, false)] } else { Seq::empty() }
    } else {
        segments_from(s, idx, 1, 0, idx.contains(0usize))
    }
}

fn contains_index(indices: &[usize], k: usize) -> (r: bool)
    ensures
        r == indices@.contains(k),
{
    let mut i: usize = 0;
    while i < indices.len()
        invariant
            i <= indices@.len(),
            forall|j: int| 0 <= j < i ==> indices@[j] != k,
        decreases indices@.len() - i,
    {
        if indices[i] == k {
            return true;
        }
        i += 1;
    }
    false
}

/// Splits `path` into byte ranges of matched and unmatched scalars for
/// styling, given the matched scalar offsets (see `segments`).
pub fn highlight_segments(path: &str, indices: &[usize]) -> (out: Vec<(usize, usize, bool)>)
    requires
        utf8_len(path@) <= usize::MAX,
    ensures
        out@ == segments(path@, indices@),
{
    let v = chars_of(path);
    assert(v@.subrange(0, v@.len() as int) =~= v@);
    let total = utf8_prefix_len(v.as_slice(), v.len());
    let mut out: Vec<(usize, usize, bool)> = Vec::new();
    if indices.len() == 0 {
        if v.len() > 0 {
            out.push((0, total, false));
            assert(out@ =~= seq![(0usize, total, false)]);
        }
        return out;
    }
    let mut start: usize = 0;
    let mut in_match = contains_index(indices, 0);
    let mut k: usize = 1;
    if v.len() == 0 {
        k = 0;
    }
    while k < v.len()
        invariant
            v@ == path@,
            total == utf8_len(v@),
            total <= usize::MAX,
            indices@.len() > 0,
            v@.len() == 0 ==> k == 0,
            v@.len() > 0 ==> 1 <= k <= v@.len(),
            start <= utf8_len(v@.subrange(0, k as int)),
            out@ + segments_from(v@, indices@, k as int, start as int, in_match) == segments(path@, indices@),
        decreases v@.len() - k,
    {
        proof { lemma_utf8_prefix(v@, k as int); }
        let b = utf8_prefix_len(v.as_slice(), k);
        let m = contains_index(indices, k);
        let ghost before = out@;
        let ghost rest = segments_from(v@, indices@, k + 1, if m != in_match { b as int } else { start as int },
            if m != in_match { m } else { in_match });
        if m != in_match {
            if b > start {
                out.push((start, b, in_match));
                assert(before.push((start, b, in_match)) + rest =~= before + (seq![(start, b, in_match)] + rest));
            } else {
                assert(before + (Seq::<(usize, usize, bool)>::empty() + rest) =~= before + rest);
            }
            start = b;
            in_match = m;
        }
        proof {
            crate::text::lemma_utf8_step(v@, k as int);
        }
        k += 1;
    }
    proof {
        if v@.len() == 0 {
            assert(segments(path@, indices@) == segments_from(v@, indices@, 1, 0, in_match));
        }
        assert(v@.subrange(0, k as int) =~= v@);
    }
    if total > start {
        let ghost before = out@;
        out.push((start, total, in_match));
        assert(out@ =~= before + seq![(start, total, in_match)]);
    } else {
        assert(out@ + Seq::<(usize, usize, bool)>::empty() =~= out@);
    }
    out
}

/// `r` places each character of `q` on a later scalar of `h` whose ASCII
/// lowering equals it.
pub open spec fn embeds(q: Seq<char>, h: Seq<char>, r: Seq<usize>) -> bool {
    &&& r.len() == q.len()
    &&& forall|k: int| 0 <= k < r.len() ==> (#[trigger] r[k]) < h.len() && ascii_lower(h[r[k] as int]) == q[k]
    &&& forall|k: int, l: int| 0 <= k < l < r.len() ==> #[trigger] r[k] < #[trigger] r[l]
}

proof fn lemma_scan_sound(q: Seq<char>, h: Seq<char>, hi: int, qi: int, prev: Option<int>, score: int, idx: Seq<usize>)
    requires
        0 <= hi,
        0 <= qi,
        idx.len() == qi,
        forall|k: int| 0 <= k < idx.len() ==> (#[trigger] idx[k]) < hi && ascii_lower(h[idx[k] as int]) == q[k],
        forall|k: int, l: int| 0 <= k < l < idx.len() ==> #[trigger] idx[k] < #[trigger] idx[l],
        hi <= h.len() <= usize::MAX,
        fuzzy_scan(q, h, hi, qi, prev, score, idx) is Some,
    ensures
        embeds(q, h, (fuzzy_scan(q, h, hi, qi, prev, score, idx)->0).1),
    decreases h.len() - hi,
{
    if hi < h.len() && qi < q.len() {
        if ascii_lower(h[hi]) != q[qi] {
            lemma_scan_sound(q, h, hi + 1, qi, prev, score, idx);
        } else {
            let i2 = idx.push(hi as usize);
            if qi + 1 != q.len() {
                lemma_scan_sound(q, h, hi + 1, qi + 1, Some(hi), score + match_bonus(h, hi, prev), i2);
            }
        }
    }
}

proof fn lemma_scan_complete(q: Seq<char>, h: Seq<char>, hi: int, qi: int, prev: Option<int>, score: int, idx: Seq<usize>, r: Seq<usize>)
    requires
        0 <= hi,
        0 <= qi < q.len(),
        r.len() == q.len() - qi,
        forall|k: int| 0 <= k < r.len() ==> hi <= #[trigger] r[k] < h.len() && ascii_lower(h[r[k] as int]) == q[qi + k],
        forall|k: int, l: int| 0 <= k < l < r.len() ==> #[trigger] r[k] < #[trigger] r[l],
    ensures
        fuzzy_scan(q, h, hi, qi, prev, score, idx) is Some,
    decreases h.len() - hi,
{
    assert(hi <= r[0]);
    if ascii_lower(h[hi]) != q[qi] {
        assert(r[0] != hi);
        assert forall|k: int| 0 <= k < r.len() implies hi + 1 <= #[trigger] r[k] by {
            if k > 0 {
                assert(r[0] < r[k]);
            }
        }
        lemma_scan_complete(q, h, hi + 1, qi, prev, score, idx, r);
    } else if qi + 1 < q.len() {
        let r2 = r.drop_first();
        assert forall|k: int| 0 <= k < r2.len() implies hi + 1 <= #[trigger] r2[k] < h.len()
            && ascii_lower(h[r2[k] as int]) == q[qi + 1 + k] by {
            assert(r2[k] == r[k + 1]);
            assert(r[0] < r[k + 1]);
        }
        assert forall|k: int, l: int| 0 <= k < l < r2.len() implies #[trigger] r2[k] < #[trigger] r2[l] by {
            assert(r2[k] == r[k + 1] && r2[l] == r[l + 1]);
        }
        lemma_scan_complete(q, h, hi + 1, qi + 1, Some(hi), score + match_bonus(h, hi, prev),
            idx.push(hi as usize), r2);
    }
}

/// `fuzzy` finds a match exactly when the lowered query can be placed on
/// increasing positions of the text, and the offsets it returns are such a
/// placement.
pub proof fn lemma_fuzzy_subsequence(query: Seq<char>, h: Seq<char>, r: Seq<usize>)
    requires
        h.len() <= usize::MAX,
    ensures
        fuzzy(query, h) is Some ==> embeds(lowered(query), h, (fuzzy(query, h)->0).1),
        embeds(lowered(query), h, r) ==> fuzzy(query, h) is Some,
{
    if query.len() > 0 {
        if fuzzy(query, h) is Some {
            lemma_scan_sound(lowered(query), h, 0, 0, None, 0, Seq::empty());
        }
        if embeds(lowered(query), h, r) {
            assert forall|k: int| 0 <= k < r.len() implies 0 <= #[trigger] r[k] < h.len()
                && ascii_lower(h[r[k] as int]) == lowered(query)[0 + k] by {}
            lemma_scan_complete(lowered(query), h, 0, 0, None, 0, Seq::empty(), r);
        }
    } else {
        assert(embeds(lowered(query), h, Seq::<usize>::empty()));
    }
}

} // verus!
