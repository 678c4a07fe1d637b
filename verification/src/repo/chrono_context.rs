//! Markdown notes as context: YAML frontmatter, Obsidian wikilinks,
//! callouts and agent guidelines, and a curated context pack.
use vstd::prelude::*;
use crate::text::{chars_of, owned, push_str, push_char, string_of, has_prefix, is_ws, is_whitespace};
use crate::textops::{trim_ws, trim_start_ws, trim_bounds, find_seq, find_from, lemma_find_seq, index_of, index_of_char,
    lemma_index_of, pieces, split_bounds, to_lowercase, unicode_lowercase, sub_vec, starts_with_str, range_eq_str};
use crate::repo::context::{texts, join, push_joined, trim_char, trim_char_bounds};
use crate::repo::contract::ot;
use crate::ui::engine::widgets::{split_lines, text_lines};
use crate::repo::spec::{trim_start_index, split_words};
use crate::textops::{replace_char, replaced_range, contains_seq, contains_str};
use crate::repo::contract::words_from;
use crate::textops::before_char;
use crate::text::{utf8_width, utf8_len, lemma_utf8_step, char_len_utf8, push_decimal, dec};
use vstd::utf8::{encode_utf8, encode_scalar};
use vstd::string::StringSliceAdditionalSpecFns;
use vstd::string::StrSliceExecFns;

verus! {

/// Metadata of a note's frontmatter.
#[derive(Debug, Clone, Default, PartialEq, Eq)]
pub struct Frontmatter {
    pub title: Option<String>,
    pub created: Option<String>,
    pub updated: Option<String>,
    pub doc_type: Option<String>,
    pub status: Option<String>,
    pub tags: Vec<String>,
    /// Other keys with their values, each key once, in first-seen order.
    pub extra: Vec<(String, String)>,
}

/// A frontmatter as its fields.
pub struct FmView {
    pub title: Option<Seq<char>>,
    pub created: Option<Seq<char>>,
    pub updated: Option<Seq<char>>,
    pub doc_type: Option<Seq<char>>,
    pub status: Option<Seq<char>>,
    pub tags: Seq<Seq<char>>,
    pub extra: Seq<(Seq<char>, Seq<char>)>,
}

/// The view of a frontmatter.
pub open spec fn fm_view(f: Frontmatter) -> FmView {
    FmView {
        title: ot(f.title),
        created: ot(f.created),
        updated: ot(f.updated),
        doc_type: ot(f.doc_type),
        status: ot(f.status),
        tags: texts(f.tags@),
        extra: f.extra@.map_values(|e: (String, String)| (e.0@, e.1@)),
    }
}

/// An empty frontmatter.
pub open spec fn empty_fm() -> FmView {
    FmView { title: None, created: None, updated: None, doc_type: None, status: None, tags: Seq::empty(), extra: Seq::empty() }
}

/// A text without one leading line break (`\r\n` or `\n`).
pub open spec fn strip_newline(s: Seq<char>) -> Seq<char> {
    if has_prefix(s, "\r\n"@) {
        s.subrange(2, s.len() as int)
    } else if has_prefix(s, "\n"@) {
        s.subrange(1, s.len() as int)
    } else {
        s
    }
}

/// A text without leading `\r` and `\n`.
pub open spec fn trim_start_newlines(s: Seq<char>) -> Seq<char>
    decreases s.len(),
{
    if s.len() > 0 && (s[0] == '\r' || s[0] == '\n') { trim_start_newlines(s.drop_first()) } else { s }
}

/// A text without leading `c`.
pub open spec fn trim_start_of(s: Seq<char>, c: char) -> Seq<char>
    decreases s.len(),
{
    if s.len() > 0 && s[0] == c { trim_start_of(s.drop_first(), c) } else { s }
}

/// A value: trimmed, then stripped of double and then single quotes.
pub open spec fn unquoted(v: Seq<char>) -> Seq<char> {
    trim_char(trim_char(trim_ws(v), '"'), '\'')
}

/// The first index from `i` on whose key is `k` (the length if none).
pub open spec fn key_pos(extra: Seq<(Seq<char>, Seq<char>)>, k: Seq<char>, i: int) -> int
    decreases extra.len() - i,
{
    if i < 0 || i >= extra.len() { extra.len() as int } else if extra[i].0 == k { i } else { key_pos(extra, k, i + 1) }
}

/// The extra entries with `k` set to `v`: replaced where present, else
/// added last.
pub open spec fn extra_insert(extra: Seq<(Seq<char>, Seq<char>)>, k: Seq<char>, v: Seq<char>) -> Seq<(Seq<char>, Seq<char>)> {
    let p = key_pos(extra, k, 0);
    if p < extra.len() { extra.update(p, (k, v)) } else { extra.push((k, v)) }
}

/// The tags of an inline list's inner text: its comma pieces, unquoted,
/// when not empty.
pub open spec fn inline_tags(pieces: Seq<Seq<char>>) -> Seq<Seq<char>>
    decreases pieces.len(),
{
    if pieces.len() == 0 {
        Seq::empty()
    } else {
        let rest = inline_tags(pieces.drop_last());
        let t = unquoted(pieces.last());
        if t.len() > 0 { rest.push(t) } else { rest }
    }
}

/// The state after one frontmatter line: the frontmatter so far and
/// whether a block list of tags is open.
pub open spec fn fm_line(st: (FmView, bool), line: Seq<char>) -> (FmView, bool) {
    let (fm, in_tags) = st;
    let t = trim_ws(line);
    if t.len() == 0 || t[0] == '#' {
        st
    } else if in_tags && t[0] == '-' {
        let tag = trim_ws(trim_start_of(t, '-'));
        (if tag.len() > 0 { FmView { tags: fm.tags.push(tag), ..fm } } else { fm }, true)
    } else {
        let still = in_tags && line.len() > 0 && (line[0] == ' ' || line[0] == '\t');
        let c = index_of(t, ':', 0);
        if c < t.len() {
            let key = unicode_lowercase(trim_ws(t.subrange(0, c)));
            let val = unquoted(t.subrange(c + 1, t.len() as int));
            if key == "title"@ {
                (FmView { title: Some(val), ..fm }, still)
            } else if key == "created"@ {
                (FmView { created: Some(val), ..fm }, still)
            } else if key == "updated"@ {
                (FmView { updated: Some(val), ..fm }, still)
            } else if key == "type"@ {
                (FmView { doc_type: Some(val), ..fm }, still)
            } else if key == "status"@ {
                (FmView { status: Some(val), ..fm }, still)
            } else if key == "tags"@ {
                if val.len() > 0 && val[0] == '[' && val.last() == ']' {
                    (FmView { tags: fm.tags + inline_tags(pieces(val.subrange(1, val.len() - 1), ',')), ..fm }, still)
                } else {
                    (fm, true)
                }
            } else {
                (FmView { extra: extra_insert(fm.extra, key, val), ..fm }, still)
            }
        } else {
            (fm, still)
        }
    }
}

/// The frontmatter of the first `n` lines.
pub open spec fn fm_lines(lines: Seq<Seq<char>>, n: int) -> (FmView, bool)
    decreases n,
{
    if n <= 0 || n > lines.len() { (empty_fm(), false) } else { fm_line(fm_lines(lines, n - 1), lines[n - 1]) }
}

/// No key occurs twice among the extra entries.
pub open spec fn keys_distinct(extra: Seq<(Seq<char>, Seq<char>)>) -> bool {
    forall|i: int, j: int| 0 <= i < j < extra.len() ==> extra[i].0 != extra[j].0
}

proof fn lemma_key_pos(extra: Seq<(Seq<char>, Seq<char>)>, k: Seq<char>, i: int)
    requires
        0 <= i <= extra.len(),
    ensures
        i <= key_pos(extra, k, i) <= extra.len(),
        key_pos(extra, k, i) < extra.len() ==> extra[key_pos(extra, k, i)].0 == k,
        forall|j: int| i <= j < key_pos(extra, k, i) ==> extra[j].0 != k,
    decreases extra.len() - i,
{
    if i < extra.len() && extra[i].0 != k {
        lemma_key_pos(extra, k, i + 1);
    }
}

/// Setting an extra key keeps every key once.
pub proof fn lemma_extra_insert_distinct(extra: Seq<(Seq<char>, Seq<char>)>, k: Seq<char>, v: Seq<char>)
    requires
        keys_distinct(extra),
    ensures
        keys_distinct(extra_insert(extra, k, v)),
{
    lemma_key_pos(extra, k, 0);
    let r = extra_insert(extra, k, v);
    let p = key_pos(extra, k, 0);
    assert forall|i: int, j: int| 0 <= i < j < r.len() implies r[i].0 != r[j].0 by {
        if p < extra.len() {
            if i != p && j != p {
                assert(r[i] == extra[i] && r[j] == extra[j]);
            } else if i == p {
                assert(r[j] == extra[j]);
            } else {
                assert(r[i] == extra[i]);
            }
        } else {
            if j == extra.len() {
                assert(r[i] == extra[i]);
            } else {
                assert(r[i] == extra[i] && r[j] == extra[j]);
            }
        }
    }
}

/// Reading frontmatter lines keeps every extra key once.
pub proof fn lemma_fm_lines_distinct(lines: Seq<Seq<char>>, n: int)
    ensures
        keys_distinct(fm_lines(lines, n).0.extra),
    decreases n,
{
    if n <= 0 || n > lines.len() {
        assert(empty_fm().extra.len() == 0);
    } else {
        lemma_fm_lines_distinct(lines, n - 1);
        let fm = fm_lines(lines, n - 1).0;
        let t = trim_ws(lines[n - 1]);
        let c = index_of(t, ':', 0);
        if c < t.len() {
            lemma_extra_insert_distinct(fm.extra, unicode_lowercase(trim_ws(t.subrange(0, c))),
                unquoted(t.subrange(c + 1, t.len() as int)));
        }
    }
}

/// Where the frontmatter block and the body start, when a note opens with
/// a `---` block that closes: the block's text and the body.
pub open spec fn fm_split(content: Seq<char>) -> Option<(Seq<char>, Seq<char>)> {
    let t = trim_start_ws(content);
    if !has_prefix(t, "---"@) {
        None
    } else {
        let rest = strip_newline(t.subrange(3, t.len() as int));
        match find_seq(rest, "\r\n---"@, 0) {
            Some(e) => Some((rest.subrange(0, e), trim_start_newlines(strip_newline(rest.subrange(e + 5, rest.len() as int))))),
            None => match find_seq(rest, "\n---"@, 0) {
                Some(e) => Some((rest.subrange(0, e), trim_start_newlines(strip_newline(rest.subrange(e + 4, rest.len() as int))))),
                None => None,
            },
        }
    }
}

/// `v[from..to]` unquoted (see `unquoted`).
fn unquoted_range(v: &[char], from: usize, to: usize) -> (r: String)
    requires
        from <= to <= v@.len(),
    ensures
        r@ == unquoted(v@.subrange(from as int, to as int)),
{
    let (a, b) = trim_bounds(v, from, to);
    let (a2, b2) = trim_char_bounds(v, a, b, '"');
    let (a3, b3) = trim_char_bounds(v, a2, b2, '\'');
    string_of(v, a3, b3)
}

fn extra_set(extra: &mut Vec<(String, String)>, k: String, v: String)
    ensures
        final(extra)@.map_values(|e: (String, String)| (e.0@, e.1@))
            == extra_insert(old(extra)@.map_values(|e: (String, String)| (e.0@, e.1@)), k@, v@),
{
    let ghost ev = extra@.map_values(|e: (String, String)| (e.0@, e.1@));
    let mut i: usize = 0;
    while i < extra.len()
        invariant
            i <= extra@.len(),
            ev == extra@.map_values(|e: (String, String)| (e.0@, e.1@)),
            ev == old(extra)@.map_values(|e: (String, String)| (e.0@, e.1@)),
            key_pos(ev, k@, i as int) == key_pos(ev, k@, 0),
        decreases extra@.len() - i,
    {
        assert(ev[i as int] == (extra@[i as int].0@, extra@[i as int].1@));
        if extra[i].0 == k {
            let ghost kv = k@;
            let ghost vv = v@;
            extra.set(i, (k, v));
            assert(extra@.map_values(|e: (String, String)| (e.0@, e.1@)) =~= ev.update(i as int, (kv, vv)));
            return;
        }
        i += 1;
    }
    let ghost kv = k@;
    let ghost vv = v@;
    extra.push((k, v));
    assert(extra@.map_values(|e: (String, String)| (e.0@, e.1@)) =~= ev.push((kv, vv)));
}

fn text_is(v: &[char], lit: &str) -> (b: bool)
    ensures
        b == (v@ == lit@),
{
    let n = v.len();
    assert(v@.subrange(0, n as int) =~= v@);
    range_eq_str(v, 0, n, lit)
}

/// Applies one frontmatter line (see `fm_line`).
fn fm_apply_line(fm: &mut Frontmatter, in_tags: &mut bool, line: &str)
    ensures
        (fm_view(*final(fm)), *final(in_tags)) == fm_line((fm_view(*old(fm)), *old(in_tags)), line@),
{
    proof {
        reveal_strlit("[");
    }
    let lv = chars_of(line);
    let (ta, tb) = trim_bounds(lv.as_slice(), 0, lv.len());
    assert(lv@.subrange(0, lv@.len() as int) =~= lv@);
    let t = sub_vec(lv.as_slice(), ta, tb);
    if t.len() == 0 || t[0] == '#' {
        return;
    }
    if *in_tags && t[0] == '-' {
        let mut k: usize = 0;
        assert(t@.subrange(0, t@.len() as int) =~= t@);
        while k < t.len() && t[k] == '-'
            invariant
                k <= t@.len(),
                trim_start_of(t@.subrange(k as int, t@.len() as int), '-') == trim_start_of(t@, '-'),
            decreases t@.len() - k,
        {
            assert(t@.subrange(k as int, t@.len() as int).drop_first() =~= t@.subrange(k + 1, t@.len() as int));
            k += 1;
        }
        let (a, b) = trim_bounds(t.as_slice(), k, t.len());
        if b > a {
            let ghost before = texts(fm.tags@);
            let tag = string_of(t.as_slice(), a, b);
            fm.tags.push(tag);
            assert(texts(fm.tags@) =~= before.push(trim_ws(trim_start_of(t@, '-'))));
        }
        return;
    }
    let still = *in_tags && lv.len() > 0 && (lv[0] == ' ' || lv[0] == '\t');
    *in_tags = still;
    fm_apply_pair(fm, in_tags, &t);
}

/// Applies the `key: value` part of a trimmed frontmatter line.
fn fm_apply_pair(fm: &mut Frontmatter, in_tags: &mut bool, t: &Vec<char>)
    requires
        t@.len() > 0,
    ensures
        ({
            let fm0 = fm_view(*old(fm));
            let c = index_of(t@, ':', 0);
            if c < t@.len() {
                let key = unicode_lowercase(trim_ws(t@.subrange(0, c)));
                let val = unquoted(t@.subrange(c + 1, t@.len() as int));
                if key == "title"@ {
                    fm_view(*final(fm)) == FmView { title: Some(val), ..fm0 } && *final(in_tags) == *old(in_tags)
                } else if key == "created"@ {
                    fm_view(*final(fm)) == FmView { created: Some(val), ..fm0 } && *final(in_tags) == *old(in_tags)
                } else if key == "updated"@ {
                    fm_view(*final(fm)) == FmView { updated: Some(val), ..fm0 } && *final(in_tags) == *old(in_tags)
                } else if key == "type"@ {
                    fm_view(*final(fm)) == FmView { doc_type: Some(val), ..fm0 } && *final(in_tags) == *old(in_tags)
                } else if key == "status"@ {
                    fm_view(*final(fm)) == FmView { status: Some(val), ..fm0 } && *final(in_tags) == *old(in_tags)
                } else if key == "tags"@ {
                    if val.len() > 0 && val[0] == '[' && val.last() == ']' {
                        fm_view(*final(fm)) == FmView { tags: fm0.tags + inline_tags(pieces(val.subrange(1, val.len() - 1), ',')), ..fm0 }
                            && *final(in_tags) == *old(in_tags)
                    } else {
                        fm_view(*final(fm)) == fm0 && *final(in_tags)
                    }
                } else {
                    fm_view(*final(fm)) == FmView { extra: extra_insert(fm0.extra, key, val), ..fm0 } && *final(in_tags) == *old(in_tags)
                }
            } else {
                fm_view(*final(fm)) == fm0 && *final(in_tags) == *old(in_tags)
            }
        }),
{
    proof {
        reveal_strlit("[");
    }
    let c = index_of_char(t.as_slice(), ':', 0);
    proof { lemma_index_of(t@, ':', 0); }
    if c < t.len() {
        let (ka, kb) = trim_bounds(t.as_slice(), 0, c);
        let key = to_lowercase(string_of(t.as_slice(), ka, kb).as_str());
        let kv = chars_of(key.as_str());
        let val = unquoted_range(t.as_slice(), c + 1, t.len());
        if text_is(kv.as_slice(), "title") {
            fm.title = Some(val);
        } else if text_is(kv.as_slice(), "created") {
            fm.created = Some(val);
        } else if text_is(kv.as_slice(), "updated") {
            fm.updated = Some(val);
        } else if text_is(kv.as_slice(), "type") {
            fm.doc_type = Some(val);
        } else if text_is(kv.as_slice(), "status") {
            fm.status = Some(val);
        } else if text_is(kv.as_slice(), "tags") {
            let vv = chars_of(val.as_str());
            let n = vv.len();
            if n > 0 && vv[0] == '[' && vv[n - 1] == ']' {
                let inner = sub_vec(vv.as_slice(), 1, n - 1);
                let bounds = split_bounds(inner.as_slice(), ',', 0);
                let ghost ps = pieces(inner@.subrange(0, inner@.len() as int), ',');
                assert(inner@.subrange(0, inner@.len() as int) =~= inner@);
                let ghost before = texts(fm.tags@);
                let mut j: usize = 0;
                assert(inline_tags(ps.subrange(0, 0)) =~= Seq::<Seq<char>>::empty());
                assert(before + Seq::<Seq<char>>::empty() =~= before);
                while j < bounds.len()
                    invariant
                        j <= bounds@.len(),
                        bounds@.len() == ps.len(),
                        forall|x: int| 0 <= x < bounds@.len() ==> {
                            &&& (#[trigger] bounds@[x]).0 <= bounds@[x].1 <= inner@.len()
                            &&& inner@.subrange(bounds@[x].0 as int, bounds@[x].1 as int) == ps[x]
                        },
                        texts(fm.tags@) == before + inline_tags(ps.subrange(0, j as int)),
                        fm_view(*fm) == (FmView { tags: texts(fm.tags@), ..fm_view(*old(fm)) }),
                        before == texts(old(fm).tags@),
                        *in_tags == *old(in_tags),
                    decreases bounds@.len() - j,
                {
                    let (pa, pb) = bounds[j];
                    let tv = unquoted_range(inner.as_slice(), pa, pb);
                    let ghost sub = ps.subrange(0, j + 1);
                    assert(sub.drop_last() =~= ps.subrange(0, j as int));
                    assert(sub.last() == ps[j as int]);
                    if tv.as_str().unicode_len() > 0 {
                        let ghost b2 = texts(fm.tags@);
                        fm.tags.push(tv);
                        assert(texts(fm.tags@) =~= b2.push(unquoted(ps[j as int])));
                    }
                    j += 1;
                }
                assert(ps.subrange(0, j as int) =~= ps);
            } else {
                *in_tags = true;
            }
        } else {
            let ghost before = fm.extra@.map_values(|e: (String, String)| (e.0@, e.1@));
            extra_set(&mut fm.extra, key, val);
        }
    }
}

/// Past one line break at `p` (see `strip_newline`).
fn skip_newline(v: &[char], p: usize) -> (r: usize)
    requires
        p <= v@.len(),
    ensures
        p <= r <= v@.len(),
        v@.subrange(r as int, v@.len() as int) == strip_newline(v@.subrange(p as int, v@.len() as int)),
{
    proof {
        reveal_strlit("\r\n");
        reveal_strlit("\n");
    }
    let n = v.len();
    let ghost s = v@.subrange(p as int, n as int);
    if n - p >= 2 && v[p] == '\r' && v[p + 1] == '\n' {
        assert(s.subrange(0, 2) =~= "\r\n"@);
        assert(s.subrange(2, s.len() as int) =~= v@.subrange(p + 2, n as int));
        p + 2
    } else if n - p >= 1 && v[p] == '\n' {
        proof {
            if has_prefix(s, "\r\n"@) {
                assert(s.subrange(0, 2)[0] == s[0]);
                assert(s.subrange(0, 2)[1] == s[1]);
            }
        }
        assert(s.subrange(0, 1) =~= "\n"@);
        assert(s.subrange(1, s.len() as int) =~= v@.subrange(p + 1, n as int));
        p + 1
    } else {
        proof {
            if has_prefix(s, "\r\n"@) {
                assert(s.subrange(0, 2)[0] == s[0]);
                assert(s.subrange(0, 2)[1] == s[1]);
            }
            if has_prefix(s, "\n"@) {
                assert(s.subrange(0, 1)[0] == s[0]);
            }
        }
        p
    }
}

/// Where the frontmatter block of `v` lies and where the body starts (see
/// `fm_split`).
fn split_block(v: &Vec<char>) -> (r: Option<(usize, usize, usize)>)
    ensures
        match r {
            Some(x) => x.0 <= x.1 <= v@.len() && x.2 <= v@.len()
                && fm_split(v@) == Some((v@.subrange(x.0 as int, x.1 as int), v@.subrange(x.2 as int, v@.len() as int))),
            None => fm_split(v@) is None,
        },
{
    proof {
        reveal_strlit("---");
        reveal_strlit("\r\n---");
        reveal_strlit("\n---");
    }
    let n = v.len();
    let a = trim_start_index(v.as_slice(), 0);
    assert(v@.subrange(0, n as int) =~= v@);
    let ghost t = v@.subrange(a as int, n as int);
    if !(n - a >= 3 && v[a] == '-' && v[a + 1] == '-' && v[a + 2] == '-') {
        proof {
            if t.len() >= 3 && has_prefix(t, "---"@) {
                assert(t.subrange(0, 3)[0] == t[0] && t.subrange(0, 3)[1] == t[1] && t.subrange(0, 3)[2] == t[2]);
            }
        }
        return None;
    }
    assert(t.subrange(0, 3) =~= "---"@);
    assert(v@.subrange(a + 3, n as int) =~= t.subrange(3, t.len() as int));
    let r0 = skip_newline(v.as_slice(), a + 3);
    let rest = sub_vec(v.as_slice(), r0, n);
    let crlf = chars_of("\r\n---");
    let lf = chars_of("\n---");
    let (e, skip) = match find_from(rest.as_slice(), crlf.as_slice(), 0) {
        Some(e) => {
            proof { lemma_find_seq(rest@, "\r\n---"@, 0); }
            (e, 5usize)
        },
        None => match find_from(rest.as_slice(), lf.as_slice(), 0) {
            Some(e) => {
                proof { lemma_find_seq(rest@, "\n---"@, 0); }
                (e, 4usize)
            },
            None => {
                return None;
            },
        },
    };
    let rl = rest.len();
    let b0 = skip_newline(rest.as_slice(), e + skip);
    let ghost stripped = rest@.subrange(b0 as int, rl as int);
    let mut b = b0;
    while b < rl && (rest[b] == '\r' || rest[b] == '\n')
        invariant
            b0 <= b <= rl == rest@.len(),
            trim_start_newlines(rest@.subrange(b as int, rl as int)) == trim_start_newlines(stripped),
        decreases rl - b,
    {
        assert(rest@.subrange(b as int, rl as int).drop_first() =~= rest@.subrange(b + 1, rl as int));
        b += 1;
    }
    assert(rest@.subrange(0, e as int) =~= v@.subrange(r0 as int, r0 + e));
    assert(rest@.subrange(b as int, rl as int) =~= v@.subrange(r0 + b, n as int));
    Some((r0, r0 + e, r0 + b))
}

/// The frontmatter of a block's text (see `fm_lines`).
fn fm_of_block(yaml: &str) -> (f: Frontmatter)
    ensures
        fm_view(f) == fm_lines(text_lines(yaml@), text_lines(yaml@).len() as int).0,
{
    let lines = split_lines(yaml);
    let ghost ls = text_lines(yaml@);
    let mut fm = Frontmatter {
        title: None,
        created: None,
        updated: None,
        doc_type: None,
        status: None,
        tags: Vec::new(),
        extra: Vec::new(),
    };
    let mut in_tags = false;
    assert(texts(fm.tags@) =~= Seq::<Seq<char>>::empty());
    assert(fm.extra@.map_values(|e: (String, String)| (e.0@, e.1@)) =~= Seq::<(Seq<char>, Seq<char>)>::empty());
    let mut i: usize = 0;
    while i < lines.len()
        invariant
            i <= lines@.len(),
            lines@.len() == ls.len(),
            ls == text_lines(yaml@),
            forall|k: int| 0 <= k < lines@.len() ==> (#[trigger] lines@[k])@ == ls[k],
            (fm_view(fm), in_tags) == fm_lines(ls, i as int),
        decreases lines@.len() - i,
    {
        assert(lines@[i as int]@ == ls[i as int]);
        fm_apply_line(&mut fm, &mut in_tags, lines[i].as_str());
        i += 1;
    }
    fm
}

impl Frontmatter {
    /// The frontmatter block of a note, if it opens with a `---` block that
    /// closes, and the body after it (the whole note when there is none).
    pub fn parse(content: &str) -> (r: (Option<Frontmatter>, &str))
        ensures
            match fm_split(content@) {
                None => r.0 is None && r.1@ == content@,
                Some(x) => r.0 matches Some(f) && fm_view(f) == fm_lines(text_lines(x.0), text_lines(x.0).len() as int).0
                    && r.1@ == x.1,
            },
        r.0 matches Some(f) ==> keys_distinct(fm_view(f).extra),
    {
        let v = chars_of(content);
        match split_block(&v) {
            None => (None, content),
            Some((ys, ye, bs)) => {
                let yaml = string_of(v.as_slice(), ys, ye);
                let fm = fm_of_block(yaml.as_str());
                proof {
                    lemma_fm_lines_distinct(text_lines(yaml@), text_lines(yaml@).len() as int);
                }
                let body = content.substring_char(bs, v.len());
                (Some(fm), body)
            },
        }
    }
}

/// The targets of the wikilinks `[[target|alias]]` or `[[target]]`, in
/// order, when not blank.
pub open spec fn wikilinks(s: Seq<char>) -> Seq<Seq<char>>
    decreases s.len(),
{
    match find_seq(s, "[["@, 0) {
        None => Seq::empty(),
        Some(k) => {
            let after = s.subrange(k + 2, s.len() as int);
            match find_seq(after, "]]"@, 0) {
                None => Seq::empty(),
                Some(e) => if 0 <= k && k + 2 <= s.len() && 0 <= e && e + 2 <= after.len() {
                    let t = trim_ws(before_char(after.subrange(0, e), '|'));
                    (if t.len() > 0 { seq![t] } else { Seq::empty() }) + wikilinks(after.subrange(e + 2, after.len() as int))
                } else {
                    Seq::empty()
                },
            }
        },
    }
}

/// The callout blocks of a text: a line starting (trimmed) with `> [!`
/// opens one, lines starting with `>` continue it, any other line ends it;
/// each block is its trimmed lines, one per line, trimmed as a whole.
pub open spec fn callout_step(st: (Seq<Seq<char>>, bool, Seq<char>), line: Seq<char>) -> (Seq<Seq<char>>, bool, Seq<char>) {
    let (out, inside, cur) = st;
    let t = trim_ws(line);
    if has_prefix(t, "> [!"@) {
        let out2 = if inside && cur.len() > 0 { out.push(trim_ws(cur)) } else { out };
        let cur2 = if inside && cur.len() > 0 { Seq::empty() } else { cur };
        (out2, true, cur2 + t + "\n"@)
    } else if inside {
        if t.len() > 0 && t[0] == '>' {
            (out, true, cur + t + "\n"@)
        } else if cur.len() > 0 {
            (out.push(trim_ws(cur)), false, Seq::empty())
        } else {
            (out, false, cur)
        }
    } else {
        st
    }
}

/// The state after the first `n` lines.
pub open spec fn callout_state(lines: Seq<Seq<char>>, n: int) -> (Seq<Seq<char>>, bool, Seq<char>)
    decreases n,
{
    if n <= 0 || n > lines.len() { (Seq::empty(), false, Seq::empty()) } else { callout_step(callout_state(lines, n - 1), lines[n - 1]) }
}

/// The callout blocks of a text.
pub open spec fn callouts(text: Seq<char>) -> Seq<Seq<char>> {
    let lines = text_lines(text);
    let st = callout_state(lines, lines.len() as int);
    if st.1 && st.2.len() > 0 { st.0.push(trim_ws(st.2)) } else { st.0 }
}

/// The headings that open an agents' guidelines section, in the order
/// they are looked for.
pub open spec fn guideline_markers() -> Seq<Seq<char>> {
    seq!["## 🤖 Diretrizes para Agentes de IA"@, "## Diretrizes para Agentes"@, "## System Guidelines"@]
}

/// The guidelines section of the first marker (from `i` on) found in the
/// text: from the marker up to the next `\n## ` heading, trimmed.
pub open spec fn guidelines_from(text: Seq<char>, i: int) -> Option<Seq<char>>
    decreases 3 - i,
{
    if i < 0 || i >= 3 {
        None
    } else {
        let m = guideline_markers()[i];
        match find_seq(text, m, 0) {
            Some(pos) => {
                let slice = text.subrange(pos, text.len() as int);
                match find_seq(slice.subrange(m.len() as int, slice.len() as int), "\n## "@, 0) {
                    Some(nh) => Some(trim_ws(slice.subrange(0, m.len() + nh))),
                    None => Some(trim_ws(slice)),
                }
            },
            None => guidelines_from(text, i + 1),
        }
    }
}

/// Searching from `i + j` is searching the text from `i` on from `j`.
pub proof fn lemma_find_seq_shift(s: Seq<char>, p: Seq<char>, i: int, j: int)
    requires
        0 <= i <= s.len(),
        0 <= j,
    ensures
        find_seq(s, p, i + j) == match find_seq(s.subrange(i, s.len() as int), p, j) {
            Some(k) => Some(k + i),
            None => None::<int>,
        },
    decreases s.len() + 1 - (i + j),
{
    let t = s.subrange(i, s.len() as int);
    if !(i + j + p.len() > s.len()) {
        assert(t.subrange(j, j + p.len()) =~= s.subrange(i + j, i + j + p.len()));
        if s.subrange(i + j, i + j + p.len()) != p {
            lemma_find_seq_shift(s, p, i, j + 1);
        }
    }
}

/// The wikilink targets of a text (see `wikilinks`).
pub fn extract_wikilinks(text: &str) -> (r: Vec<String>)
    ensures
        texts(r@) == wikilinks(text@),
{
    proof {
        reveal_strlit("[[");
        reveal_strlit("]]");
    }
    let v = chars_of(text);
    let n = v.len();
    let open = chars_of("[[");
    let close = chars_of("]]");
    let mut out: Vec<String> = Vec::new();
    let mut c: usize = 0;
    assert(v@.subrange(0, n as int) =~= v@);
    loop
        invariant
            c <= n == v@.len(),
            open@ == "[["@,
            close@ == "]]"@,
            "[["@.len() == 2,
            "]]"@.len() == 2,
            texts(out@) + wikilinks(v@.subrange(c as int, n as int)) == wikilinks(text@),
            v@ == text@,
        decreases n - c,
    {
        let ghost cur = v@.subrange(c as int, n as int);
        proof {
            lemma_find_seq_shift(v@, "[["@, c as int, 0);
        }
        let k = match find_from(v.as_slice(), open.as_slice(), c) {
            Some(k) => k,
            None => {
                assert(wikilinks(cur) =~= Seq::<Seq<char>>::empty());
                assert(texts(out@) + Seq::<Seq<char>>::empty() =~= texts(out@));
                return out;
            },
        };
        proof { lemma_find_seq(v@, "[["@, c as int); }
        let ghost kr = k - c;
        let ghost after = cur.subrange(kr + 2, cur.len() as int);
        assert(after =~= v@.subrange(k + 2, n as int));
        proof {
            lemma_find_seq_shift(v@, "]]"@, k + 2, 0);
        }
        let e = match find_from(v.as_slice(), close.as_slice(), k + 2) {
            Some(e) => e,
            None => {
                assert(texts(out@) + Seq::<Seq<char>>::empty() =~= texts(out@));
                return out;
            },
        };
        proof { lemma_find_seq(v@, "]]"@, k + 2); }
        let ghost er = e - (k + 2);
        let content = sub_vec(v.as_slice(), k + 2, e);
        assert(content@ =~= after.subrange(0, er));
        let bar = index_of_char(content.as_slice(), '|', 0);
        proof { lemma_index_of(content@, '|', 0); }
        let (ta, tb) = trim_bounds(content.as_slice(), 0, bar);
        let ghost before = texts(out@);
        let ghost rest = after.subrange(er + 2, after.len() as int);
        assert(rest =~= v@.subrange(e + 2, n as int));
        if tb > ta {
            out.push(string_of(content.as_slice(), ta, tb));
            assert(texts(out@) =~= before + seq![trim_ws(before_char(content@, '|'))]);
        } else {
            assert(before + Seq::<Seq<char>>::empty() =~= before);
        }
        c = e + 2;
    }
}

/// The callout blocks of a text (see `callouts`).
pub fn extract_callouts(text: &str) -> (r: Vec<String>)
    ensures
        texts(r@) == callouts(text@),
{
    let lines = split_lines(text);
    let ghost ls = text_lines(text@);
    let mut out: Vec<String> = Vec::new();
    let mut inside = false;
    let mut cur = String::new();
    let mut i: usize = 0;
    assert(texts(out@) =~= Seq::<Seq<char>>::empty());
    while i < lines.len()
        invariant
            i <= lines@.len(),
            lines@.len() == ls.len(),
            ls == text_lines(text@),
            forall|k: int| 0 <= k < lines@.len() ==> (#[trigger] lines@[k])@ == ls[k],
            (texts(out@), inside, cur@) == callout_state(ls, i as int),
        decreases lines@.len() - i,
    {
        assert(lines@[i as int]@ == ls[i as int]);
        let lv = chars_of(lines[i].as_str());
        let (ta, tb) = trim_bounds(lv.as_slice(), 0, lv.len());
        assert(lv@.subrange(0, lv@.len() as int) =~= lv@);
        let t = sub_vec(lv.as_slice(), ta, tb);
        let ts = string_of(t.as_slice(), 0, t.len());
        assert(t@.subrange(0, t@.len() as int) =~= t@);
        let ghost before = texts(out@);
        if starts_with_str(t.as_slice(), "> [!") {
            if inside && cur.as_str().unicode_len() > 0 {
                out.push(crate::textops::trim_str(cur.as_str()));
                assert(texts(out@) =~= before.push(trim_ws(cur@)));
                cur = String::new();
            }
            inside = true;
            push_str(&mut cur, ts.as_str());
            push_str(&mut cur, "\n");
        } else if inside {
            if t.len() > 0 && t[0] == '>' {
                push_str(&mut cur, ts.as_str());
                push_str(&mut cur, "\n");
            } else {
                inside = false;
                if cur.as_str().unicode_len() > 0 {
                    out.push(crate::textops::trim_str(cur.as_str()));
                    assert(texts(out@) =~= before.push(trim_ws(cur@)));
                    cur = String::new();
                }
            }
        }
        i += 1;
    }
    if inside && cur.as_str().unicode_len() > 0 {
        let ghost before = texts(out@);
        out.push(crate::textops::trim_str(cur.as_str()));
        assert(texts(out@) =~= before.push(trim_ws(cur@)));
    }
    out
}

/// The guidelines section of a text, if any (see `guidelines_from`).
pub fn extract_guidelines(text: &str) -> (r: Option<String>)
    ensures
        ot(r) == guidelines_from(text@, 0),
{
    proof { reveal_strlit("\n## "); }
    let v = chars_of(text);
    let n = v.len();
    let heading = chars_of("\n## ");
    let markers: [&str; 3] = ["## 🤖 Diretrizes para Agentes de IA", "## Diretrizes para Agentes", "## System Guidelines"];
    let mut i: usize = 0;
    assert(v@.subrange(0, n as int) =~= v@);
    while i < 3
        invariant
            i <= 3,
            v@ == text@,
            n == v@.len(),
            heading@ == "\n## "@,
            markers@ == seq!["## 🤖 Diretrizes para Agentes de IA", "## Diretrizes para Agentes", "## System Guidelines"],
            guidelines_from(text@, i as int) == guidelines_from(text@, 0),
        decreases 3 - i,
    {
        let m = chars_of(markers[i]);
        assert(m@ == guideline_markers()[i as int]);
        match find_from(v.as_slice(), m.as_slice(), 0) {
            Some(pos) => {
                proof {
                    lemma_find_seq(v@, m@, 0);
                    lemma_find_seq_shift(v@, "\n## "@, pos + m@.len(), 0);
                }
                let ml = m.len();
                let ghost slice = v@.subrange(pos as int, n as int);
                assert(slice.subrange(ml as int, slice.len() as int) =~= v@.subrange(pos + ml, n as int));
                match find_from(v.as_slice(), heading.as_slice(), pos + ml) {
                    Some(h) => {
                        proof { lemma_find_seq(v@, "\n## "@, pos + ml); }
                        let (a, b) = trim_bounds(v.as_slice(), pos, h);
                        assert(slice.subrange(0, ml + (h - pos - ml)) =~= v@.subrange(pos as int, h as int));
                        return Some(string_of(v.as_slice(), a, b));
                    },
                    None => {
                        let (a, b) = trim_bounds(v.as_slice(), pos, n);
                        return Some(string_of(v.as_slice(), a, b));
                    },
                }
            },
            None => {},
        }
        i += 1;
    }
    None
}

/// The characters of `s` from `i` whose UTF-8 bytes, added to `acc`, stay
/// within `limit`: where a cut at a character boundary falls.
pub open spec fn utf8_cut(s: Seq<char>, i: int, acc: int, limit: int) -> int
    decreases s.len() - i,
{
    if 0 <= i < s.len() && acc + utf8_width(s[i]) <= limit { utf8_cut(s, i + 1, acc + utf8_width(s[i]), limit) } else { i }
}

pub(crate) fn utf8_cut_exec(v: &[char], limit: usize) -> (k: usize)
    ensures
        k == utf8_cut(v@, 0, 0, limit as int),
        k <= v@.len(),
{
    let mut i: usize = 0;
    let mut acc: usize = 0;
    while i < v.len() && char_len_utf8(v[i]) <= limit - acc
        invariant
            i <= v@.len(),
            acc <= limit,
            utf8_cut(v@, i as int, acc as int, limit as int) == utf8_cut(v@, 0, 0, limit as int),
        decreases v@.len() - i,
    {
        acc = acc + char_len_utf8(v[i]);
        i += 1;
    }
    i
}

/// The body of a note: what follows its frontmatter block, or all of it.
pub open spec fn note_body(content: Seq<char>) -> Seq<char> {
    match fm_split(content) {
        Some(x) => x.1,
        None => content,
    }
}

/// A body as summarized: cut at 1500 bytes (at a character boundary) with a
/// note when longer, else trimmed.
pub open spec fn body_summary_of(body: Seq<char>) -> Seq<char> {
    if encode_utf8(body).len() > 1500 {
        body.subrange(0, utf8_cut(body, 0, 0, 1500)) + "...\n[Truncated for token efficiency]"@
    } else {
        trim_ws(body)
    }
}

/// A Markdown note read as context.
#[derive(Debug, Clone)]
pub struct ChronoDoc {
    pub rel_path: String,
    pub frontmatter: Option<Frontmatter>,
    pub wikilinks: Vec<String>,
    pub callouts: Vec<String>,
    pub system_guidelines: Option<String>,
    pub body_summary: String,
}

/// The frontmatter view of an optional frontmatter.
pub open spec fn opt_fm(f: Option<Frontmatter>) -> Option<FmView> {
    match f {
        Some(x) => Some(fm_view(x)),
        None => None,
    }
}

impl ChronoDoc {
    /// A note read from its path (separators made `/`) and text.
    pub fn from_content(rel_path: &str, content: &str) -> (d: ChronoDoc)
        ensures
            d.rel_path@ == replace_char(rel_path@, '\\', '/'),
            opt_fm(d.frontmatter) == match fm_split(content@) {
                Some(x) => Some(fm_lines(text_lines(x.0), text_lines(x.0).len() as int).0),
                None => None,
            },
            texts(d.wikilinks@) == wikilinks(note_body(content@)),
            texts(d.callouts@) == callouts(note_body(content@)),
            ot(d.system_guidelines) == guidelines_from(note_body(content@), 0),
            d.body_summary@ == body_summary_of(note_body(content@)),
    {
        let rv = chars_of(rel_path);
        let rel = replaced_range(rv.as_slice(), 0, rv.len(), '\\', '/');
        assert(rv@.subrange(0, rv@.len() as int) =~= rv@);
        let (frontmatter, body) = Frontmatter::parse(content);
        let wikilinks = extract_wikilinks(body);
        let callouts = extract_callouts(body);
        let system_guidelines = extract_guidelines(body);
        let body_summary = if body.as_bytes().len() > 1500 {
            let bv = chars_of(body);
            let k = utf8_cut_exec(bv.as_slice(), 1500);
            let mut s = string_of(bv.as_slice(), 0, k);
            push_str(&mut s, "...\n[Truncated for token efficiency]");
            s
        } else {
            crate::textops::trim_str(body)
        };
        ChronoDoc { rel_path: rel, frontmatter, wikilinks, callouts, system_guidelines, body_summary }
    }

    /// The wikilink targets of a text (see `wikilinks`).
    pub fn extract_wikilinks(text: &str) -> (r: Vec<String>)
        ensures
            texts(r@) == wikilinks(text@),
    {
        extract_wikilinks(text)
    }

    /// The callout blocks of a text (see `callouts`).
    pub fn extract_callouts(text: &str) -> (r: Vec<String>)
        ensures
            texts(r@) == callouts(text@),
    {
        extract_callouts(text)
    }

    /// The guidelines section of a text (see `guidelines_from`).
    pub fn extract_guidelines(text: &str) -> (r: Option<String>)
        ensures
            ot(r) == guidelines_from(text@, 0),
    {
        extract_guidelines(text)
    }
}

/// Whether a note other than `agents.md` or `readme.md` (by lowercase
/// file name) matches the task: some word of the query of four bytes or
/// more occurs in its lowercase file name or path.
pub open spec fn task_document(query: Seq<char>, file_name: Seq<char>, path: Seq<char>) -> bool {
    let q = unicode_lowercase(query);
    let f = unicode_lowercase(file_name);
    let p = unicode_lowercase(path);
    let ws = words_from(q, 0);
    f != "agents.md"@ && f != "readme.md"@
        && exists|i: int| 0 <= i < ws.len() && encode_utf8(#[trigger] ws[i]).len() >= 4
            && (contains_seq(f, ws[i]) || contains_seq(p, ws[i]))
}

/// Whether a note is a document of the task (see `task_document`).
pub fn is_task_document(query: &str, file_name: &str, path: &str) -> (b: bool)
    ensures
        b == task_document(query@, file_name@, path@),
{
    let q = to_lowercase(query);
    let f = to_lowercase(file_name);
    let p = to_lowercase(path);
    let fv = chars_of(f.as_str());
    let pv = chars_of(p.as_str());
    if text_is(fv.as_slice(), "agents.md") || text_is(fv.as_slice(), "readme.md") {
        return false;
    }
    let qv = chars_of(q.as_str());
    let ws = split_words(qv.as_slice());
    let ghost wv = texts(ws@);
    let mut i: usize = 0;
    while i < ws.len()
        invariant
            i <= ws@.len(),
            wv == texts(ws@),
            wv == words_from(unicode_lowercase(query@), 0),
            fv@ == unicode_lowercase(file_name@),
            pv@ == unicode_lowercase(path@),
            fv@ != "agents.md"@,
            fv@ != "readme.md"@,
            forall|k: int| 0 <= k < i ==> !(encode_utf8(#[trigger] wv[k]).len() >= 4
                && (contains_seq(fv@, wv[k]) || contains_seq(pv@, wv[k]))),
        decreases ws@.len() - i,
    {
        assert(wv[i as int] == ws@[i as int]@);
        let w = ws[i].as_str();
        if w.as_bytes().len() >= 4 && (contains_str(fv.as_slice(), w) || contains_str(pv.as_slice(), w)) {
            assert(encode_utf8(wv[i as int]).len() >= 4 && (contains_seq(fv@, wv[i as int]) || contains_seq(pv@, wv[i as int])));
            return true;
        }
        i += 1;
    }
    false
}

/// The title of an optional frontmatter.
pub open spec fn fm_title(f: Option<Frontmatter>) -> Option<Seq<char>> {
    match f {
        Some(x) => ot(x.title),
        None => None,
    }
}

/// The status of an optional frontmatter.
pub open spec fn fm_status(f: Option<Frontmatter>) -> Option<Seq<char>> {
    match f {
        Some(x) => ot(x.status),
        None => None,
    }
}

/// The lines of the master instructions note.
pub open spec fn agent_lines(d: ChronoDoc) -> Seq<Seq<char>> {
    seq!["## Master Instructions ("@ + d.rel_path@ + ")"@]
        + (match fm_title(d.frontmatter) { Some(t) => seq!["**Title:** "@ + t], None => Seq::empty() })
        + (match fm_status(d.frontmatter) { Some(t) => seq!["**Status:** "@ + t], None => Seq::empty() })
        + (if d.callouts@.len() > 0 { seq!["### Active Operational Directives:"@] + texts(d.callouts@) } else { Seq::empty() })
        + (match d.system_guidelines { Some(g) => seq![g@], None => Seq::empty() })
}

/// The lines of a task document.
pub open spec fn doc_lines(d: ChronoDoc) -> Seq<Seq<char>> {
    seq!["### Document: "@ + d.rel_path@]
        + (match fm_title(d.frontmatter) { Some(t) => seq!["*Title:* "@ + t], None => Seq::empty() })
        + seq![d.body_summary@]
}

/// The lines of task documents, in order.
pub open spec fn docs_lines(ds: Seq<ChronoDoc>) -> Seq<Seq<char>>
    decreases ds.len(),
{
    if ds.len() == 0 { Seq::empty() } else { docs_lines(ds.drop_last()) + doc_lines(ds.last()) }
}

/// The context pack: its heading, the master instructions, up to three
/// task documents, joined by blank lines and cut to the budget (in bytes,
/// at a character boundary) with a note when longer.
pub open spec fn pack_text(agents: Option<ChronoDoc>, matched: Seq<ChronoDoc>, budget: nat) -> Seq<char> {
    let shown = if matched.len() <= 3 { matched } else { matched.subrange(0, 3) };
    let lines = seq!["# ChronoKairo Curated Context Pack (Zero-Lib Engine)"@]
        + (match agents { Some(d) => agent_lines(d), None => Seq::empty() })
        + (if matched.len() > 0 { seq!["\n## Relevant Task Domain Documents:"@] + docs_lines(shown) } else { Seq::empty() });
    let full = join(lines, "\n\n"@);
    if encode_utf8(full).len() > budget {
        let note = cap_note(budget);
        if encode_utf8(note).len() <= budget {
            full.subrange(0, utf8_cut(full, 0, 0, budget - encode_utf8(note).len())) + note
        } else {
            full.subrange(0, utf8_cut(full, 0, 0, budget as int))
        }
    } else {
        full
    }
}

/// The note that ends a pack cut to `budget` bytes.
pub open spec fn cap_note(budget: nat) -> Seq<char> {
    "\n\n[Context budget capped at "@ + dec(budget) + " chars]"@
}

/// The UTF-8 length of a text is the sum of its scalars' widths.
pub proof fn lemma_encode_len(s: Seq<char>)
    ensures
        encode_utf8(s).len() == utf8_len(s),
    decreases s.len(),
{
    if s.len() > 0 {
        let c = s[0];
        lemma_encode_len(s.drop_first());
        lemma_utf8_len_concat(seq![c], s.drop_first());
        assert(seq![c] + s.drop_first() =~= s);
        assert(seq![c].drop_last() =~= Seq::<char>::empty());
        assert(utf8_len(seq![c].drop_last()) == 0);
        assert(seq![c].last() == c);
        assert(utf8_len(seq![c]) == utf8_width(c));
        vstd::utf8::char_is_scalar(c);
        assert(encode_scalar(c as u32).len() == utf8_width(c));
    }
}

/// UTF-8 lengths add up over concatenation.
pub proof fn lemma_utf8_len_concat(a: Seq<char>, b: Seq<char>)
    ensures
        utf8_len(a + b) == utf8_len(a) + utf8_len(b),
    decreases b.len(),
{
    if b.len() == 0 {
        assert(a + b =~= a);
    } else {
        lemma_utf8_len_concat(a, b.drop_last());
        assert((a + b).drop_last() =~= a + b.drop_last());
    }
}

/// The prefix kept by a cut at `limit` takes at most `limit` bytes.
pub proof fn lemma_utf8_cut_fits(s: Seq<char>, i: int, acc: int, limit: int)
    requires
        0 <= i <= s.len(),
        acc == utf8_len(s.subrange(0, i)),
        acc <= limit,
    ensures
        0 <= utf8_cut(s, i, acc, limit) <= s.len(),
        utf8_len(s.subrange(0, utf8_cut(s, i, acc, limit))) <= limit,
    decreases s.len() - i,
{
    if 0 <= i < s.len() && acc + utf8_width(s[i]) <= limit {
        lemma_utf8_step(s, i);
        lemma_utf8_cut_fits(s, i + 1, acc + utf8_width(s[i]), limit);
    }
}

fn push_text_line(lines: &mut Vec<String>, head: &str, t: &str, tail: &str)
    ensures
        texts(final(lines)@) == texts(old(lines)@).push(head@ + t@ + tail@),
{
    let mut l = owned(head);
    push_str(&mut l, t);
    push_str(&mut l, tail);
    let ghost before = texts(lines@);
    lines.push(l);
    assert(texts(lines@) =~= before.push(head@ + t@ + tail@));
}

fn push_agent_lines(lines: &mut Vec<String>, d: &ChronoDoc)
    ensures
        texts(final(lines)@) == texts(old(lines)@) + agent_lines(*d),
{
    proof { reveal_strlit(""); }
    assert(""@ =~= Seq::<char>::empty());
    let ghost l0 = texts(lines@);
    push_text_line(lines, "## Master Instructions (", d.rel_path.as_str(), ")");
    let ghost a1 = seq!["## Master Instructions ("@ + d.rel_path@ + ")"@];
    assert(texts(lines@) =~= l0 + a1);
    let ghost a2 = match fm_title(d.frontmatter) { Some(t) => seq!["**Title:** "@ + t], None => Seq::<Seq<char>>::empty() };
    let ghost a3 = match fm_status(d.frontmatter) { Some(t) => seq!["**Status:** "@ + t], None => Seq::<Seq<char>>::empty() };
    match &d.frontmatter {
        Some(fm) => {
            match &fm.title {
                Some(t) => push_text_line(lines, "**Title:** ", t.as_str(), ""),
                None => {},
            }
            assert(texts(lines@) =~= l0 + a1 + a2);
            match &fm.status {
                Some(t) => push_text_line(lines, "**Status:** ", t.as_str(), ""),
                None => {},
            }
        },
        None => {},
    }
    assert(texts(lines@) =~= l0 + a1 + a2 + a3);
    let ghost l3 = texts(lines@);
    if d.callouts.len() > 0 {
        lines.push(owned("### Active Operational Directives:"));
        let mut k: usize = 0;
        let ghost mid = texts(lines@);
        assert(mid =~= l3 + seq!["### Active Operational Directives:"@]);
        assert(mid + texts(d.callouts@).subrange(0, 0) =~= mid);
        while k < d.callouts.len()
            invariant
                k <= d.callouts@.len(),
                texts(lines@) == mid + texts(d.callouts@).subrange(0, k as int),
            decreases d.callouts@.len() - k,
        {
            let ghost before = texts(lines@);
            lines.push(d.callouts[k].clone());
            assert(texts(lines@) =~= before.push(d.callouts@[k as int]@));
            assert(texts(d.callouts@).subrange(0, k + 1) =~= texts(d.callouts@).subrange(0, k as int).push(d.callouts@[k as int]@));
            assert(texts(lines@) =~= mid + texts(d.callouts@).subrange(0, k + 1));
            k += 1;
        }
        assert(texts(d.callouts@).subrange(0, k as int) =~= texts(d.callouts@));
    }
    let ghost a4 = if d.callouts@.len() > 0 { seq!["### Active Operational Directives:"@] + texts(d.callouts@) } else { Seq::<Seq<char>>::empty() };
    assert(texts(lines@) =~= l3 + a4);
    match &d.system_guidelines {
        Some(g) => {
            let ghost before = texts(lines@);
            lines.push(g.clone());
            assert(texts(lines@) =~= before.push(g@));
        },
        None => {},
    }
    let ghost a5 = match ot(d.system_guidelines) { Some(g) => seq![g], None => Seq::<Seq<char>>::empty() };
    assert(texts(lines@) =~= l3 + a4 + a5);
    assert(agent_lines(*d) =~= a1 + a2 + a3 + a4 + a5);
}

/// The engine that assembles curated context packs.
#[derive(Debug, Default)]
pub struct ChronoContextEngine;

impl ChronoContextEngine {
    /// The context pack of the master instructions note and the task's
    /// documents (see `pack_text`).
    pub fn assemble_context_pack(agents: Option<&ChronoDoc>, matched: &Vec<ChronoDoc>, char_budget: usize) -> (r: String)
        ensures
            r@ == pack_text(match agents { Some(d) => Some(*d), None => None }, matched@, char_budget as nat),
            encode_utf8(r@).len() <= char_budget,
    {
        proof { reveal_strlit(""); }
        assert(""@ =~= Seq::<char>::empty());
        let mut lines: Vec<String> = Vec::new();
        lines.push(owned("# ChronoKairo Curated Context Pack (Zero-Lib Engine)"));
        let ghost l0 = texts(lines@);
        assert(l0 =~= seq!["# ChronoKairo Curated Context Pack (Zero-Lib Engine)"@]);
        match agents {
            Some(d) => {
                push_agent_lines(&mut lines, d);
            },
            None => {
                assert(l0 + Seq::<Seq<char>>::empty() =~= l0);
            },
        }
        let ghost l1 = texts(lines@);
        if matched.len() > 0 {
            lines.push(owned("\n## Relevant Task Domain Documents:"));
            let ghost l2 = texts(lines@);
            let n = if matched.len() <= 3 { matched.len() } else { 3 };
            let ghost shown = if matched@.len() <= 3 { matched@ } else { matched@.subrange(0, 3) };
            assert(shown =~= matched@.subrange(0, n as int));
            let mut k: usize = 0;
            assert(docs_lines(shown.subrange(0, 0)) =~= Seq::<Seq<char>>::empty());
            assert(l2 + Seq::<Seq<char>>::empty() =~= l2);
            while k < n
                invariant
                    k <= n <= matched@.len(),
                    ""@ =~= Seq::<char>::empty(),
                    shown == matched@.subrange(0, n as int),
                    texts(lines@) == l2 + docs_lines(shown.subrange(0, k as int)),
                decreases n - k,
            {
                let d = &matched[k];
                let ghost before = texts(lines@);
                push_text_line(&mut lines, "### Document: ", d.rel_path.as_str(), "");
                match &d.frontmatter {
                    Some(fm) => match &fm.title {
                        Some(t) => push_text_line(&mut lines, "*Title:* ", t.as_str(), ""),
                        None => {},
                    },
                    None => {},
                }
                let ghost b2 = texts(lines@);
                lines.push(d.body_summary.clone());
                assert(texts(lines@) =~= b2.push(d.body_summary@));
                let ghost sub = shown.subrange(0, k + 1);
                assert(sub.drop_last() =~= shown.subrange(0, k as int));
                assert(sub.last() == *d);
                assert(texts(lines@) =~= before + doc_lines(*d));
                k += 1;
            }
            assert(shown.subrange(0, k as int) =~= shown);
        }
        proof {
            let ag = match agents { Some(d) => Some(*d), None => None::<ChronoDoc> };
            let shown = if matched@.len() <= 3 { matched@ } else { matched@.subrange(0, 3) };
            let want = seq!["# ChronoKairo Curated Context Pack (Zero-Lib Engine)"@]
                + (match ag { Some(d) => agent_lines(d), None => Seq::<Seq<char>>::empty() })
                + (if matched@.len() > 0 { seq!["\n## Relevant Task Domain Documents:"@] + docs_lines(shown) } else { Seq::<Seq<char>>::empty() });
            assert(l1 =~= seq!["# ChronoKairo Curated Context Pack (Zero-Lib Engine)"@]
                + (match ag { Some(d) => agent_lines(d), None => Seq::<Seq<char>>::empty() }));
            assert(texts(lines@) =~= want);
        }
        let mut full = String::new();
        push_joined(&mut full, &lines, "\n\n");
        proof { lemma_encode_len(full@); }
        if full.as_str().as_bytes().len() > char_budget {
            let mut note = owned("\n\n[Context budget capped at ");
            push_decimal(&mut note, char_budget as u64);
            push_str(&mut note, " chars]");
            proof {
                reveal_strlit("\n\n[Context budget capped at ");
                reveal_strlit(" chars]");
                assert(note@ == cap_note(char_budget as nat));
                lemma_encode_len(note@);
            }
            let note_len = note.as_str().as_bytes().len();
            let fv = chars_of(full.as_str());
            if note_len <= char_budget {
                let k = utf8_cut_exec(fv.as_slice(), char_budget - note_len);
                let mut out = string_of(fv.as_slice(), 0, k);
                push_str(&mut out, note.as_str());
                proof {
                    assert(utf8_len(fv@.subrange(0, 0)) == 0) by {
                        assert(fv@.subrange(0, 0) =~= Seq::<char>::empty());
                    }
                    lemma_utf8_cut_fits(fv@, 0, 0, (char_budget - note_len) as int);
                    lemma_utf8_len_concat(fv@.subrange(0, k as int), note@);
                    lemma_encode_len(out@);
                }
                out
            } else {
                let k = utf8_cut_exec(fv.as_slice(), char_budget);
                let out = string_of(fv.as_slice(), 0, k);
                proof {
                    assert(utf8_len(fv@.subrange(0, 0)) == 0) by {
                        assert(fv@.subrange(0, 0) =~= Seq::<char>::empty());
                    }
                    lemma_utf8_cut_fits(fv@, 0, 0, char_budget as int);
                    lemma_encode_len(out@);
                }
                out
            }
        } else {
            full
        }
    }
}

} // verus!
