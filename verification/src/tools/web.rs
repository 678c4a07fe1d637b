//! Web text: HTML stripped to readable text, DuckDuckGo result pages read
//! without an HTML library, and byte-capped text.
use vstd::prelude::*;
use crate::text::{chars_of, push_str, string_of, has_prefix, starts_with};
use crate::repo::context::{texts, join, push_joined};
use crate::repo::contract::ot;
use crate::repo::spec::{utf8_lossy, lossy_text};
use crate::textops::{contains_seq, contains_str, range_eq_str, trim_str};
use crate::textops::{trim_ws, trim_bounds, find_seq, find_from, lemma_find_seq, index_of, lemma_index_of,
    lemma_index_of_at};
use crate::repo::chrono_context::{lemma_find_seq_shift, utf8_cut, utf8_cut_exec};
use vstd::utf8::encode_utf8;

verus! {

/// Every non-overlapping occurrence of `p` (left to right) replaced by `r`.
pub open spec fn replace_all(s: Seq<char>, p: Seq<char>, r: Seq<char>) -> Seq<char>
    decreases s.len(),
{
    if p.len() == 0 {
        s
    } else {
        match find_seq(s, p, 0) {
            Some(k) => if 0 <= k && k + p.len() <= s.len() {
                s.subrange(0, k) + r + replace_all(s.subrange(k + p.len(), s.len() as int), p, r)
            } else {
                s
            },
            None => s,
        }
    }
}

/// `str::replace` of a non-empty pattern (see `replace_all`).
pub fn replace_text(s: &str, p: &str, r: &str) -> (out: String)
    requires
        p@.len() > 0,
    ensures
        out@ == replace_all(s@, p@, r@),
{
    let v = chars_of(s);
    let pv = chars_of(p);
    let n = v.len();
    let mut out = String::new();
    let mut c: usize = 0;
    assert(v@.subrange(0, n as int) =~= v@);
    loop
        invariant
            c <= n == v@.len(),
            v@ == s@,
            pv@ == p@,
            p@.len() > 0,
            out@ + replace_all(v@.subrange(c as int, n as int), p@, r@) == replace_all(s@, p@, r@),
        decreases n - c,
    {
        let ghost cur = v@.subrange(c as int, n as int);
        proof { lemma_find_seq_shift(v@, p@, c as int, 0); }
        match find_from(v.as_slice(), pv.as_slice(), c) {
            Some(k) => {
                proof { lemma_find_seq(v@, p@, c as int); }
                let ghost before = out@;
                crate::text::push_chars(&mut out, v.as_slice(), c, k);
                push_str(&mut out, r);
                let ghost kr = k - c;
                assert(cur.subrange(0, kr) =~= v@.subrange(c as int, k as int));
                assert(cur.subrange(kr + p@.len(), cur.len() as int) =~= v@.subrange(k + p@.len(), n as int));
                assert(out@ + replace_all(v@.subrange(k + p@.len(), n as int), p@, r@) =~= before + replace_all(cur, p@, r@));
                c = k + pv.len();
            },
            None => {
                let ghost before = out@;
                crate::text::push_chars(&mut out, v.as_slice(), c, n);
                assert(out@ =~= before + cur);
                return out;
            },
        }
    }
}

/// HTML entities of the result pages decoded, in a fixed order.
pub open spec fn html_unescaped(t: Seq<char>) -> Seq<char> {
    replace_all(replace_all(replace_all(replace_all(replace_all(replace_all(t, "&amp;"@, "&"@), "&quot;"@, "\""@),
        "&#x27;"@, "'"@), "&lt;"@, "<"@), "&gt;"@, ">"@), "&nbsp;"@, " "@)
}

/// Decodes the entities of result pages (see `html_unescaped`).
pub fn html_unescape(text: &str) -> (r: String)
    ensures
        r@ == html_unescaped(text@),
{
    proof {
        reveal_strlit("&amp;");
        reveal_strlit("&quot;");
        reveal_strlit("&#x27;");
        reveal_strlit("&lt;");
        reveal_strlit("&gt;");
        reveal_strlit("&nbsp;");
    }
    let a = replace_text(text, "&amp;", "&");
    let b = replace_text(a.as_str(), "&quot;", "\"");
    let c = replace_text(b.as_str(), "&#x27;", "'");
    let d = replace_text(c.as_str(), "&lt;", "<");
    let e = replace_text(d.as_str(), "&gt;", ">");
    replace_text(e.as_str(), "&nbsp;", " ")
}

/// The text outside `<...>` tags, from `i` on.
pub open spec fn outside_tags(s: Seq<char>, i: int, inside: bool) -> Seq<char>
    decreases s.len() - i,
{
    if i < 0 || i >= s.len() {
        Seq::empty()
    } else if s[i] == '<' {
        outside_tags(s, i + 1, true)
    } else if s[i] == '>' {
        outside_tags(s, i + 1, false)
    } else if !inside {
        seq![s[i]] + outside_tags(s, i + 1, inside)
    } else {
        outside_tags(s, i + 1, inside)
    }
}

/// The text outside tags, trimmed.
pub fn strip_tags(input: &str) -> (r: String)
    ensures
        r@ == trim_ws(outside_tags(input@, 0, false)),
{
    let v = chars_of(input);
    let mut out: Vec<char> = Vec::new();
    let mut inside = false;
    let mut i: usize = 0;
    while i < v.len()
        invariant
            i <= v@.len(),
            v@ == input@,
            out@ + outside_tags(v@, i as int, inside) == outside_tags(v@, 0, false),
        decreases v@.len() - i,
    {
        let c = v[i];
        if c == '<' {
            inside = true;
        } else if c == '>' {
            inside = false;
        } else if !inside {
            let ghost before = out@;
            out.push(c);
            assert(before + (seq![c] + outside_tags(v@, i + 1, inside)) =~= out@ + outside_tags(v@, i + 1, inside));
        }
        i += 1;
    }
    assert(out@ + Seq::<char>::empty() =~= out@);
    let (a, b) = trim_bounds(out.as_slice(), 0, out.len());
    assert(out@.subrange(0, out@.len() as int) =~= out@);
    string_of(out.as_slice(), a, b)
}


/// `char::is_ascii_whitespace`: space, tab, line feed, form feed, carriage return.
pub open spec fn is_ascii_ws(c: char) -> bool {
    c == ' ' || c == '\t' || c == '\n' || c == '\u{c}' || c == '\r'
}

/// `char::is_ascii_whitespace`.
pub fn is_ascii_whitespace(c: char) -> (b: bool)
    ensures
        b == is_ascii_ws(c),
{
    c == ' ' || c == '\t' || c == '\n' || c == '\u{c}' || c == '\r'
}

/// `char::to_ascii_lowercase`: `A`..`Z` to `a`..`z`, all else unchanged.
pub open spec fn ascii_lower(c: char) -> char {
    if 'A' <= c <= 'Z' { ((c as u32) + 32) as char } else { c }
}

/// `char::to_ascii_lowercase`.
pub fn to_ascii_lower(c: char) -> (r: char)
    ensures
        r == ascii_lower(c),
{
    if 'A' <= c && c <= 'Z' {
        let u: u8 = c as u8;
        (u + 32) as char
    } else {
        c
    }
}

/// The name of a tag as matched: its non-blank characters, lowercased.
pub open spec fn tag_key(t: Seq<char>) -> Seq<char>
    decreases t.len(),
{
    if t.len() == 0 {
        Seq::empty()
    } else if is_ascii_ws(t.last()) {
        tag_key(t.drop_last())
    } else {
        tag_key(t.drop_last()).push(ascii_lower(t.last()))
    }
}

/// Whether text is being dropped after a tag with this key: `script` and
/// `style` open such a run, `/script` and `/style` close it.
pub open spec fn script_state(key: Seq<char>, in_script: bool) -> bool {
    if has_prefix(key, "script"@) || has_prefix(key, "style"@) {
        true
    } else if has_prefix(key, "/script"@) || has_prefix(key, "/style"@) {
        false
    } else {
        in_script
    }
}

/// The text of an HTML page from `i` on: each tag (up to its `>`, or to the
/// end) becomes one space, and text inside `script` or `style` is dropped.
pub open spec fn html_text(s: Seq<char>, i: int, in_script: bool) -> Seq<char>
    decreases s.len() + 1 - i,
{
    if i < 0 || i >= s.len() {
        Seq::empty()
    } else if s[i] == '<' {
        let e = index_of(s, '>', i + 1);
        proof { lemma_index_of(s, '>', i + 1); }
        seq![' '] + html_text(s, e + 1, script_state(tag_key(s.subrange(i + 1, e)), in_script))
    } else if in_script {
        html_text(s, i + 1, in_script)
    } else {
        seq![s[i]] + html_text(s, i + 1, in_script)
    }
}

/// Runs of ASCII whitespace made one space, from `i` on.
pub open spec fn collapse_ws(s: Seq<char>, i: int, last_ws: bool) -> Seq<char>
    decreases s.len() - i,
{
    if i < 0 || i >= s.len() {
        Seq::empty()
    } else if is_ascii_ws(s[i]) {
        if last_ws {
            collapse_ws(s, i + 1, true)
        } else {
            seq![' '] + collapse_ws(s, i + 1, true)
        }
    } else {
        seq![s[i]] + collapse_ws(s, i + 1, false)
    }
}

/// An HTML page as readable text.
pub open spec fn stripped_html(s: Seq<char>) -> Seq<char> {
    trim_ws(collapse_ws(html_text(s, 0, false), 0, false))
}

fn script_state_exec(key: &[char], in_script: bool) -> (r: bool)
    ensures
        r == script_state(key@, in_script),
{
    let script = chars_of("script");
    let style = chars_of("style");
    let end_script = chars_of("/script");
    let end_style = chars_of("/style");
    if starts_with(key, script.as_slice()) || starts_with(key, style.as_slice()) {
        true
    } else if starts_with(key, end_script.as_slice()) || starts_with(key, end_style.as_slice()) {
        false
    } else {
        in_script
    }
}

fn html_text_exec(v: &[char]) -> (out: Vec<char>)
    ensures
        out@ == html_text(v@, 0, false),
{
    let n = v.len();
    let mut out: Vec<char> = Vec::new();
    let mut in_script = false;
    let mut i: usize = 0;
    while i < n
        invariant
            n == v@.len(),
            i <= n,
            out@ + html_text(v@, i as int, in_script) == html_text(v@, 0, false),
        decreases n - i,
    {
        let c = v[i];
        if c == '<' {
            let mut key: Vec<char> = Vec::new();
            let mut j: usize = i + 1;
            assert(v@.subrange(i + 1, j as int) =~= Seq::<char>::empty());
            while j < n && v[j] != '>'
                invariant
                    n == v@.len(),
                    i < n,
                    i + 1 <= j <= n,
                    forall|k: int| i + 1 <= k < j ==> v@[k] != '>',
                    key@ == tag_key(v@.subrange(i + 1, j as int)),
                decreases n - j,
            {
                let d = v[j];
                assert(v@.subrange(i + 1, j + 1).drop_last() =~= v@.subrange(i + 1, j as int));
                if !is_ascii_whitespace(d) {
                    key.push(to_ascii_lower(d));
                }
                j += 1;
            }
            proof { lemma_index_of_at(v@, '>', i + 1, j as int); }
            let ghost before = out@;
            let ghost st = in_script;
            out.push(' ');
            in_script = script_state_exec(key.as_slice(), in_script);
            assert(before + (seq![' '] + html_text(v@, j + 1, in_script)) =~= out@ + html_text(v@, j + 1, in_script));
            if j < n {
                i = j + 1;
            } else {
                i = n;
            }
        } else {
            if !in_script {
                let ghost before = out@;
                out.push(c);
                assert(before + (seq![c] + html_text(v@, i + 1, in_script)) =~= out@ + html_text(v@, i + 1, in_script));
            }
            i += 1;
        }
    }
    assert(out@ + Seq::<char>::empty() =~= out@);
    out
}

fn collapse_ws_exec(v: &[char]) -> (out: Vec<char>)
    ensures
        out@ == collapse_ws(v@, 0, false),
{
    let n = v.len();
    let mut out: Vec<char> = Vec::new();
    let mut last_ws = false;
    let mut i: usize = 0;
    while i < n
        invariant
            n == v@.len(),
            i <= n,
            out@ + collapse_ws(v@, i as int, last_ws) == collapse_ws(v@, 0, false),
        decreases n - i,
    {
        let c = v[i];
        let ghost before = out@;
        if is_ascii_whitespace(c) {
            if !last_ws {
                out.push(' ');
                assert(before + (seq![' '] + collapse_ws(v@, i + 1, true)) =~= out@ + collapse_ws(v@, i + 1, true));
                last_ws = true;
            }
        } else {
            out.push(c);
            assert(before + (seq![c] + collapse_ws(v@, i + 1, false)) =~= out@ + collapse_ws(v@, i + 1, false));
            last_ws = false;
        }
        i += 1;
    }
    assert(out@ + Seq::<char>::empty() =~= out@);
    out
}

/// An HTML page as readable text: tags become spaces, `script` and `style`
/// content is dropped, whitespace runs collapse, and the ends are trimmed.
pub fn strip_html(html: &str) -> (r: String)
    ensures
        r@ == stripped_html(html@),
{
    let v = chars_of(html);
    let text = html_text_exec(v.as_slice());
    let clean = collapse_ws_exec(text.as_slice());
    let (a, b) = trim_bounds(clean.as_slice(), 0, clean.len());
    assert(clean@.subrange(0, clean@.len() as int) =~= clean@);
    string_of(clean.as_slice(), a, b)
}

/// A text capped at `max_bytes` of UTF-8: unchanged when it fits, else cut at
/// the last character boundary within the cap and marked.
pub open spec fn capped_text(t: Seq<char>, max_bytes: int) -> Seq<char> {
    if encode_utf8(t).len() <= max_bytes {
        t
    } else {
        t.subrange(0, utf8_cut(t, 0, 0, max_bytes)) + "…[truncated]"@
    }
}

/// Caps a text at `max_bytes` of UTF-8 (see `capped_text`).
pub fn truncate_chars(text: &str, max_bytes: usize) -> (r: String)
    ensures
        r@ == capped_text(text@, max_bytes as int),
{
    if text.as_bytes().len() <= max_bytes {
        return crate::text::owned(text);
    }
    let v = chars_of(text);
    let k = utf8_cut_exec(v.as_slice(), max_bytes);
    let mut s = string_of(v.as_slice(), 0, k);
    push_str(&mut s, "…[truncated]");
    s
}


/// Tags stripped from a fragment, then trimmed.
pub open spec fn tag_free(t: Seq<char>) -> Seq<char> {
    trim_ws(outside_tags(t, 0, false))
}

/// The snippet of a result: the text of the first `result__snippet` link
/// after `from`, or nothing.
pub open spec fn ddg_snippet(s: Seq<char>, from: int) -> Seq<char> {
    match find_seq(s, "result__snippet"@, from) {
        Some(sn) => match find_seq(s, ">"@, sn) {
            Some(so) => match find_seq(s, "</a>"@, so + 1) {
                Some(sc) => tag_free(html_unescaped(s.subrange(so + 1, sc))),
                None => Seq::empty(),
            },
            None => Seq::empty(),
        },
        None => Seq::empty(),
    }
}

/// The results of a DuckDuckGo HTML page from `cur` on, at most `max` of them
/// (at least one when there is one): each is its title, link and snippet on
/// three lines. Reading stops at the first result whose link or title is not
/// closed.
pub open spec fn ddg_results(s: Seq<char>, cur: int, max: nat) -> Seq<Seq<char>>
    decreases s.len() + 1 - cur,
{
    if cur < 0 || cur > s.len() {
        Seq::empty()
    } else {
        match find_seq(s, "result__a"@, cur) {
            None => Seq::empty(),
            Some(a) => match find_seq(s, "href=\""@, a) {
                None => Seq::empty(),
                Some(h) => {
                    let hv = h + "href=\""@.len();
                    match find_seq(s, "\""@, hv) {
                        None => Seq::empty(),
                        Some(he) => match find_seq(s, ">"@, he) {
                            None => Seq::empty(),
                            Some(tc) => match find_seq(s, "</a>"@, tc + 1) {
                                None => Seq::empty(),
                                Some(te) => {
                                    let item = tag_free(html_unescaped(s.subrange(tc + 1, te))) + "\n"@
                                        + html_unescaped(s.subrange(hv, he)) + "\n"@ + ddg_snippet(s, te);
                                    let next = te + "</a>"@.len();
                                    if max <= 1 || !(cur < next <= s.len()) {
                                        seq![item]
                                    } else {
                                        seq![item] + ddg_results(s, next, (max - 1) as nat)
                                    }
                                },
                            },
                        },
                    }
                },
            },
        }
    }
}

fn ddg_snippet_exec(v: &Vec<char>, from: usize) -> (r: String)
    requires
        from <= v@.len(),
    ensures
        r@ == ddg_snippet(v@, from as int),
{
    let n = v.len();
    let snip = chars_of("result__snippet");
    let gt = chars_of(">");
    let close = chars_of("</a>");
    proof {
        reveal_strlit(">");
        lemma_find_seq(v@, snip@, from as int);
    }
    let sn = match find_from(v.as_slice(), snip.as_slice(), from) {
        Some(sn) => sn,
        None => return String::new(),
    };
    proof { lemma_find_seq(v@, gt@, sn as int); }
    let so = match find_from(v.as_slice(), gt.as_slice(), sn) {
        Some(so) => so,
        None => return String::new(),
    };
    proof { lemma_find_seq(v@, close@, so + 1); }
    let sc = match find_from(v.as_slice(), close.as_slice(), so + 1) {
        Some(sc) => sc,
        None => return String::new(),
    };
    let frag = string_of(v.as_slice(), so + 1, sc);
    let un = html_unescape(frag.as_str());
    strip_tags(un.as_str())
}

/// Reads the results of a DuckDuckGo HTML page (see `ddg_results`).
pub fn parse_ddg_results(html: &str, max_results: usize) -> (r: Vec<String>)
    ensures
        texts(r@) == ddg_results(html@, 0, max_results as nat),
{
    let v = chars_of(html);
    let n = v.len();
    let anchor = chars_of("result__a");
    let href = chars_of("href=\"");
    let quote = chars_of("\"");
    let gt = chars_of(">");
    let close = chars_of("</a>");
    proof {
        reveal_strlit(">");
        reveal_strlit("</a>");
    }
    let mut results: Vec<String> = Vec::new();
    let mut cur: usize = 0;
    let mut rem: usize = max_results;
    loop
        invariant
            n == v@.len(),
            v@ == html@,
            cur <= n,
            anchor@ == "result__a"@,
            href@ == "href=\""@,
            quote@ == "\""@,
            gt@ == ">"@,
            close@ == "</a>"@,
            gt@.len() == 1,
            close@.len() == 4,
            texts(results@) + ddg_results(v@, cur as int, rem as nat) == ddg_results(v@, 0, max_results as nat),
        decreases n + 1 - cur,
    {
        proof { lemma_find_seq(v@, anchor@, cur as int); }
        let a = match find_from(v.as_slice(), anchor.as_slice(), cur) {
            Some(a) => a,
            None => {
                assert(texts(results@) + Seq::<Seq<char>>::empty() =~= texts(results@));
                return results;
            },
        };
        proof { lemma_find_seq(v@, href@, a as int); }
        let h = match find_from(v.as_slice(), href.as_slice(), a) {
            Some(h) => h,
            None => {
                assert(texts(results@) + Seq::<Seq<char>>::empty() =~= texts(results@));
                return results;
            },
        };
        let hv = h + href.len();
        proof { lemma_find_seq(v@, quote@, hv as int); }
        let he = match find_from(v.as_slice(), quote.as_slice(), hv) {
            Some(he) => he,
            None => {
                assert(texts(results@) + Seq::<Seq<char>>::empty() =~= texts(results@));
                return results;
            },
        };
        proof { lemma_find_seq(v@, gt@, he as int); }
        let tc = match find_from(v.as_slice(), gt.as_slice(), he) {
            Some(tc) => tc,
            None => {
                assert(texts(results@) + Seq::<Seq<char>>::empty() =~= texts(results@));
                return results;
            },
        };
        proof { lemma_find_seq(v@, close@, tc + 1); }
        let te = match find_from(v.as_slice(), close.as_slice(), tc + 1) {
            Some(te) => te,
            None => {
                assert(texts(results@) + Seq::<Seq<char>>::empty() =~= texts(results@));
                return results;
            },
        };
        let link = string_of(v.as_slice(), hv, he);
        let link = html_unescape(link.as_str());
        let frag = string_of(v.as_slice(), tc + 1, te);
        let frag = html_unescape(frag.as_str());
        let title = strip_tags(frag.as_str());
        let snippet = ddg_snippet_exec(&v, te);
        let mut item = title;
        push_str(&mut item, "\n");
        push_str(&mut item, link.as_str());
        push_str(&mut item, "\n");
        push_str(&mut item, snippet.as_str());
        let ghost before = texts(results@);
        let ghost it = item@;
        results.push(item);
        assert(texts(results@) =~= before.push(it));
        let next = te + close.len();
        if rem <= 1 {
            assert(texts(results@) =~= before + seq![it]);
            return results;
        }
        assert(texts(results@) + ddg_results(v@, next as int, (rem - 1) as nat) =~= before + (seq![it] + ddg_results(v@, next as int, (rem - 1) as nat)));
        rem = rem - 1;
        cur = next;
    }
}


/// Whether a URL with this scheme may be fetched: `http` or `https`.
pub fn fetch_scheme_allowed(scheme: &str) -> (b: bool)
    ensures
        b == (scheme@ == "http"@ || scheme@ == "https"@),
{
    let v = chars_of(scheme);
    assert(v@.subrange(0, v@.len() as int) =~= v@);
    range_eq_str(v.as_slice(), 0, v.len(), "http") || range_eq_str(v.as_slice(), 0, v.len(), "https")
}

/// The text kept of a fetched body: decoded (invalid UTF-8 replaced), made
/// readable when the content type names HTML, and capped at `max_bytes`.
pub open spec fn fetched_text(content_type: Seq<char>, body: Seq<u8>, max_bytes: int) -> Seq<char> {
    let text = utf8_lossy(body);
    capped_text(if contains_seq(content_type, "html"@) { stripped_html(text) } else { text }, max_bytes)
}

/// The text kept of a fetched body (see `fetched_text`).
pub fn fetch_text(content_type: &str, body: &[u8], max_bytes: usize) -> (r: String)
    ensures
        r@ == fetched_text(content_type@, body@, max_bytes as int),
{
    let text = lossy_text(body);
    let ct = chars_of(content_type);
    if contains_str(ct.as_slice(), "html") {
        let page = strip_html(text.as_str());
        truncate_chars(page.as_str(), max_bytes)
    } else {
        truncate_chars(text.as_str(), max_bytes)
    }
}

/// A search query as sent: trimmed, and refused when nothing is left.
pub fn search_query(query: &str) -> (r: Result<String, String>)
    ensures
        match r {
            Ok(q) => q@ == trim_ws(query@) && q@.len() > 0,
            Err(e) => e@ == "query must not be empty"@ && trim_ws(query@).len() == 0,
        },
{
    let q = trim_str(query);
    if q.as_str().unicode_len() == 0 {
        Err(crate::text::owned("query must not be empty"))
    } else {
        Ok(q)
    }
}

/// How many results a search asks for: the request clamped to 1..=20.
pub open spec fn limit_of(max_results: int) -> int {
    if max_results < 1 { 1 } else if max_results > 20 { 20 } else { max_results }
}

/// How many results a search asks for (see `limit_of`).
pub fn result_limit(max_results: usize) -> (n: usize)
    ensures
        n == limit_of(max_results as int),
{
    if max_results < 1 { 1 } else if max_results > 20 { 20 } else { max_results }
}

/// One result of a SearXNG search, by the string fields it had.
pub struct SearchHit {
    pub title: Option<String>,
    pub url: Option<String>,
    pub content: Option<String>,
}

/// A result as printed: title (or `(untitled)`), link and snippet on three lines.
pub open spec fn hit_text(title: Option<Seq<char>>, url: Option<Seq<char>>, content: Option<Seq<char>>) -> Seq<char> {
    let t = match title { Some(t) => t, None => "(untitled)"@ };
    let u = match url { Some(u) => u, None => Seq::empty() };
    let c = match content { Some(c) => c, None => Seq::empty() };
    t + "\n"@ + u + "\n"@ + c
}

/// The text of a hit (see `hit_text`).
pub open spec fn hit_view(h: SearchHit) -> Seq<char> {
    hit_text(ot(h.title), ot(h.url), ot(h.content))
}

/// The answer to a search from its hits: the first `limit_of(max_results)`
/// of them printed and separated by blank lines, or an error when none.
pub open spec fn searxng_text(hits: Seq<SearchHit>, max_results: int) -> Result<Seq<char>, Seq<char>> {
    let k = if hits.len() < limit_of(max_results) { hits.len() as int } else { limit_of(max_results) };
    if k == 0 {
        Err("no results for query"@)
    } else {
        Ok(join(hits.subrange(0, k).map_values(|h: SearchHit| hit_view(h)), "\n\n"@))
    }
}

fn push_opt(out: &mut String, o: &Option<String>, default: &str)
    ensures
        final(out)@ == old(out)@ + match ot(*o) { Some(t) => t, None => default@ },
{
    match o {
        Some(t) => push_str(out, t.as_str()),
        None => push_str(out, default),
    }
}

/// The answer to a search from its hits (see `searxng_text`).
pub fn format_searxng_results(hits: &Vec<SearchHit>, max_results: usize) -> (r: Result<String, String>)
    ensures
        match (r, searxng_text(hits@, max_results as int)) {
            (Ok(t), Ok(u)) => t@ == u,
            (Err(e), Err(u)) => e@ == u,
            _ => false,
        },
{
    let limit = result_limit(max_results);
    let k = if hits.len() < limit { hits.len() } else { limit };
    if k == 0 {
        return Err(crate::text::owned("no results for query"));
    }
    let mut items: Vec<String> = Vec::new();
    let mut i: usize = 0;
    while i < k
        invariant
            k <= hits@.len(),
            i <= k,
            texts(items@) == hits@.subrange(0, i as int).map_values(|h: SearchHit| hit_view(h)),
        decreases k - i,
    {
        let h = &hits[i];
        let mut s = String::new();
        push_opt(&mut s, &h.title, "(untitled)");
        push_str(&mut s, "\n");
        push_opt(&mut s, &h.url, "");
        push_str(&mut s, "\n");
        push_opt(&mut s, &h.content, "");
        proof {
            reveal_strlit("");
            assert(""@ =~= Seq::<char>::empty());
        }
        assert(s@ == hit_view(hits@[i as int]));
        let ghost before = texts(items@);
        let ghost sv = s@;
        items.push(s);
        assert(texts(items@) =~= before.push(sv));
        assert(hits@.subrange(0, i + 1).map_values(|h: SearchHit| hit_view(h))
            =~= hits@.subrange(0, i as int).map_values(|h: SearchHit| hit_view(h)).push(hit_view(hits@[i as int])));
        i += 1;
    }
    let mut out = String::new();
    push_joined(&mut out, &items, "\n\n");
    assert(out@ =~= join(texts(items@), "\n\n"@));
    Ok(out)
}

/// The answer to a DuckDuckGo search from its result page: the results read
/// (at most `limit_of(max_results)`) separated by blank lines, or an error
/// when there are none.
pub open spec fn ddg_text(body: Seq<char>, max_results: int) -> Result<Seq<char>, Seq<char>> {
    let rs = ddg_results(body, 0, limit_of(max_results) as nat);
    if rs.len() == 0 { Err("no results for query"@) } else { Ok(join(rs, "\n\n"@)) }
}

/// The answer to a DuckDuckGo search (see `ddg_text`).
pub fn ddg_search_text(body: &str, max_results: usize) -> (r: Result<String, String>)
    ensures
        match (r, ddg_text(body@, max_results as int)) {
            (Ok(t), Ok(u)) => t@ == u,
            (Err(e), Err(u)) => e@ == u,
            _ => false,
        },
{
    let results = parse_ddg_results(body, result_limit(max_results));
    if results.len() == 0 {
        return Err(crate::text::owned("no results for query"));
    }
    let mut out = String::new();
    push_joined(&mut out, &results, "\n\n");
    assert(out@ =~= join(texts(results@), "\n\n"@));
    Ok(out)
}

} // verus!
