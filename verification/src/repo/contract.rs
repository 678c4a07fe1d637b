//! The task contract: the signatures, type invariants and behavioral
//! requirements that a task description states, extracted deterministically.
use vstd::prelude::*;
use crate::text::{chars_of, owned, push_str, push_char, string_of, has_prefix, is_ws, is_whitespace, utf8_len, utf8_prefix_len};
use crate::repo::spec::{SelfKind, self_kind_of, self_kind_text};
use crate::repo::context::{join, push_joined, texts};
use crate::ui::engine::widgets::{split_lines, text_lines};
use crate::textops::{
    trim_ws, trim_bounds, replace_char, replaced_range, has_suffix, ends_with, starts_with_str, sub_vec,
    unicode_alphanumeric, unicode_alphabetic, is_alphanumeric, is_alphabetic, contains_seq, contains_str,
    unicode_lowercase, to_lowercase, has_char, has_char_exec, index_of, index_of_char, lemma_index_of,
    strip_prefixes, range_eq_str,
};

verus! {

/// One typed parameter of a required signature.
#[derive(Debug, Clone, PartialEq, Eq)]
pub struct ParamSpec {
    pub name: String,
    pub param_type: String,
}

/// A parameter as name and type.
pub type ParamView = (Seq<char>, Seq<char>);

/// The view of a parameter.
pub open spec fn param_view(p: ParamSpec) -> ParamView {
    (p.name@, p.param_type@)
}

/// The views of parameters.
pub open spec fn params_view(ps: Seq<ParamSpec>) -> Seq<ParamView> {
    ps.map_values(|p: ParamSpec| param_view(p))
}

/// Where a type token that starts at `i` ends: at a `,`, `;`, `.`, `)`,
/// `]`, blank or unmatched `>` outside angle brackets, or at the end.
pub open spec fn type_token_end(s: Seq<char>, i: int, angle: nat) -> int
    decreases s.len() - i,
{
    if i < 0 || i >= s.len() {
        i
    } else {
        let c = s[i];
        if c == '<' {
            type_token_end(s, i + 1, angle + 1)
        } else if c == '>' {
            if angle == 0 { i } else { type_token_end(s, i + 1, (angle - 1) as nat) }
        } else if (c == ',' || c == ';' || c == '.' || c == ')' || c == ']') && angle == 0 {
            i
        } else if is_ws(c) && angle == 0 {
            i
        } else {
            type_token_end(s, i + 1, angle)
        }
    }
}

proof fn lemma_type_token_end(s: Seq<char>, i: int, angle: nat)
    requires
        0 <= i <= s.len(),
    ensures
        i <= type_token_end(s, i, angle) <= s.len(),
    decreases s.len() - i,
{
    if i < s.len() {
        let c = s[i];
        if c == '<' {
            lemma_type_token_end(s, i + 1, angle + 1);
        } else if c == '>' {
            if angle != 0 {
                lemma_type_token_end(s, i + 1, (angle - 1) as nat);
            }
        } else if !((c == ',' || c == ';' || c == '.' || c == ')' || c == ']') && angle == 0) && !(is_ws(c) && angle == 0) {
            lemma_type_token_end(s, i + 1, angle);
        }
    }
}

/// Reads one balanced type token at `start` (`u64`, `Result<A, B>`, ...):
/// the trimmed token and the index just after it.
pub fn read_type_token(chars: &[char], start: usize) -> (r: (String, usize))
    requires
        start <= chars@.len(),
    ensures
        r.1 == type_token_end(chars@, start as int, 0),
        r.0@ == trim_ws(chars@.subrange(start as int, r.1 as int)),
{
    let mut angle: usize = 0;
    let mut s = start;
    proof { lemma_type_token_end(chars@, start as int, 0); }
    while s < chars.len()
        invariant
            start <= s <= chars@.len(),
            angle <= s,
            type_token_end(chars@, s as int, angle as nat) == type_token_end(chars@, start as int, 0),
        ensures
            start <= s <= chars@.len(),
            s == type_token_end(chars@, start as int, 0),
        decreases chars@.len() - s,
    {
        let c = chars[s];
        if c == '<' {
            angle += 1;
        } else if c == '>' {
            if angle == 0 {
                break;
            }
            angle -= 1;
        } else if (c == ',' || c == ';' || c == '.' || c == ')' || c == ']') && angle == 0 {
            break;
        } else if is_whitespace(c) && angle == 0 {
            break;
        }
        s += 1;
    }
    let (a, b) = trim_bounds(chars, start, s);
    (string_of(chars, a, b), s)
}

/// The pieces of a parameter list split at commas outside `<...>` and
/// `(...)`; a last piece that is blank is dropped.
pub open spec fn top_level_pieces(s: Seq<char>, i: int, start: int, angle: nat, paren: nat) -> Seq<Seq<char>>
    decreases s.len() - i,
{
    if i < 0 || i >= s.len() || start < 0 || start > i {
        let cur = s.subrange(start, s.len() as int);
        if trim_ws(cur).len() > 0 { seq![cur] } else { Seq::empty() }
    } else {
        let c = s[i];
        if c == '<' {
            top_level_pieces(s, i + 1, start, angle + 1, paren)
        } else if c == '>' {
            top_level_pieces(s, i + 1, start, if angle > 0 { (angle - 1) as nat } else { 0 }, paren)
        } else if c == '(' {
            top_level_pieces(s, i + 1, start, angle, paren + 1)
        } else if c == ')' {
            top_level_pieces(s, i + 1, start, angle, if paren > 0 { (paren - 1) as nat } else { 0 })
        } else if c == ',' && angle == 0 && paren == 0 {
            seq![s.subrange(start, i)] + top_level_pieces(s, i + 1, i + 1, 0, 0)
        } else {
            top_level_pieces(s, i + 1, start, angle, paren)
        }
    }
}

/// Splits a parameter list at its top-level commas (see `top_level_pieces`).
pub fn split_top_level_commas(s: &[char]) -> (parts: Vec<String>)
    ensures
        parts@.map_values(|p: String| p@) == top_level_pieces(s@, 0, 0, 0, 0),
{
    let mut parts: Vec<String> = Vec::new();
    let mut start: usize = 0;
    let mut angle: usize = 0;
    let mut paren: usize = 0;
    let mut i: usize = 0;
    while i < s.len()
        invariant
            start <= i <= s@.len(),
            angle <= i,
            paren <= i,
            parts@.map_values(|p: String| p@) + top_level_pieces(s@, i as int, start as int, angle as nat, paren as nat)
                == top_level_pieces(s@, 0, 0, 0, 0),
        decreases s@.len() - i,
    {
        let c = s[i];
        if c == '<' {
            angle += 1;
        } else if c == '>' {
            if angle > 0 {
                angle -= 1;
            }
        } else if c == '(' {
            paren += 1;
        } else if c == ')' {
            if paren > 0 {
                paren -= 1;
            }
        } else if c == ',' && angle == 0 && paren == 0 {
            let ghost before = parts@.map_values(|p: String| p@);
            let ghost later = top_level_pieces(s@, i + 1, i + 1, 0, 0);
            parts.push(string_of(s, start, i));
            assert(parts@.map_values(|p: String| p@) =~= before.push(s@.subrange(start as int, i as int)));
            assert(before.push(s@.subrange(start as int, i as int)) + later
                =~= before + (seq![s@.subrange(start as int, i as int)] + later));
            start = i + 1;
        }
        i += 1;
    }
    let (a, b) = trim_bounds(s, start, s.len());
    let ghost before = parts@.map_values(|p: String| p@);
    if b > a {
        parts.push(string_of(s, start, s.len()));
        assert(parts@.map_values(|p: String| p@) =~= before + seq![s@.subrange(start as int, s@.len() as int)]);
    } else {
        assert(before + Seq::<Seq<char>>::empty() =~= before);
    }
    parts
}

/// An identifier: a letter or `_`, then letters, digits or `_`.
pub open spec fn is_ident_text(s: Seq<char>) -> bool {
    &&& s.len() > 0
    &&& (unicode_alphabetic(s[0]) || s[0] == '_')
    &&& forall|i: int| 0 <= i < s.len() ==> unicode_alphanumeric(#[trigger] s[i]) || s[i] == '_'
}

/// Whether `v[a..b]` is an identifier (see `is_ident_text`).
pub fn is_ident(v: &[char], a: usize, b: usize) -> (r: bool)
    requires
        a <= b <= v@.len(),
    ensures
        r == is_ident_text(v@.subrange(a as int, b as int)),
{
    let ghost s = v@.subrange(a as int, b as int);
    if a == b {
        return false;
    }
    if !(is_alphabetic(v[a]) || v[a] == '_') {
        assert(s[0] == v@[a as int]);
        return false;
    }
    let mut i = a;
    while i < b
        invariant
            a <= i <= b <= v@.len(),
            s == v@.subrange(a as int, b as int),
            forall|k: int| 0 <= k < i - a ==> unicode_alphanumeric(#[trigger] s[k]) || s[k] == '_',
        decreases b - i,
    {
        if !(is_alphanumeric(v[i]) || v[i] == '_') {
            assert(s[i - a] == v@[i as int]);
            return false;
        }
        assert(s[i - a] == v@[i as int]);
        i += 1;
    }
    assert(s[0] == v@[a as int]);
    true
}

/// Where the word that starts at `i` ends: at the next blank or the end.
pub open spec fn word_end(s: Seq<char>, i: int) -> int
    decreases s.len() - i,
{
    if i < 0 || i >= s.len() || is_ws(s[i]) { i } else { word_end(s, i + 1) }
}

proof fn lemma_word_end(s: Seq<char>, i: int)
    requires
        0 <= i <= s.len(),
    ensures
        i <= word_end(s, i) <= s.len(),
        forall|k: int| i <= k < word_end(s, i) ==> !is_ws(#[trigger] s[k]),
    decreases s.len() - i,
{
    if i < s.len() && !is_ws(s[i]) {
        lemma_word_end(s, i + 1);
    }
}

/// The words of a text from `i` on (`str::split_whitespace`).
pub open spec fn words_from(s: Seq<char>, i: int) -> Seq<Seq<char>>
    decreases s.len() - i,
{
    if i < 0 || i >= s.len() {
        Seq::empty()
    } else if is_ws(s[i]) {
        words_from(s, i + 1)
    } else {
        let e = word_end(s, i);
        if i < e <= s.len() { seq![s.subrange(i, e)] + words_from(s, e) } else { Seq::empty() }
    }
}

/// Characters kept at the ends of a path-like token.
pub open spec fn path_char(c: char) -> bool {
    unicode_alphanumeric(c) || c == '.' || c == '/' || c == '_' || c == '-' || c == '\\'
}

/// A token without the non-path characters at its ends.
pub open spec fn path_core(s: Seq<char>) -> Seq<char>
    decreases s.len(),
{
    if s.len() > 0 && !path_char(s[0]) {
        path_core(s.drop_first())
    } else if s.len() > 0 && !path_char(s.last()) {
        path_core(s.drop_last())
    } else {
        s
    }
}

/// The first `.rs` token under `src/` among `toks`, else the first `.rs`
/// token at all (`fallback` is the one seen so far), with slashes.
pub open spec fn target_file(toks: Seq<Seq<char>>, fallback: Option<Seq<char>>) -> Option<Seq<char>>
    decreases toks.len(),
{
    if toks.len() == 0 {
        fallback
    } else {
        let clean = path_core(toks[0]);
        if has_suffix(clean, ".rs"@) {
            let cand = replace_char(clean, '\\', '/');
            if has_prefix(cand, "src/"@) {
                Some(cand)
            } else {
                target_file(toks.drop_first(), if fallback is None { Some(cand) } else { fallback })
            }
        } else {
            target_file(toks.drop_first(), fallback)
        }
    }
}

fn is_path_char(c: char) -> (b: bool)
    ensures
        b == path_char(c),
{
    is_alphanumeric(c) || c == '.' || c == '/' || c == '_' || c == '-' || c == '\\'
}

fn path_core_bounds(v: &[char], lo: usize, hi: usize) -> (r: (usize, usize))
    requires
        lo <= hi <= v@.len(),
    ensures
        lo <= r.0 <= r.1 <= hi,
        v@.subrange(r.0 as int, r.1 as int) == path_core(v@.subrange(lo as int, hi as int)),
{
    let mut a = lo;
    let mut b = hi;
    while a < b && (!is_path_char(v[a]) || !is_path_char(v[b - 1]))
        invariant
            lo <= a <= b <= hi <= v@.len(),
            path_core(v@.subrange(a as int, b as int)) == path_core(v@.subrange(lo as int, hi as int)),
        decreases b - a,
    {
        let ghost s = v@.subrange(a as int, b as int);
        if !is_path_char(v[a]) {
            assert(s[0] == v@[a as int]);
            assert(s.drop_first() =~= v@.subrange(a + 1, b as int));
            a += 1;
        } else {
            assert(s[0] == v@[a as int]);
            assert(s.last() == v@[b - 1]);
            assert(s.drop_last() =~= v@.subrange(a as int, b - 1));
            b -= 1;
        }
    }
    proof {
        let s = v@.subrange(a as int, b as int);
        if a < b {
            assert(s[0] == v@[a as int]);
            assert(s.last() == v@[b - 1]);
        }
    }
    (a, b)
}

/// The target file a task line mentions (see `target_file`).
pub fn detect_target_file(line: &[char]) -> (r: Option<String>)
    ensures
        match r {
            Some(f) => target_file(words_from(line@, 0), None) == Some(f@),
            None => target_file(words_from(line@, 0), None) is None,
        },
{
    let n = line.len();
    let mut fallback: Option<String> = None;
    let mut i: usize = 0;
    let rs = chars_of(".rs");
    let src = chars_of("src/");
    while i < n
        invariant
            i <= n == line@.len(),
            rs@ == ".rs"@,
            src@ == "src/"@,
            target_file(words_from(line@, i as int), match fallback { Some(f) => Some(f@), None => None::<Seq<char>> })
                == target_file(words_from(line@, 0), None),
        decreases n - i,
    {
        if is_whitespace(line[i]) {
            i += 1;
            continue;
        }
        let mut e = i;
        while e < n && !is_whitespace(line[e])
            invariant
                i <= e <= n == line@.len(),
                word_end(line@, e as int) == word_end(line@, i as int),
            decreases n - e,
        {
            e += 1;
        }
        proof {
            lemma_word_end(line@, i as int);
            assert(e > i);
        }
        let (a, b) = path_core_bounds(line, i, e);
        let clean = sub_vec(line, a, b);
        let ghost toks = words_from(line@, i as int);
        assert(toks == seq![line@.subrange(i as int, e as int)] + words_from(line@, e as int));
        assert(toks.drop_first() =~= words_from(line@, e as int));
        if ends_with(clean.as_slice(), rs.as_slice()) {
            let cand = replaced_range(clean.as_slice(), 0, clean.len(), '\\', '/');
            assert(clean@.subrange(0, clean@.len() as int) =~= clean@);
            let cv = chars_of(cand.as_str());
            if crate::text::starts_with(cv.as_slice(), src.as_slice()) {
                return Some(cand);
            }
            if fallback.is_none() {
                fallback = Some(cand);
            }
        }
        i = e;
    }
    fallback
}


/// A required method: where, on which type, its name, its rendering, its
/// receiver, its parameters and its return type.
#[derive(Debug, Clone, PartialEq, Eq)]
pub struct RequiredMethod {
    pub file: Option<String>,
    /// Owning type when the requirement names one explicitly (`User::new`).
    pub owner: Option<String>,
    pub fn_name: String,
    pub raw_signature: String,
    /// Receiver when the requirement is a method (`&self`, `&mut self`, ...).
    pub self_kind: Option<String>,
    pub params: Vec<ParamSpec>,
    pub return_type: Option<String>,
}

/// An optional text.
pub open spec fn ot(o: Option<String>) -> Option<Seq<char>> {
    match o {
        Some(s) => Some(s@),
        None => None,
    }
}

/// A required method as file, owner, name, rendering, receiver,
/// parameters and return type.
pub type MethodView = (Option<Seq<char>>, Option<Seq<char>>, Seq<char>, Seq<char>, Option<Seq<char>>, Seq<ParamView>, Option<Seq<char>>);

/// The view of a required method.
pub open spec fn method_view(m: RequiredMethod) -> MethodView {
    (ot(m.file), ot(m.owner), m.fn_name@, m.raw_signature@, ot(m.self_kind), params_view(m.params@), ot(m.return_type))
}

/// Back over blanks from `j`.
pub open spec fn skip_ws_back(s: Seq<char>, j: int) -> int
    decreases j,
{
    if 0 < j <= s.len() && is_ws(s[j - 1]) { skip_ws_back(s, j - 1) } else { j }
}

/// Forward over blanks from `m`.
pub open spec fn skip_ws_fwd(s: Seq<char>, m: int) -> int
    decreases s.len() - m,
{
    if 0 <= m < s.len() && is_ws(s[m]) { skip_ws_fwd(s, m + 1) } else { m }
}

/// A character of a name.
pub open spec fn name_char(c: char) -> bool {
    unicode_alphanumeric(c) || c == '_'
}

/// The start of the (possibly `::`-qualified) name that ends at `j`.
pub open spec fn name_start(s: Seq<char>, j: int) -> int
    decreases j,
{
    if j <= 0 || j > s.len() {
        j
    } else if name_char(s[j - 1]) {
        name_start(s, j - 1)
    } else if s[j - 1] == ':' && j >= 2 && s[j - 2] == ':' {
        name_start(s, j - 2)
    } else {
        j
    }
}

/// The last position at or below `k` where `::` starts.
pub open spec fn last_path_sep(s: Seq<char>, k: int) -> Option<int>
    decreases k + 1,
{
    if k < 0 {
        None
    } else if k + 1 < s.len() && s[k] == ':' && s[k + 1] == ':' {
        Some(k)
    } else {
        last_path_sep(s, k - 1)
    }
}

/// Words that are never taken for a required function's name.
pub open spec fn is_keyword(n: Seq<char>) -> bool {
    ||| n == "if"@ ||| n == "for"@ ||| n == "while"@ ||| n == "match"@ ||| n == "loop"@
    ||| n == "in"@ ||| n == "fn"@ ||| n == "metodo"@ ||| n == "r"@
}

/// The `)` closing the `(` at `k` (nesting counted from `depth`).
pub open spec fn close_paren(s: Seq<char>, k: int, depth: int) -> Option<int>
    decreases s.len() - k,
{
    if k < 0 || k >= s.len() {
        None
    } else if s[k] == '(' {
        close_paren(s, k + 1, depth + 1)
    } else if s[k] == ')' {
        if depth - 1 == 0 { Some(k) } else { close_paren(s, k + 1, depth - 1) }
    } else {
        close_paren(s, k + 1, depth)
    }
}

/// The receiver and typed parameters of the pieces from `i` on, or `None`
/// when a piece is neither a receiver nor `name: Type`.
pub open spec fn parse_params(parts: Seq<Seq<char>>, i: int, sk: Option<SelfKind>, ps: Seq<ParamView>) -> Option<(Option<SelfKind>, Seq<ParamView>)>
    decreases parts.len() - i,
{
    if i < 0 || i >= parts.len() {
        Some((sk, ps))
    } else {
        let p = trim_ws(parts[i]);
        if p.len() == 0 {
            parse_params(parts, i + 1, sk, ps)
        } else if self_kind_of(trim_ws(p)) is Some {
            parse_params(parts, i + 1, self_kind_of(trim_ws(p)), ps)
        } else {
            let colon = index_of(p, ':', 0);
            if colon < p.len() {
                let n = trim_ws(p.subrange(0, colon));
                let t = trim_ws(p.subrange(colon + 1, p.len() as int));
                if is_ident_text(n) && t.len() > 0 {
                    parse_params(parts, i + 1, sk, ps.push((trim_ws(strip_prefixes(n, "mut "@)), t)))
                } else {
                    None
                }
            } else {
                None
            }
        }
    }
}

/// The rendering of the arguments of a signature.
pub open spec fn arg_texts(sk: Option<SelfKind>, ps: Seq<ParamView>) -> Seq<Seq<char>> {
    (match sk { Some(k) => seq![self_kind_text(k)], None => Seq::empty() })
        + ps.map_values(|p: ParamView| p.0 + ": "@ + p.1)
}

/// The return type after `->` at the first non-blank from `after`, and
/// where the signature ends.
pub open spec fn return_part(s: Seq<char>, after: int) -> (Option<Seq<char>>, int) {
    let m = skip_ws_fwd(s, after);
    if m + 1 < s.len() && s[m] == '-' && s[m + 1] == '>' {
        let n = skip_ws_fwd(s, m + 2);
        let e = type_token_end(s, n, 0);
        let tok = trim_ws(s.subrange(n, e));
        if tok.len() > 0 { (Some(tok), e) } else { (None, after) }
    } else {
        (None, after)
    }
}

/// The signature whose `(` is at `open`: a name right before it, a
/// balanced parameter list of receivers and `name: Type` parameters (at
/// least one), and an optional return type token; with the index after it.
pub open spec fn signature_at(s: Seq<char>, open: int) -> Option<(int, MethodView)> {
    let j0 = skip_ws_back(s, open);
    if j0 <= 0 || j0 > s.len() || !name_char(s[j0 - 1]) {
        None
    } else {
        let j = name_start(s, j0);
        let full = s.subrange(j, j0);
        let split = last_path_sep(full, full.len() - 2);
        let owner = match split { Some(k) => Some(full.subrange(0, k)), None => None };
        let name = match split { Some(k) => full.subrange(k + 2, full.len() as int), None => full };
        if name.len() == 0 || is_keyword(name) || ('0' <= name[0] && name[0] <= '9') {
            None
        } else {
            match close_paren(s, open, 0) {
                None => None,
                Some(k) => match parse_params(top_level_pieces(s.subrange(open + 1, k), 0, 0, 0, 0), 0, None, Seq::empty()) {
                    None => None,
                    Some(pp) => if pp.0 is None && pp.1.len() == 0 {
                        None
                    } else {
                        let rp = return_part(s, k + 1);
                        let raw = name + "("@ + join(arg_texts(pp.0, pp.1), ", "@) + ")"@
                            + (match rp.0 { Some(r) => " -> "@ + r, None => Seq::empty() });
                        let ctx = s.subrange(if j >= 80 { j - 80 } else { 0 }, j);
                        Some((rp.1, (target_file(words_from(ctx, 0), None), owner, name, raw,
                            match pp.0 { Some(k2) => Some(self_kind_text(k2)), None => None }, pp.1, rp.0)))
                    },
                },
            }
        }
    }
}


fn text_of(v: &Vec<char>) -> (s: String)
    ensures
        s@ == v@,
{
    assert(v@.subrange(0, v@.len() as int) =~= v@);
    string_of(v.as_slice(), 0, v.len())
}

fn keyword(v: &Vec<char>) -> (b: bool)
    ensures
        b == is_keyword(v@),
{
    let n = v.len();
    assert(v@.subrange(0, n as int) =~= v@);
    range_eq_str(v.as_slice(), 0, n, "if") || range_eq_str(v.as_slice(), 0, n, "for")
        || range_eq_str(v.as_slice(), 0, n, "while") || range_eq_str(v.as_slice(), 0, n, "match")
        || range_eq_str(v.as_slice(), 0, n, "loop") || range_eq_str(v.as_slice(), 0, n, "in")
        || range_eq_str(v.as_slice(), 0, n, "fn") || range_eq_str(v.as_slice(), 0, n, "metodo")
        || range_eq_str(v.as_slice(), 0, n, "r")
}

fn skip_blanks(s: &[char], m: usize) -> (r: usize)
    requires
        m <= s@.len(),
    ensures
        r == skip_ws_fwd(s@, m as int),
        m <= r <= s@.len(),
{
    let mut r = m;
    while r < s.len() && is_whitespace(s[r])
        invariant
            m <= r <= s@.len(),
            skip_ws_fwd(s@, r as int) == skip_ws_fwd(s@, m as int),
        decreases s@.len() - r,
    {
        r += 1;
    }
    r
}

/// Parses the parameter pieces (see `parse_params`).
fn parse_param_parts(parts: &Vec<String>) -> (r: Option<(Option<SelfKind>, Vec<ParamSpec>)>)
    ensures
        match r {
            Some((sk, ps)) => parse_params(parts@.map_values(|p: String| p@), 0, None, Seq::empty())
                == Some((sk, params_view(ps@))),
            None => parse_params(parts@.map_values(|p: String| p@), 0, None, Seq::empty()) is None,
        },
{
    let ghost pv = parts@.map_values(|p: String| p@);
    let mut sk: Option<SelfKind> = None;
    let mut ps: Vec<ParamSpec> = Vec::new();
    let mut i: usize = 0;
    assert(params_view(ps@) =~= Seq::<ParamView>::empty());
    while i < parts.len()
        invariant
            i <= parts@.len(),
            pv == parts@.map_values(|p: String| p@),
            parse_params(pv, i as int, sk, params_view(ps@)) == parse_params(pv, 0, None, Seq::empty()),
        decreases parts@.len() - i,
    {
        assert(pv[i as int] == parts@[i as int]@);
        let pc = chars_of(parts[i].as_str());
        let (a, b) = trim_bounds(pc.as_slice(), 0, pc.len());
        assert(pc@.subrange(0, pc@.len() as int) =~= pc@);
        let p = sub_vec(pc.as_slice(), a, b);
        if p.len() == 0 {
            i += 1;
            continue;
        }
        let pt = text_of(&p);
        let k = SelfKind::parse(pt.as_str());
        if k.is_some() {
            sk = k;
            i += 1;
            continue;
        }
        let colon = index_of_char(p.as_slice(), ':', 0);
        proof { lemma_index_of(p@, ':', 0); }
        if colon == p.len() {
            return None;
        }
        let (na, nb) = trim_bounds(p.as_slice(), 0, colon);
        let (ta, tb) = trim_bounds(p.as_slice(), colon + 1, p.len());
        if !(is_ident(p.as_slice(), na, nb) && tb > ta) {
            return None;
        }
        let nv = sub_vec(p.as_slice(), na, nb);
        let k2 = strip_mut(&nv);
        let (ma, mb) = trim_bounds(nv.as_slice(), k2, nv.len());
        let ghost before = params_view(ps@);
        ps.push(ParamSpec { name: string_of(nv.as_slice(), ma, mb), param_type: string_of(p.as_slice(), ta, tb) });
        assert(params_view(ps@) =~= before.push((trim_ws(strip_prefixes(nv@, "mut "@)), trim_ws(p@.subrange(colon + 1, p@.len() as int)))));
        i += 1;
    }
    Some((sk, ps))
}

fn strip_mut(t: &Vec<char>) -> (k: usize)
    ensures
        k <= t@.len(),
        t@.subrange(k as int, t@.len() as int) == strip_prefixes(t@, "mut "@),
{
    proof { reveal_strlit("mut "); }
    let mut i: usize = 0;
    assert(t@.subrange(0, t@.len() as int) =~= t@);
    while i < t.len() && t.len() - i >= 4 && t[i] == 'm' && t[i + 1] == 'u' && t[i + 2] == 't' && t[i + 3] == ' '
        invariant
            i <= t@.len(),
            "mut "@ == seq!['m', 'u', 't', ' '],
            strip_prefixes(t@.subrange(i as int, t@.len() as int), "mut "@) == strip_prefixes(t@, "mut "@),
        decreases t@.len() - i,
    {
        let ghost s = t@.subrange(i as int, t@.len() as int);
        assert(s.subrange(0, 4) =~= seq!['m', 'u', 't', ' ']);
        assert(s.subrange(4, s.len() as int) =~= t@.subrange(i + 4, t@.len() as int));
        i += 4;
    }
    proof {
        let s = t@.subrange(i as int, t@.len() as int);
        if s.len() >= 4 && has_prefix(s, "mut "@) {
            assert(s.subrange(0, 4)[0] == s[0] && s.subrange(0, 4)[1] == s[1]);
            assert(s.subrange(0, 4)[2] == s[2] && s.subrange(0, 4)[3] == s[3]);
            assert(s[0] == t@[i as int] && s[1] == t@[i + 1] && s[2] == t@[i + 2] && s[3] == t@[i + 3]);
        }
    }
    i
}

fn push_args(out: &mut String, sk: Option<SelfKind>, ps: &Vec<ParamSpec>)
    ensures
        final(out)@ == old(out)@ + join(arg_texts(sk, params_view(ps@)), ", "@),
{
    let ghost start = out@;
    let ghost all = arg_texts(sk, params_view(ps@));
    let ghost maps = params_view(ps@).map_values(|p: ParamView| p.0 + ": "@ + p.1);
    let ghost mut count: int = 0;
    let mut first = true;
    match sk {
        Some(k) => {
            push_str(out, k.as_str());
            proof { count = 1; }
            first = false;
        },
        None => {},
    }
    let ghost pre = match sk { Some(k) => seq![self_kind_text(k)], None => Seq::<Seq<char>>::empty() };
    assert(all == pre + maps);
    assert(all.subrange(0, count) =~= pre);
    assert(out@ == start + join(all.subrange(0, count), ", "@));
    let mut i: usize = 0;
    while i < ps.len()
        invariant
            i <= ps@.len(),
            count == pre.len() + i,
            first == (count == 0),
            all == pre + maps,
            maps == params_view(ps@).map_values(|p: ParamView| p.0 + ": "@ + p.1),
            all.len() == pre.len() + ps@.len(),
            out@ == start + join(all.subrange(0, count), ", "@),
        decreases ps@.len() - i,
    {
        let ghost sub = all.subrange(0, count + 1);
        assert(sub.drop_last() =~= all.subrange(0, count));
        assert(sub.last() == ps@[i as int].name@ + ": "@ + ps@[i as int].param_type@);
        if !first {
            push_str(out, ", ");
        } else {
            assert(all.subrange(0, 0) =~= Seq::<Seq<char>>::empty());
        }
        push_str(out, ps[i].name.as_str());
        push_str(out, ": ");
        push_str(out, ps[i].param_type.as_str());
        assert(out@ =~= start + join(sub, ", "@));
        proof { count = count + 1; }
        first = false;
        i += 1;
    }
    assert(all.subrange(0, count) =~= all);
}

/// The signature whose `(` is at `open_idx`, with the index after it (see
/// `signature_at`).
pub fn try_parse_signature_at(chars: &[char], open_idx: usize) -> (r: Option<(usize, RequiredMethod)>)
    requires
        open_idx < chars@.len(),
        chars@[open_idx as int] == '(',
    ensures
        match r {
            Some((e, m)) => signature_at(chars@, open_idx as int) == Some((e as int, method_view(m))),
            None => signature_at(chars@, open_idx as int) is None,
        },
{
    let ghost s = chars@;
    let n = chars.len();
    let mut j = open_idx;
    while j > 0 && is_whitespace(chars[j - 1])
        invariant
            j <= open_idx < n == s.len(),
            s == chars@,
            skip_ws_back(s, j as int) == skip_ws_back(s, open_idx as int),
        decreases j,
    {
        j -= 1;
    }
    if j == 0 || !(is_alphanumeric(chars[j - 1]) || chars[j - 1] == '_') {
        return None;
    }
    let name_end = j;
    loop
        invariant
            j <= name_end <= open_idx < n == s.len(),
            s == chars@,
            name_start(s, j as int) == name_start(s, name_end as int),
        ensures
            j <= name_end,
            j == name_start(s, name_end as int),
        decreases j,
    {
        if j == 0 {
            break;
        }
        let c = chars[j - 1];
        if is_alphanumeric(c) || c == '_' {
            j -= 1;
        } else if c == ':' && j >= 2 && chars[j - 2] == ':' {
            j -= 2;
        } else {
            break;
        }
    }
    let full = sub_vec(chars, j, name_end);
    let fl = full.len();
    let mut k: usize = if fl >= 2 { fl - 2 } else { 0 };
    let mut split: Option<usize> = None;
    if fl >= 2 {
        loop
            invariant_except_break
                split is None,
            invariant
                fl == full@.len(),
                fl >= 2,
                k <= fl - 2,
                last_path_sep(full@, k as int) == last_path_sep(full@, fl - 2),
            ensures
                match split {
                    Some(x) => last_path_sep(full@, fl - 2) == Some(x as int) && x + 2 <= fl,
                    None => last_path_sep(full@, fl - 2) is None,
                },
            decreases k,
        {
            if full[k] == ':' && full[k + 1] == ':' {
                assert(last_path_sep(full@, k as int) == Some(k as int));
                split = Some(k);
                break;
            }
            if k == 0 {
                assert(last_path_sep(full@, -1) is None);
                break;
            }
            k -= 1;
        }
    } else {
        assert(last_path_sep(full@, fl - 2) is None);
    }
    let (owner, name) = match split {
        Some(x) => (Some(string_of(full.as_slice(), 0, x)), sub_vec(full.as_slice(), x + 2, fl)),
        None => (None, sub_vec(full.as_slice(), 0, fl)),
    };
    assert(full@.subrange(0, fl as int) =~= full@);
    if name.len() == 0 || keyword(&name) || ('0' <= name[0] && name[0] <= '9') {
        return None;
    }
    let mut depth: usize = 0;
    let mut kk = open_idx;
    loop
        invariant
            open_idx <= kk <= n == s.len(),
            s == chars@,
            open_idx < s.len(),
            s[open_idx as int] == '(',
            kk > open_idx ==> depth >= 1,
            kk == open_idx ==> depth == 0,
            depth <= kk - open_idx,
            close_paren(s, kk as int, depth as int) == close_paren(s, open_idx as int, 0),
        ensures
            kk <= n,
            kk < n ==> kk > open_idx,
            kk < n ==> close_paren(s, open_idx as int, 0) == Some(kk as int),
            kk == n ==> close_paren(s, open_idx as int, 0) is None,
        decreases n - kk,
    {
        if kk == n {
            break;
        }
        let c = chars[kk];
        if c == '(' {
            depth += 1;
        } else if c == ')' {
            if depth - 1 == 0 {
                break;
            }
            depth -= 1;
        }
        kk += 1;
    }
    if kk == n {
        return None;
    }
    let inside = sub_vec(chars, open_idx + 1, kk);
    let parts = split_top_level_commas(inside.as_slice());
    let parsed = parse_param_parts(&parts);
    let (sk, params) = match parsed {
        None => {
            return None;
        },
        Some(pp) => pp,
    };
    if sk.is_none() && params.len() == 0 {
        return None;
    }
    let after = kk + 1;
    let m = skip_blanks(chars, after);
    let mut return_type: Option<String> = None;
    let mut end = after;
    if m < n && n - m > 1 && chars[m] == '-' && chars[m + 1] == '>' {
        let n2 = skip_blanks(chars, m + 2);
        let (tok, tok_end) = read_type_token(chars, n2);
        if tok.as_str().is_empty() == false {
            return_type = Some(tok);
            end = tok_end;
        }
    }
    let mut raw = text_of(&name);
    push_str(&mut raw, "(");
    push_args(&mut raw, sk, &params);
    push_str(&mut raw, ")");
    match &return_type {
        Some(r) => {
            push_str(&mut raw, " -> ");
            push_str(&mut raw, r.as_str());
        },
        None => {},
    }
    let ctx_start = if j >= 80 { j - 80 } else { 0 };
    let ctx = sub_vec(chars, ctx_start, j);
    let file = detect_target_file(ctx.as_slice());
    let self_text = match sk {
        Some(x) => Some(owned(x.as_str())),
        None => None,
    };
    let m = RequiredMethod {
        file,
        owner,
        fn_name: text_of(&name),
        raw_signature: raw,
        self_kind: self_text,
        params,
        return_type,
    };
    Some((end, m))
}


/// The contract of a task: required methods, type invariants and the
/// behavioral requirements stated in its text.
#[derive(Debug, Clone, Default, PartialEq, Eq)]
pub struct TaskContract {
    pub methods: Vec<RequiredMethod>,
    pub type_constraints: Vec<String>,
    /// Verbatim behavioral requirements (preconditions, valid and invalid
    /// state transitions, postconditions).
    pub behavior_notes: Vec<String>,
}

/// The words that mark a requirement.
pub open spec fn behavior_cues() -> Seq<Seq<char>> {
    seq!["somente"@, "apenas"@, "only"@, "must"@, "deve"@, "devem"@, "precisa"@, "não pode"@, "nao pode"@,
        "não deve"@, "nao deve"@, "cannot"@, "nunca"@, "never"@, "inválid"@, "invalid"@, "quando"@, "when "@,
        "postcond"@, "precond"@]
}

/// Whether one of the cues from `k` on occurs in `lower`.
pub open spec fn has_cue(lower: Seq<char>, k: int) -> bool
    decreases behavior_cues().len() - k,
{
    if k < 0 || k >= behavior_cues().len() {
        false
    } else {
        contains_seq(lower, behavior_cues()[k]) || has_cue(lower, k + 1)
    }
}

/// A sentence segment states a requirement when it is 10 to 240 bytes
/// long, has a space and no `(`, and its lowercase form holds a cue.
pub open spec fn is_behavior_note_text(seg: Seq<char>) -> bool {
    &&& 10 <= utf8_len(seg) <= 240
    &&& has_char(seg, ' ')
    &&& !has_char(seg, '(')
    &&& has_cue(unicode_lowercase(seg), 0)
}

/// Whether a segment states a requirement (see `is_behavior_note_text`).
pub fn is_behavior_note(seg: &[char]) -> (b: bool)
    ensures
        b == is_behavior_note_text(seg@),
{
    if seg.len() > 240 {
        proof { lemma_utf8_at_least_len(seg@); }
        return false;
    }
    let bytes = utf8_prefix_len_bounded(seg);
    if bytes < 10 || bytes > 240 || !has_char_exec(seg, ' ') || has_char_exec(seg, '(') {
        return false;
    }
    let text = {
        assert(seg@.subrange(0, seg@.len() as int) =~= seg@);
        string_of(seg, 0, seg.len())
    };
    let lower = to_lowercase(text.as_str());
    let lv = chars_of(lower.as_str());
    let mut k: usize = 0;
    let cues: [&str; 20] = ["somente", "apenas", "only", "must", "deve", "devem", "precisa", "não pode", "nao pode",
        "não deve", "nao deve", "cannot", "nunca", "never", "inválid", "invalid", "quando", "when ", "postcond",
        "precond"];
    assert(cues@.map_values(|c: &str| c@) =~= behavior_cues());
    while k < 20
        invariant
            k <= 20,
            10 <= utf8_len(seg@) <= 240,
            has_char(seg@, ' '),
            !has_char(seg@, '('),
            lv@ == unicode_lowercase(seg@),
            cues@.map_values(|c: &str| c@) == behavior_cues(),
            has_cue(lv@, k as int) == has_cue(lv@, 0),
        decreases 20 - k,
    {
        assert(cues@.map_values(|c: &str| c@)[k as int] == cues@[k as int]@);
        if contains_str(lv.as_slice(), cues[k]) {
            return true;
        }
        k += 1;
    }
    false
}

proof fn lemma_utf8_at_least_len(s: Seq<char>)
    ensures
        utf8_len(s) >= s.len(),
    decreases s.len(),
{
    if s.len() > 0 {
        lemma_utf8_at_least_len(s.drop_last());
    }
}

proof fn lemma_utf8_at_most(s: Seq<char>)
    ensures
        utf8_len(s) <= 4 * s.len(),
    decreases s.len(),
{
    if s.len() > 0 {
        lemma_utf8_at_most(s.drop_last());
    }
}

fn utf8_prefix_len_bounded(seg: &[char]) -> (n: usize)
    requires
        seg@.len() <= 240,
    ensures
        n == utf8_len(seg@),
{
    proof { lemma_utf8_at_most(seg@); }
    assert(seg@.subrange(0, seg@.len() as int) =~= seg@);
    utf8_prefix_len(seg, seg.len())
}

/// A sentence delimiter.
pub open spec fn is_delim(c: char) -> bool {
    c == ';' || c == '.' || c == '!' || c == '?'
}

/// The first delimiter at or after `i`, or the length.
pub open spec fn delim_at(s: Seq<char>, i: int) -> int
    decreases s.len() - i,
{
    if i < 0 || i >= s.len() || is_delim(s[i]) { i } else { delim_at(s, i + 1) }
}

/// The segments of a text between delimiters (`str::split` on them).
pub open spec fn segments(s: Seq<char>) -> Seq<Seq<char>>
    decreases s.len(),
{
    let i = delim_at(s, 0);
    if 0 <= i < s.len() {
        seq![s.subrange(0, i)] + segments(s.subrange(i + 1, s.len() as int))
    } else {
        seq![s]
    }
}

/// The notes after considering segments: a trimmed segment that states a
/// requirement is added while fewer than 16 notes are kept.
pub open spec fn note_segs(segs: Seq<Seq<char>>, notes: Seq<Seq<char>>) -> Seq<Seq<char>>
    decreases segs.len(),
{
    if segs.len() == 0 {
        notes
    } else {
        let t = trim_ws(segs[0]);
        note_segs(segs.drop_first(), if is_behavior_note_text(t) && notes.len() < 16 { notes.push(t) } else { notes })
    }
}

/// The notes of the first `k` lines.
pub open spec fn notes_of_lines(lines: Seq<Seq<char>>, k: int) -> Seq<Seq<char>>
    decreases k,
{
    if k <= 0 { Seq::empty() } else { note_segs(segments(trim_ws(lines[k - 1])), notes_of_lines(lines, k - 1)) }
}

proof fn lemma_delim_at(s: Seq<char>, i: int)
    requires
        0 <= i <= s.len(),
    ensures
        i <= delim_at(s, i) <= s.len(),
        delim_at(s, i) < s.len() ==> is_delim(s[delim_at(s, i)]),
        forall|k: int| i <= k < delim_at(s, i) ==> !is_delim(s[k]),
    decreases s.len() - i,
{
    if i < s.len() && !is_delim(s[i]) {
        lemma_delim_at(s, i + 1);
    }
}

proof fn lemma_delim_at_at(s: Seq<char>, i: int, j: int)
    requires
        0 <= i <= j <= s.len(),
        forall|k: int| i <= k < j ==> !is_delim(s[k]),
        j == s.len() || is_delim(s[j]),
    ensures
        delim_at(s, i) == j,
    decreases j - i,
{
    if i < j {
        lemma_delim_at_at(s, i + 1, j);
    }
}

fn note_line(notes: &mut Vec<String>, line: &str)
    ensures
        texts(final(notes)@) == note_segs(segments(trim_ws(line@)), texts(old(notes)@)),
{
    let v = chars_of(line);
    let (a, b) = trim_bounds(v.as_slice(), 0, v.len());
    assert(v@.subrange(0, v@.len() as int) =~= v@);
    let t = sub_vec(v.as_slice(), a, b);
    let n = t.len();
    let mut start: usize = 0;
    let mut i: usize = 0;
    let ghost goal = note_segs(segments(t@), texts(notes@));
    assert(t@.subrange(0, n as int) =~= t@);
    while i < n
        invariant
            n == t@.len(),
            start <= i <= n,
            forall|k: int| start <= k < i ==> !is_delim(t@[k]),
            note_segs(segments(t@.subrange(start as int, n as int)), texts(notes@)) == goal,
        decreases n - i,
    {
        if is_delim_exec(t[i]) {
            let ghost rest = t@.subrange(start as int, n as int);
            proof {
                assert forall|k: int| 0 <= k < i - start implies !is_delim(rest[k]) by {
                    assert(rest[k] == t@[start + k]);
                }
                assert(rest[i - start] == t@[i as int]);
                lemma_delim_at_at(rest, 0, i - start);
                assert(rest.subrange(0, i - start) =~= t@.subrange(start as int, i as int));
                assert(rest.subrange(i - start + 1, rest.len() as int) =~= t@.subrange(i + 1, n as int));
                let segs = segments(rest);
                assert(segs == seq![t@.subrange(start as int, i as int)] + segments(t@.subrange(i + 1, n as int)));
                assert(segs.drop_first() =~= segments(t@.subrange(i + 1, n as int)));
            }
            note_segment(notes, &t, start, i);
            start = i + 1;
        }
        i += 1;
    }
    let ghost rest = t@.subrange(start as int, n as int);
    proof {
        assert forall|k: int| 0 <= k < n - start implies !is_delim(rest[k]) by {
            assert(rest[k] == t@[start + k]);
        }
        lemma_delim_at_at(rest, 0, n - start);
        assert(segments(rest) == seq![rest]);
        assert(seq![rest].drop_first() =~= Seq::<Seq<char>>::empty());
        assert(rest.subrange(0, rest.len() as int) =~= rest);
    }
    let ghost nb = texts(notes@);
    note_segment(notes, &t, start, n);
    proof {
        let t0 = trim_ws(rest);
        let n1 = if is_behavior_note_text(t0) && nb.len() < 16 { nb.push(t0) } else { nb };
        assert(note_segs(seq![rest], nb) == note_segs(seq![rest].drop_first(), n1));
        assert(note_segs(Seq::<Seq<char>>::empty(), n1) == n1);
        assert(t@ == trim_ws(line@));
    }
}

fn note_segment(notes: &mut Vec<String>, t: &Vec<char>, start: usize, end: usize)
    requires
        start <= end <= t@.len(),
    ensures
        texts(final(notes)@) == ({
            let seg = trim_ws(t@.subrange(start as int, end as int));
            if is_behavior_note_text(seg) && texts(old(notes)@).len() < 16 {
                texts(old(notes)@).push(seg)
            } else {
                texts(old(notes)@)
            }
        }),
{
    let (sa, sb) = trim_bounds(t.as_slice(), start, end);
    let seg = sub_vec(t.as_slice(), sa, sb);
    let ghost before = texts(notes@);
    if is_behavior_note(seg.as_slice()) && notes.len() < 16 {
        notes.push(string_of(t.as_slice(), sa, sb));
        assert(texts(notes@) =~= before.push(seg@));
    }
}

fn is_delim_exec(c: char) -> (b: bool)
    ensures
        b == is_delim(c),
{
    c == ';' || c == '.' || c == '!' || c == '?'
}


proof fn lemma_skip_ws_fwd(s: Seq<char>, m: int)
    requires
        0 <= m,
    ensures
        m <= skip_ws_fwd(s, m),
        m <= s.len() ==> skip_ws_fwd(s, m) <= s.len(),
    decreases s.len() - m,
{
    if 0 <= m < s.len() && is_ws(s[m]) {
        lemma_skip_ws_fwd(s, m + 1);
    }
}

proof fn lemma_close_paren(s: Seq<char>, k: int, depth: int)
    requires
        0 <= k,
    ensures
        close_paren(s, k, depth) matches Some(x) ==> k <= x < s.len(),
    decreases s.len() - k,
{
    if k < s.len() {
        if s[k] == '(' {
            lemma_close_paren(s, k + 1, depth + 1);
        } else if s[k] == ')' {
            if depth - 1 != 0 {
                lemma_close_paren(s, k + 1, depth - 1);
            }
        } else {
            lemma_close_paren(s, k + 1, depth);
        }
    }
}

/// A signature ends after its `(`.
proof fn lemma_signature_progress(s: Seq<char>, i: int)
    requires
        0 <= i < s.len(),
        s[i] == '(',
    ensures
        signature_at(s, i) matches Some(r) ==> i < r.0 <= s.len(),
{
    lemma_close_paren(s, i, 0);
    if let Some(k) = close_paren(s, i, 0) {
        assert(k != i) by {
            if k == i {
                assert(close_paren(s, i, 0) == close_paren(s, i + 1, 1));
                lemma_close_paren(s, i + 1, 1);
            }
        }
        let m = skip_ws_fwd(s, k + 1);
        lemma_skip_ws_fwd(s, k + 1);
        if m + 1 < s.len() && s[m] == '-' && s[m + 1] == '>' {
            let n = skip_ws_fwd(s, m + 2);
            lemma_skip_ws_fwd(s, m + 2);
            if n <= s.len() {
                lemma_type_token_end(s, n, 0);
            }
        }
    }
}

/// The required methods found from `i` on: every `(` that starts a
/// signature (see `signature_at`), scanning on after it; a signature whose
/// owner and name were already seen is skipped.
pub open spec fn scan_sigs(s: Seq<char>, i: int, seen: Seq<(Option<Seq<char>>, Seq<char>)>, ms: Seq<MethodView>) -> Seq<MethodView>
    decreases s.len() - i,
{
    if i < 0 || i >= s.len() {
        ms
    } else if s[i] == '(' && signature_at(s, i) is Some {
        let r = signature_at(s, i)->0;
        let key = (r.1.1, r.1.2);
        if i < r.0 <= s.len() {
            if seen.contains(key) { scan_sigs(s, r.0, seen, ms) } else { scan_sigs(s, r.0, seen.push(key), ms.push(r.1)) }
        } else {
            ms
        }
    } else {
        scan_sigs(s, i + 1, seen, ms)
    }
}

/// All parameters of the methods, in order.
pub open spec fn all_params(ms: Seq<MethodView>) -> Seq<ParamView>
    decreases ms.len(),
{
    if ms.len() == 0 { Seq::empty() } else { all_params(ms.drop_last()) + ms.last().5 }
}

/// The parameter names in order of first appearance.
pub open spec fn distinct_names(ps: Seq<ParamView>) -> Seq<Seq<char>>
    decreases ps.len(),
{
    if ps.len() == 0 {
        Seq::empty()
    } else {
        let r = distinct_names(ps.drop_last());
        if r.contains(ps.last().0) { r } else { r.push(ps.last().0) }
    }
}

/// The types given to a parameter name, in order.
pub open spec fn types_for(ps: Seq<ParamView>, name: Seq<char>) -> Seq<Seq<char>>
    decreases ps.len(),
{
    if ps.len() == 0 {
        Seq::empty()
    } else {
        let r = types_for(ps.drop_last(), name);
        if ps.last().0 == name { r.push(ps.last().1) } else { r }
    }
}

/// Whether all texts of a sequence are the same.
pub open spec fn all_same(ts: Seq<Seq<char>>) -> bool {
    forall|k: int| 0 <= k < ts.len() ==> #[trigger] ts[k] == ts[0]
}

proof fn lemma_all_same_push(ts: Seq<Seq<char>>, x: Seq<char>)
    ensures
        all_same(ts.push(x)) == (all_same(ts) && (ts.len() == 0 || x == ts[0])),
{
    let t2 = ts.push(x);
    if all_same(t2) {
        assert forall|k: int| 0 <= k < ts.len() implies #[trigger] ts[k] == ts[0] by {
            assert(t2[k] == t2[0]);
        }
        if ts.len() > 0 {
            assert(t2[ts.len() as int] == t2[0]);
        }
    }
    if all_same(ts) && (ts.len() == 0 || x == ts[0]) {
        assert forall|k: int| 0 <= k < t2.len() implies #[trigger] t2[k] == t2[0] by {
            if k < ts.len() {
                assert(ts[k] == ts[0]);
            }
        }
    }
}

/// The type invariant of a parameter name, when all its types agree.
pub open spec fn constraint_for(ps: Seq<ParamView>, name: Seq<char>) -> Option<Seq<char>> {
    let ts = types_for(ps, name);
    if ts.len() > 0 && all_same(ts) {
        Some("`"@ + name + "` must be type `"@ + ts[0] + "` (never change to another numeric/primitive type)."@)
    } else {
        None
    }
}

/// The type invariants of the names, in order.
pub open spec fn constraints(ps: Seq<ParamView>, names: Seq<Seq<char>>) -> Seq<Seq<char>>
    decreases names.len(),
{
    if names.len() == 0 {
        Seq::empty()
    } else {
        constraints(ps, names.drop_last()) + match constraint_for(ps, names.last()) {
            Some(c) => seq![c],
            None => Seq::empty(),
        }
    }
}

/// The contract of a task text: the methods `scan_sigs` finds, one type
/// invariant per parameter name whose types all agree (names in order of
/// first appearance), and the behavioral notes of its lines.
pub open spec fn contract_of(task: Seq<char>) -> (Seq<MethodView>, Seq<Seq<char>>, Seq<Seq<char>>) {
    let ms = scan_sigs(task, 0, Seq::empty(), Seq::empty());
    let ps = all_params(ms);
    (ms, constraints(ps, distinct_names(ps)), notes_of_lines(text_lines(task), text_lines(task).len() as int))
}

fn same_key(a: &Option<String>, b: &String, c: &Option<String>, d: &String) -> (r: bool)
    ensures
        r == ((ot(*a), b@) == (ot(*c), d@)),
{
    let names = *b == *d;
    match (a, c) {
        (Some(x), Some(y)) => names && *x == *y,
        (None, None) => names,
        _ => false,
    }
}

proof fn lemma_all_params_push(ms: Seq<MethodView>, m: MethodView)
    ensures
        all_params(ms.push(m)) == all_params(ms) + m.5,
{
    assert(ms.push(m).drop_last() =~= ms);
}

fn method_views(ms: &Vec<RequiredMethod>) -> (r: Ghost<Seq<MethodView>>)
    ensures
        r@ == ms@.map_values(|m: RequiredMethod| method_view(m)),
{
    Ghost(ms@.map_values(|m: RequiredMethod| method_view(m)))
}

impl TaskContract {
    /// Extracts the contract of a task description (see `contract_of`).
    pub fn extract(task: &str) -> (c: TaskContract)
        ensures
            (c.methods@.map_values(|m: RequiredMethod| method_view(m)), texts(c.type_constraints@), texts(c.behavior_notes@))
                == contract_of(task@),
    {
        let mut behavior_notes: Vec<String> = Vec::new();
        let lines = split_lines(task);
        let ghost ls = text_lines(task@);
        let mut li: usize = 0;
        assert(texts(behavior_notes@) =~= Seq::<Seq<char>>::empty());
        while li < lines.len()
            invariant
                li <= lines@.len(),
                lines@.len() == ls.len(),
                ls == text_lines(task@),
                forall|k: int| 0 <= k < lines@.len() ==> (#[trigger] lines@[k])@ == ls[k],
                texts(behavior_notes@) == notes_of_lines(ls, li as int),
            decreases lines@.len() - li,
        {
            note_line(&mut behavior_notes, lines[li].as_str());
            li += 1;
        }
        let chars = chars_of(task);
        let mut methods: Vec<RequiredMethod> = Vec::new();
        let mut seen_owner: Vec<Option<String>> = Vec::new();
        let mut seen_name: Vec<String> = Vec::new();
        let ghost goal = scan_sigs(chars@, 0, Seq::empty(), Seq::empty());
        let mut i: usize = 0;
        assert(methods@.map_values(|m: RequiredMethod| method_view(m)) =~= Seq::<MethodView>::empty());
        assert(Seq::new(seen_owner@.len(), |k: int| (ot(seen_owner@[k]), seen_name@[k]@))
            =~= Seq::<(Option<Seq<char>>, Seq<char>)>::empty());
        while i < chars.len()
            invariant
                i <= chars@.len(),
                goal == scan_sigs(chars@, 0, Seq::empty(), Seq::empty()),
                seen_owner@.len() == seen_name@.len(),
                scan_sigs(chars@, i as int,
                    Seq::new(seen_owner@.len(), |k: int| (ot(seen_owner@[k]), seen_name@[k]@)),
                    methods@.map_values(|m: RequiredMethod| method_view(m))) == goal,
            decreases chars@.len() - i,
        {
            if chars[i] == '(' {
                proof { lemma_signature_progress(chars@, i as int); }
                match try_parse_signature_at(chars.as_slice(), i) {
                    Some((end, sig)) => {
                        let ghost seen = Seq::new(seen_owner@.len(), |k: int| (ot(seen_owner@[k]), seen_name@[k]@));
                        let ghost key = (ot(sig.owner), sig.fn_name@);
                        let mut found = false;
                        let mut k: usize = 0;
                        while k < seen_name.len()
                            invariant
                                k <= seen_name@.len(),
                                seen_owner@.len() == seen_name@.len(),
                                seen == Seq::new(seen_owner@.len(), |k: int| (ot(seen_owner@[k]), seen_name@[k]@)),
                                key == (ot(sig.owner), sig.fn_name@),
                                found <==> (exists|j: int| 0 <= j < k && seen[j] == key),
                            decreases seen_name@.len() - k,
                        {
                            assert(seen[k as int] == (ot(seen_owner@[k as int]), seen_name@[k as int]@));
                            if same_key(&seen_owner[k], &seen_name[k], &sig.owner, &sig.fn_name) {
                                found = true;
                            }
                            k += 1;
                        }
                        proof {
                            if found {
                                let j = choose|j: int| 0 <= j < k && seen[j] == key;
                                assert(seen.contains(key));
                            } else {
                                assert(!seen.contains(key));
                            }
                        }
                        if !found {
                            seen_owner.push(sig.owner.clone());
                            seen_name.push(sig.fn_name.clone());
                            let ghost mv = methods@.map_values(|m: RequiredMethod| method_view(m));
                            methods.push(sig);
                            proof {
                                assert(Seq::new(seen_owner@.len(), |k: int| (ot(seen_owner@[k]), seen_name@[k]@)) =~= seen.push(key));
                                assert(methods@.map_values(|m: RequiredMethod| method_view(m)) =~= mv.push(method_view(methods@.last())));
                            }
                        }
                        i = end;
                        continue;
                    },
                    None => {},
                }
            }
            i += 1;
        }
        let ghost ms = methods@.map_values(|m: RequiredMethod| method_view(m));
        assert(ms == goal);
        let mut pnames: Vec<String> = Vec::new();
        let mut ptypes: Vec<String> = Vec::new();
        let mut mi: usize = 0;
        assert(ms.subrange(0, 0) =~= Seq::<MethodView>::empty());
        while mi < methods.len()
            invariant
                mi <= methods@.len(),
                ms == methods@.map_values(|m: RequiredMethod| method_view(m)),
                pnames@.len() == ptypes@.len(),
                Seq::new(pnames@.len(), |k: int| (pnames@[k]@, ptypes@[k]@)) == all_params(ms.subrange(0, mi as int)),
            decreases methods@.len() - mi,
        {
            let ghost before = Seq::new(pnames@.len(), |k: int| (pnames@[k]@, ptypes@[k]@));
            let mut pj: usize = 0;
            let ghost pv = params_view(methods@[mi as int].params@);
            while pj < methods[mi].params.len()
                invariant
                    pj <= methods@[mi as int].params@.len(),
                    mi < methods@.len(),
                    pnames@.len() == ptypes@.len(),
                    pv == params_view(methods@[mi as int].params@),
                    Seq::new(pnames@.len(), |k: int| (pnames@[k]@, ptypes@[k]@)) == before + pv.subrange(0, pj as int),
                decreases methods@[mi as int].params@.len() - pj,
            {
                assert(pv[pj as int] == (methods@[mi as int].params@[pj as int].name@,
                    methods@[mi as int].params@[pj as int].param_type@));
                let ghost cur = Seq::new(pnames@.len(), |k: int| (pnames@[k]@, ptypes@[k]@));
                pnames.push(methods[mi].params[pj].name.clone());
                ptypes.push(methods[mi].params[pj].param_type.clone());
                assert(Seq::new(pnames@.len(), |k: int| (pnames@[k]@, ptypes@[k]@)) =~= cur.push(pv[pj as int]));
                assert(cur.push(pv[pj as int]) =~= before + pv.subrange(0, pj + 1));
                pj += 1;
            }
            proof {
                assert(pv.subrange(0, pj as int) =~= pv);
                assert(ms.subrange(0, mi + 1) =~= ms.subrange(0, mi as int).push(ms[mi as int]));
                lemma_all_params_push(ms.subrange(0, mi as int), ms[mi as int]);
            }
            mi += 1;
        }
        assert(ms.subrange(0, mi as int) =~= ms);
        let ghost ps = all_params(ms);
        let type_constraints = type_constraints_of(&pnames, &ptypes);
        TaskContract { methods, type_constraints, behavior_notes }
    }
}

fn type_constraints_of(pnames: &Vec<String>, ptypes: &Vec<String>) -> (out: Vec<String>)
    requires
        pnames@.len() == ptypes@.len(),
    ensures
        ({
            let ps = Seq::new(pnames@.len(), |k: int| (pnames@[k]@, ptypes@[k]@));
            texts(out@) == constraints(ps, distinct_names(ps))
        }),
{
    let ghost ps = Seq::new(pnames@.len(), |k: int| (pnames@[k]@, ptypes@[k]@));
    let mut names: Vec<String> = Vec::new();
    let mut i: usize = 0;
    assert(ps.subrange(0, 0) =~= Seq::<ParamView>::empty());
    while i < pnames.len()
        invariant
            i <= pnames@.len(),
            pnames@.len() == ptypes@.len(),
            ps == Seq::new(pnames@.len(), |k: int| (pnames@[k]@, ptypes@[k]@)),
            texts(names@) == distinct_names(ps.subrange(0, i as int)),
        decreases pnames@.len() - i,
    {
        let ghost before = texts(names@);
        let mut k: usize = 0;
        let mut found = false;
        while k < names.len()
            invariant
                k <= names@.len(),
                i < pnames@.len(),
                found <==> (exists|j: int| 0 <= j < k && texts(names@)[j] == pnames@[i as int]@),
            decreases names@.len() - k,
        {
            assert(texts(names@)[k as int] == names@[k as int]@);
            if names[k] == pnames[i] {
                found = true;
            }
            k += 1;
        }
        proof {
            let sub = ps.subrange(0, i + 1);
            assert(sub.drop_last() =~= ps.subrange(0, i as int));
            assert(sub.last().0 == pnames@[i as int]@);
            if found {
                let j = choose|j: int| 0 <= j < k && texts(names@)[j] == pnames@[i as int]@;
                assert(before.contains(pnames@[i as int]@));
            } else {
                assert(!before.contains(pnames@[i as int]@)) by {
                    if before.contains(pnames@[i as int]@) {
                        let j = choose|j: int| 0 <= j < before.len() && before[j] == pnames@[i as int]@;
                        assert(texts(names@)[j] == pnames@[i as int]@);
                    }
                }
            }
        }
        if !found {
            names.push(pnames[i].clone());
            assert(texts(names@) =~= before.push(pnames@[i as int]@));
        }
        i += 1;
    }
    assert(ps.subrange(0, i as int) =~= ps);
    let mut out: Vec<String> = Vec::new();
    let mut ni: usize = 0;
    assert(texts(names@).subrange(0, 0) =~= Seq::<Seq<char>>::empty());
    assert(texts(out@) =~= Seq::<Seq<char>>::empty());
    while ni < names.len()
        invariant
            ni <= names@.len(),
            pnames@.len() == ptypes@.len(),
            ps == Seq::new(pnames@.len(), |k: int| (pnames@[k]@, ptypes@[k]@)),
            texts(out@) == constraints(ps, texts(names@).subrange(0, ni as int)),
        decreases names@.len() - ni,
    {
        let name = &names[ni];
        let mut first: Option<usize> = None;
        let mut consistent = true;
        let mut j: usize = 0;
        assert(ps.subrange(0, 0) =~= Seq::<ParamView>::empty());
        while j < pnames.len()
            invariant
                j <= pnames@.len(),
                pnames@.len() == ptypes@.len(),
                ps == Seq::new(pnames@.len(), |k: int| (pnames@[k]@, ptypes@[k]@)),
                match first {
                    Some(f) => f < j && types_for(ps.subrange(0, j as int), name@).len() > 0
                        && types_for(ps.subrange(0, j as int), name@)[0] == ptypes@[f as int]@,
                    None => types_for(ps.subrange(0, j as int), name@).len() == 0,
                },
                consistent <==> all_same(types_for(ps.subrange(0, j as int), name@)),
            decreases pnames@.len() - j,
        {
            let ghost sub = ps.subrange(0, j + 1);
            let ghost prev = types_for(ps.subrange(0, j as int), name@);
            assert(sub.drop_last() =~= ps.subrange(0, j as int));
            assert(sub.last() == (pnames@[j as int]@, ptypes@[j as int]@));
            if pnames[j] != *name {
                assert(types_for(sub, name@) == prev);
            }
            if pnames[j] == *name {
                assert(types_for(sub, name@) == prev.push(ptypes@[j as int]@));
                proof { lemma_all_same_push(prev, ptypes@[j as int]@); }
                match first {
                    Some(f) => {
                        if ptypes[j] != ptypes[f] {
                            consistent = false;
                            assert(types_for(sub, name@)[prev.len() as int] != types_for(sub, name@)[0]);
                        }
                    },
                    None => {
                        first = Some(j);
                    },
                }
            }
            j += 1;
        }
        assert(ps.subrange(0, j as int) =~= ps);
        let ghost before = texts(out@);
        let ghost sub = texts(names@).subrange(0, ni + 1);
        assert(sub.drop_last() =~= texts(names@).subrange(0, ni as int));
        assert(sub.last() == name@);
        match first {
            Some(f) => {
                if consistent {
                    let mut c = owned("`");
                    push_str(&mut c, name.as_str());
                    push_str(&mut c, "` must be type `");
                    push_str(&mut c, ptypes[f].as_str());
                    push_str(&mut c, "` (never change to another numeric/primitive type).");
                    out.push(c);
                    assert(texts(out@) =~= before + seq![c@]);
                } else {
                    assert(texts(out@) =~= before + Seq::<Seq<char>>::empty());
                }
            },
            None => {
                assert(texts(out@) =~= before + Seq::<Seq<char>>::empty());
            },
        }
        ni += 1;
    }
    assert(texts(names@).subrange(0, ni as int) =~= texts(names@));
    out
}


/// The bullet lines of texts: `• ` before each, a newline after.
pub open spec fn bullets(ts: Seq<Seq<char>>) -> Seq<char>
    decreases ts.len(),
{
    if ts.len() == 0 { Seq::empty() } else { bullets(ts.drop_last()) + "• "@ + ts.last() + "\n"@ }
}

/// The line of a required signature.
pub open spec fn signature_line(m: MethodView) -> Seq<char> {
    "• In `"@ + (match m.0 { Some(f) => f, None => "target file"@ }) + "`: `fn "@ + m.3 + "`\n"@
}

/// The lines of the required signatures.
pub open spec fn signature_lines(ms: Seq<MethodView>) -> Seq<char>
    decreases ms.len(),
{
    if ms.len() == 0 { Seq::empty() } else { signature_lines(ms.drop_last()) + signature_line(ms.last()) }
}

/// The prompt block of a contract: empty when it states nothing, else the
/// signatures, behavioral requirements and type invariants under their
/// headings, and the operational rule.
pub open spec fn contract_prompt(ms: Seq<MethodView>, tcs: Seq<Seq<char>>, notes: Seq<Seq<char>>) -> Seq<char> {
    if ms.len() == 0 && tcs.len() == 0 && notes.len() == 0 {
        Seq::empty()
    } else {
        "### Exact Task & Type Contract (Enforced by Harness)\n"@
            + (if ms.len() > 0 { "Required Signatures:\n"@ + signature_lines(ms) } else { Seq::empty() })
            + (if notes.len() > 0 { "\nBehavioral Requirements (locked):\n"@ + bullets(notes) } else { Seq::empty() })
            + (if tcs.len() > 0 { "\nStrict Type Invariants:\n"@ + bullets(tcs) } else { Seq::empty() })
            + "• Operational Rule: Do NOT drift from these parameter names, placements, types, or return signatures.\n\n"@
    }
}

fn push_bullets(out: &mut String, ts: &Vec<String>)
    ensures
        final(out)@ == old(out)@ + bullets(texts(ts@)),
{
    let ghost start = out@;
    let mut k: usize = 0;
    assert(texts(ts@).subrange(0, 0) =~= Seq::<Seq<char>>::empty());
    while k < ts.len()
        invariant
            k <= ts@.len(),
            out@ == start + bullets(texts(ts@).subrange(0, k as int)),
        decreases ts@.len() - k,
    {
        push_str(out, "• ");
        push_str(out, ts[k].as_str());
        push_str(out, "\n");
        let ghost sub = texts(ts@).subrange(0, k + 1);
        assert(sub.drop_last() =~= texts(ts@).subrange(0, k as int));
        assert(sub.last() == ts@[k as int]@);
        assert(out@ =~= start + bullets(sub));
        k += 1;
    }
    assert(texts(ts@).subrange(0, k as int) =~= texts(ts@));
}

impl TaskContract {
    /// The contract as a prompt block (see `contract_prompt`).
    pub fn to_prompt_string(&self) -> (out: String)
        ensures
            out@ == contract_prompt(self.methods@.map_values(|m: RequiredMethod| method_view(m)),
                texts(self.type_constraints@), texts(self.behavior_notes@)),
    {
        if self.methods.len() == 0 && self.type_constraints.len() == 0 && self.behavior_notes.len() == 0 {
            return String::new();
        }
        let mut out = owned("### Exact Task & Type Contract (Enforced by Harness)\n");
        if self.methods.len() > 0 {
            push_str(&mut out, "Required Signatures:\n");
            let ghost start = out@;
            let ghost ms = self.methods@.map_values(|m: RequiredMethod| method_view(m));
            let mut k: usize = 0;
            assert(ms.subrange(0, 0) =~= Seq::<MethodView>::empty());
            while k < self.methods.len()
                invariant
                    k <= self.methods@.len(),
                    ms == self.methods@.map_values(|m: RequiredMethod| method_view(m)),
                    out@ == start + signature_lines(ms.subrange(0, k as int)),
                decreases self.methods@.len() - k,
            {
                push_str(&mut out, "• In `");
                match &self.methods[k].file {
                    Some(f) => push_str(&mut out, f.as_str()),
                    None => push_str(&mut out, "target file"),
                }
                push_str(&mut out, "`: `fn ");
                push_str(&mut out, self.methods[k].raw_signature.as_str());
                push_str(&mut out, "`\n");
                let ghost sub = ms.subrange(0, k + 1);
                assert(sub.drop_last() =~= ms.subrange(0, k as int));
                assert(sub.last() == method_view(self.methods@[k as int]));
                assert(out@ =~= start + signature_lines(sub));
                k += 1;
            }
            assert(ms.subrange(0, k as int) =~= ms);
        }
        if self.behavior_notes.len() > 0 {
            push_str(&mut out, "\nBehavioral Requirements (locked):\n");
            push_bullets(&mut out, &self.behavior_notes);
        }
        if self.type_constraints.len() > 0 {
            push_str(&mut out, "\nStrict Type Invariants:\n");
            push_bullets(&mut out, &self.type_constraints);
        }
        push_str(&mut out, "• Operational Rule: Do NOT drift from these parameter names, placements, types, or return signatures.\n\n");
        out
    }
}

/// Every signature the scan finds, in order, kept or not: each `(` that
/// starts a signature (see `signature_at`), scanning on after it.
pub open spec fn found_sigs(s: Seq<char>, i: int) -> Seq<MethodView>
    decreases s.len() - i,
{
    if i < 0 || i >= s.len() {
        Seq::empty()
    } else if s[i] == '(' && signature_at(s, i) is Some {
        let r = signature_at(s, i)->0;
        if i < r.0 <= s.len() { seq![r.1] + found_sigs(s, r.0) } else { Seq::empty() }
    } else {
        found_sigs(s, i + 1)
    }
}

/// Whether some method among `ms` has the given owner and name.
pub open spec fn has_method(ms: Seq<MethodView>, owner: Option<Seq<char>>, name: Seq<char>) -> bool {
    exists|j: int| 0 <= j < ms.len() && (#[trigger] ms[j]).1 == owner && ms[j].2 == name
}

proof fn lemma_scan_keeps_found(s: Seq<char>, i: int, seen: Seq<(Option<Seq<char>>, Seq<char>)>, ms: Seq<MethodView>)
    requires
        0 <= i,
        forall|k: int| 0 <= k < seen.len() ==> has_method(ms, (#[trigger] seen[k]).0, seen[k].1),
    ensures
        scan_sigs(s, i, seen, ms).len() >= ms.len(),
        forall|j: int| 0 <= j < ms.len() ==> scan_sigs(s, i, seen, ms)[j] == ms[j],
        forall|k: int| 0 <= k < found_sigs(s, i).len() ==>
            has_method(scan_sigs(s, i, seen, ms), (#[trigger] found_sigs(s, i)[k]).1, found_sigs(s, i)[k].2),
    decreases s.len() - i,
{
    let res = scan_sigs(s, i, seen, ms);
    if i >= s.len() {
    } else if s[i] == '(' && signature_at(s, i) is Some {
        let r = signature_at(s, i)->0;
        let owner_name = (r.1.1, r.1.2);
        if i < r.0 <= s.len() {
            let fs = found_sigs(s, i);
            assert(fs == seq![r.1] + found_sigs(s, r.0));
            if seen.contains(owner_name) {
                lemma_scan_keeps_found(s, r.0, seen, ms);
                assert(res == scan_sigs(s, r.0, seen, ms));
                let kk = choose|kk: int| 0 <= kk < seen.len() && seen[kk] == owner_name;
                assert(has_method(ms, seen[kk].0, seen[kk].1));
                let j = choose|j: int| 0 <= j < ms.len() && (#[trigger] ms[j]).1 == owner_name.0 && ms[j].2 == owner_name.1;
                assert(res[j] == ms[j]);
                assert forall|k: int| 0 <= k < fs.len() implies has_method(res, (#[trigger] fs[k]).1, fs[k].2) by {
                    if k == 0 {
                        assert(fs[0] == r.1);
                        assert(res[j].1 == r.1.1 && res[j].2 == r.1.2);
                    } else {
                        assert(fs[k] == found_sigs(s, r.0)[k - 1]);
                    }
                }
            } else {
                let ms2 = ms.push(r.1);
                let seen2 = seen.push(owner_name);
                assert forall|k: int| 0 <= k < seen2.len() implies has_method(ms2, (#[trigger] seen2[k]).0, seen2[k].1) by {
                    if k < seen.len() {
                        assert(seen2[k] == seen[k]);
                        assert(has_method(ms, seen[k].0, seen[k].1));
                        let j = choose|j: int| 0 <= j < ms.len() && (#[trigger] ms[j]).1 == seen[k].0 && ms[j].2 == seen[k].1;
                        assert(ms2[j] == ms[j]);
                    } else {
                        assert(ms2[ms.len() as int] == r.1);
                    }
                }
                lemma_scan_keeps_found(s, r.0, seen2, ms2);
                assert(res == scan_sigs(s, r.0, seen2, ms2));
                assert(res[ms.len() as int] == ms2[ms.len() as int]);
                assert(res[ms.len() as int] == r.1);
                assert forall|k: int| 0 <= k < fs.len() implies has_method(res, (#[trigger] fs[k]).1, fs[k].2) by {
                    if k == 0 {
                        assert(fs[0] == r.1);
                        assert(res[ms.len() as int].1 == r.1.1 && res[ms.len() as int].2 == r.1.2);
                    } else {
                        assert(fs[k] == found_sigs(s, r.0)[k - 1]);
                    }
                }
                assert forall|j: int| 0 <= j < ms.len() implies res[j] == ms[j] by {
                    assert(res[j] == ms2[j]);
                }
            }
        }
    } else {
        lemma_scan_keeps_found(s, i + 1, seen, ms);
        assert(res == scan_sigs(s, i + 1, seen, ms));
        assert(found_sigs(s, i) == found_sigs(s, i + 1));
    }
}

/// Law: a signature the task describes is dropped only when one with the
/// same owner and the same name was kept before it: every signature found
/// in the task (`User::new` and `Order::new` alike) has a required method
/// with its owner and name.
pub proof fn lemma_extract_keeps_each_owner_and_name(task: Seq<char>)
    ensures
        forall|k: int| 0 <= k < found_sigs(task, 0).len() ==>
            has_method(contract_of(task).0, (#[trigger] found_sigs(task, 0)[k]).1, found_sigs(task, 0)[k].2),
{
    lemma_scan_keeps_found(task, 0, Seq::empty(), Seq::empty());
}

/// No two methods share both owner and name.
pub open spec fn owner_names_distinct(ms: Seq<MethodView>) -> bool {
    forall|a: int, b: int| 0 <= a < b < ms.len() ==> !((#[trigger] ms[a]).1 == (#[trigger] ms[b]).1 && ms[a].2 == ms[b].2)
}

proof fn lemma_scan_distinct(s: Seq<char>, i: int, seen: Seq<(Option<Seq<char>>, Seq<char>)>, ms: Seq<MethodView>)
    requires
        owner_names_distinct(ms),
        forall|j: int| 0 <= j < ms.len() ==> seen.contains(((#[trigger] ms[j]).1, ms[j].2)),
    ensures
        owner_names_distinct(scan_sigs(s, i, seen, ms)),
    decreases s.len() - i,
{
    if 0 <= i < s.len() {
        if s[i] == '(' && signature_at(s, i) is Some {
            let r = signature_at(s, i)->0;
            let owner_name = (r.1.1, r.1.2);
            if i < r.0 <= s.len() {
                if seen.contains(owner_name) {
                    lemma_scan_distinct(s, r.0, seen, ms);
                } else {
                    let ms2 = ms.push(r.1);
                    let seen2 = seen.push(owner_name);
                    assert forall|a: int, b: int| 0 <= a < b < ms2.len() implies
                        !((#[trigger] ms2[a]).1 == (#[trigger] ms2[b]).1 && ms2[a].2 == ms2[b].2) by {
                        if b == ms.len() {
                            assert(ms2[a] == ms[a]);
                            assert(seen.contains((ms[a].1, ms[a].2)));
                        } else {
                            assert(ms2[a] == ms[a] && ms2[b] == ms[b]);
                        }
                    }
                    assert forall|j: int| 0 <= j < ms2.len() implies seen2.contains(((#[trigger] ms2[j]).1, ms2[j].2)) by {
                        if j < ms.len() {
                            assert(ms2[j] == ms[j]);
                            let q = choose|q: int| 0 <= q < seen.len() && seen[q] == (ms[j].1, ms[j].2);
                            assert(seen2[q] == seen[q]);
                        } else {
                            assert(seen2[seen.len() as int] == owner_name);
                        }
                    }
                    lemma_scan_distinct(s, r.0, seen2, ms2);
                }
            }
        } else {
            lemma_scan_distinct(s, i + 1, seen, ms);
        }
    }
}

/// Law: no two required methods of a task share both owner and name.
pub proof fn lemma_extract_owner_names_distinct(task: Seq<char>)
    ensures
        owner_names_distinct(contract_of(task).0),
{
    lemma_scan_distinct(task, 0, Seq::empty(), Seq::empty());
}

} // verus!
