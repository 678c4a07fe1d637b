//! A symbol index of a workspace: declarations of Rust, Python and
//! JavaScript/TypeScript files found line by line with regular expressions,
//! and a compact symbol map.
use vstd::prelude::*;
use crate::text::{chars_of, owned, push_str, push_decimal, dec, string_of};
use crate::textops::{has_suffix, ends_with, to_lowercase, unicode_lowercase, contains_seq, contains_str, find_from};
use crate::ui::engine::widgets::{split_lines, text_lines};
use crate::repo::context::{texts, join, push_joined};
use crate::repo::contract::ot;
use crate::repo::chrono_context::{utf8_cut, utf8_cut_exec};
use vstd::utf8::encode_utf8;
use vstd::string::StringSliceAdditionalSpecFns;
use vstd::string::StrSliceExecFns;

verus! {

/// The groups of the first match of `pattern` in `text` (the whole match,
/// then each group, `None` where a group took no part), or `None` when the
/// pattern does not compile or does not match.
pub uninterp spec fn regex_groups(pattern: Seq<char>, text: Seq<char>) -> Option<Seq<Option<Seq<char>>>>;

/// `Regex::new(pattern)` and `Regex::captures(text)`: the text of each
/// group of the first match (see `regex_groups`).
#[verifier::external_body]
fn regex_captures(pattern: &str, text: &str) -> (r: Option<Vec<Option<String>>>)
    ensures
        match r {
            Some(g) => regex_groups(pattern@, text@) == Some(g@.map_values(|x: Option<String>| ot(x))),
            None => regex_groups(pattern@, text@) is None,
        },
{
    match regex::Regex::new(pattern) {
        Ok(re) => re.captures(text).map(|c| c.iter().map(|m| m.map(|m| m.as_str().to_string())).collect()),
        Err(_) => None,
    }
}

/// Rust functions.
pub open spec fn rust_fn_pattern() -> Seq<char> {
    "^\\s*(pub\\s+|async\\s+)*fn\\s+([a-zA-Z0-9_]+)"@
}

/// Rust types.
pub open spec fn rust_type_pattern() -> Seq<char> {
    "^\\s*(pub\\s+)*(struct|enum|trait|type|union)\\s+([a-zA-Z0-9_]+)"@
}

/// Python functions.
pub open spec fn py_fn_pattern() -> Seq<char> {
    "^\\s*(async\\s+)?def\\s+([a-zA-Z0-9_]+)"@
}

/// Python classes.
pub open spec fn py_class_pattern() -> Seq<char> {
    "^\\s*class\\s+([a-zA-Z0-9_]+)"@
}

/// JavaScript functions.
pub open spec fn js_fn_pattern() -> Seq<char> {
    "^\\s*(export\\s+)?(async\\s+)?function\\s+([a-zA-Z0-9_]+)"@
}

/// JavaScript classes.
pub open spec fn js_class_pattern() -> Seq<char> {
    "^\\s*(export\\s+)?class\\s+([a-zA-Z0-9_]+)"@
}

/// Group `k` of a match.
pub open spec fn group_of(m: Seq<Option<Seq<char>>>, k: int) -> Option<Seq<char>> {
    if 0 <= k < m.len() { m[k] } else { None }
}

/// A symbol found on a line.
#[derive(Debug, Clone)]
pub struct SymbolEntry {
    pub file_path: String,
    pub symbol_type: &'static str,
    pub name: String,
    pub line_number: usize,
}

/// A symbol as file, kind, name and line.
pub type EntryView = (Seq<char>, Seq<char>, Seq<char>, int);

/// The view of a symbol.
pub open spec fn entry_view(e: SymbolEntry) -> EntryView {
    (e.file_path@, e.symbol_type@, e.name@, e.line_number as int)
}

/// The views of symbols.
pub open spec fn entries_view(v: Seq<SymbolEntry>) -> Seq<EntryView> {
    v.map_values(|e: SymbolEntry| entry_view(e))
}

/// The kind and name of the symbol a line declares, by the file's
/// language: the first pattern that matches decides.
pub open spec fn line_symbol(rel: Seq<char>, line: Seq<char>) -> Option<(Seq<char>, Seq<char>)> {
    let (first, second, kinds) = if has_suffix(rel, ".rs"@) {
        (rust_fn_pattern(), rust_type_pattern(), 0int)
    } else if has_suffix(rel, ".py"@) {
        (py_fn_pattern(), py_class_pattern(), 1int)
    } else {
        (js_fn_pattern(), js_class_pattern(), 2int)
    };
    let known = has_suffix(rel, ".rs"@) || has_suffix(rel, ".py"@) || has_suffix(rel, ".js"@) || has_suffix(rel, ".ts"@)
        || has_suffix(rel, ".tsx"@) || has_suffix(rel, ".jsx"@);
    if !known {
        None
    } else {
        match regex_groups(first, line) {
            Some(g) => {
                let k = if kinds == 2 { 3int } else { 2int };
                match group_of(g, k) {
                    Some(n) => Some((if kinds == 0 { "fn"@ } else if kinds == 1 { "def"@ } else { "function"@ }, n)),
                    None => None,
                }
            },
            None => match regex_groups(second, line) {
                Some(g) => if kinds == 0 {
                    match (group_of(g, 2), group_of(g, 3)) {
                        (Some(a), Some(b)) => Some(("type"@, a + " "@ + b)),
                        _ => None,
                    }
                } else {
                    match group_of(g, if kinds == 1 { 1int } else { 2int }) {
                        Some(n) => Some(("class"@, n)),
                        None => None,
                    }
                },
                None => None,
            },
        }
    }
}

/// The symbols of lines from index `i` on, numbered from 1.
pub open spec fn symbols_from(rel: Seq<char>, lines: Seq<Seq<char>>, i: int) -> Seq<EntryView>
    decreases lines.len() - i,
{
    if i < 0 || i >= lines.len() {
        Seq::empty()
    } else {
        let rest = symbols_from(rel, lines, i + 1);
        match line_symbol(rel, lines[i]) {
            Some(s) => seq![(rel, s.0, s.1, i + 1)] + rest,
            None => rest,
        }
    }
}

fn group_text(g: &Vec<Option<String>>, k: usize) -> (r: Option<String>)
    ensures
        ot(r) == group_of(g@.map_values(|x: Option<String>| ot(x)), k as int),
{
    if k < g.len() {
        match &g[k] {
            Some(t) => Some(t.clone()),
            None => None,
        }
    } else {
        None
    }
}

fn line_symbol_exec(rel: &str, line: &str) -> (r: Option<(&'static str, String)>)
    ensures
        match r {
            Some(x) => line_symbol(rel@, line@) == Some((x.0@, x.1@)),
            None => line_symbol(rel@, line@) is None,
        },
{
    let rv = chars_of(rel);
    let is_rs = ends_with(rv.as_slice(), chars_of(".rs").as_slice());
    let is_py = ends_with(rv.as_slice(), chars_of(".py").as_slice());
    let is_js = ends_with(rv.as_slice(), chars_of(".js").as_slice()) || ends_with(rv.as_slice(), chars_of(".ts").as_slice())
        || ends_with(rv.as_slice(), chars_of(".tsx").as_slice()) || ends_with(rv.as_slice(), chars_of(".jsx").as_slice());
    if !(is_rs || is_py || is_js) {
        return None;
    }
    let ghost kinds: int = if is_rs { 0 } else if is_py { 1 } else { 2 };
    let (first, second): (&str, &str) = if is_rs {
        ("^\\s*(pub\\s+|async\\s+)*fn\\s+([a-zA-Z0-9_]+)", "^\\s*(pub\\s+)*(struct|enum|trait|type|union)\\s+([a-zA-Z0-9_]+)")
    } else if is_py {
        ("^\\s*(async\\s+)?def\\s+([a-zA-Z0-9_]+)", "^\\s*class\\s+([a-zA-Z0-9_]+)")
    } else {
        ("^\\s*(export\\s+)?(async\\s+)?function\\s+([a-zA-Z0-9_]+)", "^\\s*(export\\s+)?class\\s+([a-zA-Z0-9_]+)")
    };
    match regex_captures(first, line) {
        Some(g) => {
            let k: usize = if is_rs || is_py { 2 } else { 3 };
            match group_text(&g, k) {
                Some(n) => {
                    let kind: &'static str = if is_rs { "fn" } else if is_py { "def" } else { "function" };
                    Some((kind, n))
                },
                None => None,
            }
        },
        None => match regex_captures(second, line) {
            Some(g) => {
                if is_rs {
                    match (group_text(&g, 2), group_text(&g, 3)) {
                        (Some(a), Some(b)) => {
                            let mut n = a;
                            push_str(&mut n, " ");
                            push_str(&mut n, b.as_str());
                            Some(("type", n))
                        },
                        _ => None,
                    }
                } else {
                    let k: usize = if is_py { 1 } else { 2 };
                    match group_text(&g, k) {
                        Some(n) => Some(("class", n)),
                        None => None,
                    }
                }
            },
            None => None,
        },
    }
}

/// The symbols declared in a file's text, line by line (see
/// `symbols_from`).
pub fn extract_symbols_from_content(rel_path: &str, content: &str) -> (r: Vec<SymbolEntry>)
    ensures
        entries_view(r@) == symbols_from(rel_path@, text_lines(content@), 0),
{
    let lines = split_lines(content);
    let ghost ls = text_lines(content@);
    let mut out: Vec<SymbolEntry> = Vec::new();
    let mut i: usize = 0;
    assert(entries_view(out@) =~= Seq::<EntryView>::empty());
    while i < lines.len()
        invariant
            i <= lines@.len(),
            lines@.len() == ls.len(),
            ls == text_lines(content@),
            forall|k: int| 0 <= k < lines@.len() ==> (#[trigger] lines@[k])@ == ls[k],
            entries_view(out@) + symbols_from(rel_path@, ls, i as int) == symbols_from(rel_path@, ls, 0),
        decreases lines@.len() - i,
    {
        let ghost before = entries_view(out@);
        match line_symbol_exec(rel_path, lines[i].as_str()) {
            Some((kind, name)) => {
                let e = SymbolEntry { file_path: owned(rel_path), symbol_type: kind, name, line_number: i + 1 };
                out.push(e);
                assert(entries_view(out@) =~= before.push(entry_view(e)));
                assert(before.push(entry_view(e)) + symbols_from(rel_path@, ls, i + 1)
                    =~= before + symbols_from(rel_path@, ls, i as int));
            },
            None => {},
        }
        i += 1;
    }
    assert(entries_view(out@) + Seq::<EntryView>::empty() =~= entries_view(out@));
    out
}

/// A queryable index of symbols.
pub struct SymbolIndex {
    entries: Vec<SymbolEntry>,
}

/// The symbols, in order, whose lowercase name contains `q`, and is `q`
/// exactly or not as `exact` says.
pub open spec fn name_hits(es: Seq<EntryView>, q: Seq<char>, exact: bool) -> Seq<EntryView>
    decreases es.len(),
{
    if es.len() == 0 {
        Seq::empty()
    } else {
        let rest = name_hits(es.drop_last(), q, exact);
        let n = unicode_lowercase(es.last().2);
        if contains_seq(n, q) && (n == q) == exact { rest.push(es.last()) } else { rest }
    }
}

/// The symbols, in order, of the given kind.
pub open spec fn kind_hits(es: Seq<EntryView>, kind: Seq<char>) -> Seq<EntryView>
    decreases es.len(),
{
    if es.len() == 0 {
        Seq::empty()
    } else {
        let rest = kind_hits(es.drop_last(), kind);
        if es.last().1 == kind { rest.push(es.last()) } else { rest }
    }
}

/// A prefix of at most `n` items.
pub open spec fn at_most<A>(s: Seq<A>, n: int) -> Seq<A> {
    if s.len() <= n { s } else { s.subrange(0, n) }
}

/// The views of borrowed symbols.
pub open spec fn refs_view(v: Seq<&SymbolEntry>) -> Seq<EntryView> {
    v.map_values(|e: &SymbolEntry| entry_view(*e))
}

impl SymbolIndex {
    /// The symbols of the index, in order.
    pub closed spec fn view_entries(&self) -> Seq<EntryView> {
        entries_view(self.entries@)
    }

    /// An index of the given symbols.
    pub fn from_entries(entries: Vec<SymbolEntry>) -> (r: SymbolIndex)
        ensures
            r.view_entries() == entries_view(entries@),
    {
        SymbolIndex { entries }
    }

    /// Symbols whose lowercase name contains the lowercase query: exact
    /// names first, each group in index order, at most `limit`.
    pub fn search(&self, query: &str, limit: usize) -> (r: Vec<&SymbolEntry>)
        ensures
            refs_view(r@) == at_most(
                name_hits(self.view_entries(), unicode_lowercase(query@), true)
                    + name_hits(self.view_entries(), unicode_lowercase(query@), false),
                limit as int,
            ),
    {
        let q = to_lowercase(query);
        let ghost es = self.view_entries();
        let mut exact: Vec<&SymbolEntry> = Vec::new();
        let mut other: Vec<&SymbolEntry> = Vec::new();
        let mut i: usize = 0;
        assert(es.subrange(0, 0) =~= Seq::<EntryView>::empty());
        while i < self.entries.len()
            invariant
                i <= self.entries@.len(),
                es == entries_view(self.entries@),
                refs_view(exact@) == name_hits(es.subrange(0, i as int), q@, true),
                refs_view(other@) == name_hits(es.subrange(0, i as int), q@, false),
            decreases self.entries@.len() - i,
        {
            let e = &self.entries[i];
            let ghost sub = es.subrange(0, i + 1);
            assert(sub.drop_last() =~= es.subrange(0, i as int));
            assert(sub.last() == entry_view(*e));
            let n = to_lowercase(e.name.as_str());
            let nv = chars_of(n.as_str());
            if contains_str(nv.as_slice(), q.as_str()) {
                let ghost before_e = refs_view(exact@);
                let ghost before_o = refs_view(other@);
                if n == q {
                    exact.push(e);
                    assert(refs_view(exact@) =~= before_e.push(entry_view(*e)));
                } else {
                    other.push(e);
                    assert(refs_view(other@) =~= before_o.push(entry_view(*e)));
                }
            }
            i += 1;
        }
        assert(es.subrange(0, i as int) =~= es);
        let ghost all = refs_view(exact@) + refs_view(other@);
        let mut r: Vec<&SymbolEntry> = Vec::new();
        let mut k: usize = 0;
        while k < exact.len() && r.len() < limit
            invariant
                k <= exact@.len(),
                r@.len() == k,
                k <= limit,
                all == refs_view(exact@) + refs_view(other@),
                refs_view(r@) == all.subrange(0, k as int),
            decreases exact@.len() - k,
        {
            let ghost before = refs_view(r@);
            r.push(exact[k]);
            assert(refs_view(r@) =~= all.subrange(0, k + 1));
            k += 1;
        }
        let mut j: usize = 0;
        while j < other.len() && r.len() < limit
            invariant
                k <= exact@.len(),
                r@.len() == k + j,
                j <= other@.len(),
                k + j <= limit,
                (k < exact@.len() ==> j == 0 && k == limit),
                all == refs_view(exact@) + refs_view(other@),
                refs_view(r@) == all.subrange(0, k + j),
            decreases other@.len() - j,
        {
            r.push(other[j]);
            assert(refs_view(r@) =~= all.subrange(0, k + j + 1));
            j += 1;
        }
        proof {
            if all.len() <= limit {
                assert(k + j == all.len());
                assert(all.subrange(0, k + j) =~= all);
            }
        }
        r
    }

    /// Symbols of the given kind, in index order, at most `limit`.
    pub fn search_type(&self, symbol_type: &str, limit: usize) -> (r: Vec<&SymbolEntry>)
        ensures
            refs_view(r@) == at_most(kind_hits(self.view_entries(), symbol_type@), limit as int),
    {
        let ghost es = self.view_entries();
        let tv = chars_of(symbol_type);
        let mut hits: Vec<&SymbolEntry> = Vec::new();
        let mut i: usize = 0;
        assert(es.subrange(0, 0) =~= Seq::<EntryView>::empty());
        while i < self.entries.len()
            invariant
                i <= self.entries@.len(),
                es == entries_view(self.entries@),
                tv@ == symbol_type@,
                refs_view(hits@) == kind_hits(es.subrange(0, i as int), symbol_type@),
            decreases self.entries@.len() - i,
        {
            let e = &self.entries[i];
            let ghost sub = es.subrange(0, i + 1);
            assert(sub.drop_last() =~= es.subrange(0, i as int));
            assert(sub.last() == entry_view(*e));
            let kv = chars_of(e.symbol_type);
            if kv.len() == tv.len() && ends_with(kv.as_slice(), tv.as_slice()) {
                assert(kv@.subrange(0, kv@.len() as int) =~= kv@);
                let ghost before = refs_view(hits@);
                hits.push(e);
                assert(refs_view(hits@) =~= before.push(entry_view(*e)));
            } else {
                proof {
                    if kv@ == tv@ {
                        assert(kv@.subrange(0, kv@.len() as int) =~= kv@);
                    }
                }
            }
            i += 1;
        }
        assert(es.subrange(0, i as int) =~= es);
        let mut r: Vec<&SymbolEntry> = Vec::new();
        let mut k: usize = 0;
        while k < hits.len() && k < limit
            invariant
                k <= hits@.len(),
                r@.len() == k,
                k <= limit,
                refs_view(r@) == refs_view(hits@).subrange(0, k as int),
            decreases hits@.len() - k,
        {
            r.push(hits[k]);
            assert(refs_view(r@) =~= refs_view(hits@).subrange(0, k + 1));
            k += 1;
        }
        proof {
            if refs_view(hits@).len() <= limit {
                assert(refs_view(hits@).subrange(0, k as int) =~= refs_view(hits@));
            }
        }
        r
    }

    /// Every symbol of the index.
    pub fn all(&self) -> (r: &[SymbolEntry])
        ensures
            entries_view(r@) == self.view_entries(),
    {
        self.entries.as_slice()
    }
}

/// `{:<4}`: text padded with spaces on the right to four characters.
pub open spec fn left_aligned4(t: Seq<char>) -> Seq<char> {
    if t.len() >= 4 { t } else { t + Seq::new((4 - t.len()) as nat, |i: int| ' ') }
}

/// The line of a symbol in the map.
pub open spec fn map_line(e: EntryView) -> Seq<char> {
    "  L"@ + left_aligned4(dec(e.3 as nat)) + " "@ + e.1 + " "@ + e.2
}

/// The lines of the symbols from `i` on, with a file heading whenever the
/// file changes from `cur`.
pub open spec fn map_lines(es: Seq<EntryView>, i: int, cur: Seq<char>) -> Seq<Seq<char>>
    decreases es.len() - i,
{
    if i < 0 || i >= es.len() {
        Seq::empty()
    } else {
        let e = es[i];
        (if e.0 != cur { seq!["\nFile `"@ + e.0 + "`:"@] } else { Seq::empty() }) + seq![map_line(e)]
            + map_lines(es, i + 1, e.0)
    }
}

/// The symbol map: a heading and the symbol lines; when longer than `max`
/// bytes, its longest prefix of at most `max` bytes that ends at a character
/// boundary, with a note.
pub open spec fn symbol_map_text(es: Seq<EntryView>, max: nat) -> Seq<char> {
    let full = join(seq!["### Repository Symbol Map"@] + map_lines(es, 0, Seq::empty()), "\n"@);
    if es.len() == 0 {
        "No symbols found in workspace."@
    } else if encode_utf8(full).len() > max {
        full.subrange(0, utf8_cut(full, 0, 0, max as int))
            + "\n...[repo map truncated at "@ + dec(max) + " bytes]"@
    } else {
        full
    }
}

/// The compact symbol map of symbols (see `symbol_map_text`).
pub fn render_symbol_map(symbols: &Vec<SymbolEntry>, max_bytes: usize) -> (r: String)
    ensures
        r@ == symbol_map_text(entries_view(symbols@), max_bytes as nat),
{
    let ghost es = entries_view(symbols@);
    if symbols.len() == 0 {
        return owned("No symbols found in workspace.");
    }
    let mut lines: Vec<String> = Vec::new();
    lines.push(owned("### Repository Symbol Map"));
    let ghost head = texts(lines@);
    let mut cur = String::new();
    let mut i: usize = 0;
    assert(head + map_lines(es, 0, Seq::empty()) == texts(lines@) + map_lines(es, 0, cur@));
    while i < symbols.len()
        invariant
            i <= symbols@.len(),
            es == entries_view(symbols@),
            head == seq!["### Repository Symbol Map"@],
            texts(lines@) + map_lines(es, i as int, cur@) == head + map_lines(es, 0, Seq::empty()),
        decreases symbols@.len() - i,
    {
        let e = &symbols[i];
        let ghost ev = entry_view(*e);
        assert(es[i as int] == ev);
        let ghost before = texts(lines@);
        let ghost cur_old = cur@;
        if e.file_path != cur {
            let mut h = owned("\nFile `");
            push_str(&mut h, e.file_path.as_str());
            push_str(&mut h, "`:");
            lines.push(h);
            cur = e.file_path.clone();
        }
        let mut l = owned("  L");
        let mut d = String::new();
        push_decimal(&mut d, e.line_number as u64);
        let dl = d.as_str().unicode_len();
        push_str(&mut l, d.as_str());
        let mut pad = dl;
        let ghost l0 = l@;
        while pad < 4
            invariant
                dl <= pad <= 4 || (dl >= 4 && pad == dl),
                l@ == l0 + Seq::new((pad - dl) as nat, |k: int| ' '),
            decreases 4 - pad,
        {
            proof { reveal_strlit(" "); }
            push_str(&mut l, " ");
            assert(l@ =~= l0 + Seq::new((pad + 1 - dl) as nat, |k: int| ' '));
            pad += 1;
        }
        push_str(&mut l, " ");
        push_str(&mut l, e.symbol_type);
        push_str(&mut l, " ");
        push_str(&mut l, e.name.as_str());
        proof {
            assert(d@ == dec(ev.3 as nat));
            if dl >= 4 {
                assert(l0 + Seq::new(0nat, |k: int| ' ') =~= l0);
            }
            assert(l@ =~= map_line(ev));
        }
        lines.push(l);
        assert(cur@ == ev.0);
        assert(texts(lines@) + map_lines(es, i + 1, cur@) =~= before + map_lines(es, i as int, cur_old));
        i += 1;
    }
    let mut full = String::new();
    push_joined(&mut full, &lines, "\n");
    assert(full@ == join(head + map_lines(es, 0, Seq::empty()), "\n"@)) by {
        assert(map_lines(es, i as int, cur@) =~= Seq::<Seq<char>>::empty());
        assert(texts(lines@) + Seq::<Seq<char>>::empty() =~= texts(lines@));
    }
    let blen = full.as_str().as_bytes().len();
    if blen > max_bytes {
        let fv = chars_of(full.as_str());
        let cut = utf8_cut_exec(fv.as_slice(), max_bytes);
        let mut out = string_of(fv.as_slice(), 0, cut);
        push_str(&mut out, "\n...[repo map truncated at ");
        push_decimal(&mut out, max_bytes as u64);
        push_str(&mut out, " bytes]");
        out
    } else {
        full
    }
}


/// Directory entries the symbol scan skips.
pub open spec fn symbol_scan_skips(name: Seq<char>) -> bool {
    ||| name == ".git"@ ||| name == "target"@ ||| name == "node_modules"@ ||| name == "vendor"@
    ||| name == "dist"@ ||| name == "build"@ ||| name == ".idea"@ ||| name == ".vscode"@
    ||| name == "brain"@
}

/// Whether the symbol scan skips an entry of this name.
pub fn is_symbol_scan_skipped(name: &str) -> (b: bool)
    ensures
        b == symbol_scan_skips(name@),
{
    let v = crate::text::chars_of(name);
    let n = v.len();
    assert(v@.subrange(0, n as int) =~= v@);
    let s = v.as_slice();
    crate::textops::range_eq_str(s, 0, n, ".git") || crate::textops::range_eq_str(s, 0, n, "target")
        || crate::textops::range_eq_str(s, 0, n, "node_modules") || crate::textops::range_eq_str(s, 0, n, "vendor")
        || crate::textops::range_eq_str(s, 0, n, "dist") || crate::textops::range_eq_str(s, 0, n, "build")
        || crate::textops::range_eq_str(s, 0, n, ".idea") || crate::textops::range_eq_str(s, 0, n, ".vscode")
        || crate::textops::range_eq_str(s, 0, n, "brain")
}

} // verus!
