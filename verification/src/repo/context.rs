//! A structural map of a Rust repository: per file, the declared modules,
//! imports, re-exports and symbols found by a line-based scan.
use vstd::prelude::*;
use std::path::PathBuf;
use crate::text::{chars_of, push_str, push_char, push_decimal, string_of, has_prefix, dec, owned};
use crate::textops::{
    trim_ws, trim_bounds, trim_end_char, trim_end_char_bound, strip_prefixes, before_char, index_of,
    index_of_char, lemma_index_of, contains_seq, contains_str, has_char, has_char_exec, count_char,
    count_char_exec, starts_with_str, sub_vec, is_alphabetic, unicode_alphabetic, find_seq, pieces, split_bounds,
    text_lt, text_less, lemma_text_lt_transitive, lemma_text_lt_total, lemma_text_lt_irreflexive, range_eq_str,
};
use crate::text::{first_newline, lemma_first_newline};
use crate::ui::engine::widgets::{split_lines, text_lines};

verus! {

/// `std::path::PathBuf`, carried as an opaque value.
#[verifier::external_type_specification]
#[verifier::external_body]
pub struct ExPathBuf(std::path::PathBuf);

/// The kind of a symbol found in a source file.
#[derive(Debug, Clone, Copy, PartialEq, Eq, Structural)]
pub enum SymbolKind {
    Module,
    Struct,
    Field,
    Enum,
    Trait,
    Function,
    Method,
    ReExport,
    Import,
    Test,
}

/// A symbol with its kind, signature and 1-based line.
#[derive(Debug, Clone)]
pub struct Symbol {
    pub name: String,
    pub kind: SymbolKind,
    pub signature: Option<String>,
    pub line_number: usize,
}

/// What the scan found in one source file.
#[derive(Debug)]
pub struct FileInfo {
    pub path: PathBuf,
    pub rel_path: String,
    pub modules: Vec<String>,
    pub imports: Vec<String>,
    pub exports: Vec<String>,
    pub symbols: Vec<Symbol>,
}

/// The files of a repository, with the crate name when known.
#[derive(Debug, Default)]
pub struct RepoMap {
    pub crate_name: Option<String>,
    pub files: Vec<FileInfo>,
}

/// A symbol as name, kind, signature and line.
pub type SymView = (Seq<char>, SymbolKind, Option<Seq<char>>, int);

/// The view of a symbol.
pub open spec fn sym_view(s: Symbol) -> SymView {
    (s.name@, s.kind, match s.signature { Some(t) => Some(t@), None => None }, s.line_number as int)
}

/// The views of the strings of a vector.
pub open spec fn texts(v: Seq<String>) -> Seq<Seq<char>> {
    v.map_values(|s: String| s@)
}

/// The state of the line scan.
pub struct ScanView {
    pub modules: Seq<Seq<char>>,
    pub imports: Seq<Seq<char>>,
    pub exports: Seq<Seq<char>>,
    pub symbols: Seq<SymView>,
    pub current_impl: Option<Seq<char>>,
    pub depth: int,
    pub next_is_test: bool,
}

/// Whether a trimmed line declares a struct, enum or trait.
pub open spec fn is_type_decl(t: Seq<char>) -> bool {
    ||| has_prefix(t, "pub struct "@) ||| has_prefix(t, "struct "@)
    ||| has_prefix(t, "pub enum "@) ||| has_prefix(t, "enum "@)
    ||| has_prefix(t, "pub trait "@) ||| has_prefix(t, "trait "@)
}

/// Whether a trimmed line ends with `c`.
pub open spec fn ends_in(t: Seq<char>, c: char) -> bool {
    t.len() > 0 && t.last() == c
}

/// The state after the struct, enum or trait declared on the line.
pub open spec fn scan_type(st: ScanView, t: Seq<char>, num: int) -> ScanView {
    if is_type_decl(t) {
        let kind = if contains_seq(t, "struct "@) {
            SymbolKind::Struct
        } else if contains_seq(t, "enum "@) {
            SymbolKind::Enum
        } else {
            SymbolKind::Trait
        };
        let name = trim_ws(trim_end_char(before_char(t, '{'), ';'));
        let sig = if has_char(t, '{') && has_char(t, '}') { Some(t) } else { None };
        ScanView { symbols: st.symbols.push((name, kind, sig, num)), ..st }
    } else {
        st
    }
}

/// The state after a struct field on the line (outside any impl block).
pub open spec fn scan_field(st: ScanView, t: Seq<char>, num: int) -> ScanView {
    if has_char(t, ':') && !has_prefix(t, "//"@) && !has_prefix(t, "use "@) && !has_prefix(t, "impl "@)
        && !contains_seq(t, "fn "@) && st.current_impl is None {
        let clean = trim_ws(trim_end_char(t, ','));
        if (has_prefix(clean, "pub "@) || (clean.len() > 0 && unicode_alphabetic(clean[0])))
            && !has_char(clean, '{') && !has_char(clean, '}') {
            ScanView { symbols: st.symbols.push((clean, SymbolKind::Field, Some(clean), num)), ..st }
        } else {
            st
        }
    } else {
        st
    }
}

/// The state after a function on the line: a test after a test attribute,
/// a method inside an impl block (named `Type::signature`), otherwise a
/// function when it starts with `pub ` or `fn `.
pub open spec fn scan_fn(st: ScanView, t: Seq<char>, num: int) -> ScanView {
    if contains_seq(t, "fn "@) && (ends_in(t, '{') || ends_in(t, ';') || contains_seq(t, " {"@)) {
        let sig = trim_ws(trim_end_char(before_char(t, '{'), ';'));
        if st.next_is_test {
            ScanView { symbols: st.symbols.push((sig, SymbolKind::Test, Some(sig), num)), next_is_test: false, ..st }
        } else {
            match st.current_impl {
                Some(target) => ScanView {
                    symbols: st.symbols.push((target + "::"@ + sig, SymbolKind::Method, Some(sig), num)),
                    ..st
                },
                None => if has_prefix(sig, "pub "@) || has_prefix(sig, "fn "@) {
                    ScanView { symbols: st.symbols.push((sig, SymbolKind::Function, Some(sig), num)), ..st }
                } else {
                    st
                },
            }
        }
    } else {
        st
    }
}

/// The state after the braces of the line inside an impl block: the block
/// closes once its depth falls to zero on a line with a `}`.
pub open spec fn scan_braces(st: ScanView, t: Seq<char>) -> ScanView {
    if st.current_impl is Some {
        let d = st.depth + count_char(t, '{') - count_char(t, '}');
        if d <= 0 && count_char(t, '}') > 0 {
            ScanView { current_impl: None, depth: 0, ..st }
        } else {
            ScanView { depth: d, ..st }
        }
    } else {
        st
    }
}

/// The scan state after line number `num`.
pub open spec fn scan_line(st: ScanView, line: Seq<char>, num: int) -> ScanView {
    let t = trim_ws(line);
    if t.len() == 0 || has_prefix(t, "//"@) {
        st
    } else if contains_seq(t, "#[test]"@) || contains_seq(t, "#[tokio::test]"@) {
        ScanView { next_is_test: true, ..st }
    } else if (has_prefix(t, "pub mod "@) || has_prefix(t, "mod "@)) && ends_in(t, ';') {
        let name = trim_ws(trim_end_char(t, ';'));
        ScanView { modules: st.modules.push(name), symbols: st.symbols.push((name, SymbolKind::Module, None, num)), ..st }
    } else if has_prefix(t, "pub use "@) && ends_in(t, ';') {
        let e = trim_ws(trim_end_char(t, ';'));
        ScanView { exports: st.exports.push(e), symbols: st.symbols.push((e, SymbolKind::ReExport, None, num)), ..st }
    } else if has_prefix(t, "use "@) && ends_in(t, ';') {
        let m = trim_ws(trim_end_char(t, ';'));
        ScanView { imports: st.imports.push(m), symbols: st.symbols.push((m, SymbolKind::Import, None, num)), ..st }
    } else {
        let st1 = if has_prefix(t, "impl "@) && (ends_in(t, '{') || contains_seq(t, " {"@)) {
            ScanView { current_impl: Some(trim_ws(before_char(strip_prefixes(t, "impl "@), '{'))), depth: 0, ..st }
        } else {
            st
        };
        scan_braces(scan_fn(scan_field(scan_type(st1, t, num), t, num), t, num), t)
    }
}

/// The empty scan state.
pub open spec fn scan_start() -> ScanView {
    ScanView {
        modules: Seq::empty(),
        imports: Seq::empty(),
        exports: Seq::empty(),
        symbols: Seq::empty(),
        current_impl: None,
        depth: 0,
        next_is_test: false,
    }
}

/// The scan state after the first `n` lines.
pub open spec fn scan_lines(lines: Seq<Seq<char>>, n: int) -> ScanView
    decreases n,
{
    if n <= 0 { scan_start() } else { scan_line(scan_lines(lines, n - 1), lines[n - 1], n) }
}

/// The summed lengths of lines.
spec fn lines_total(ls: Seq<Seq<char>>) -> nat
    decreases ls.len(),
{
    if ls.len() == 0 { 0 } else { ls[0].len() + lines_total(ls.drop_first()) }
}

/// The lines of a text hold no more characters than the text.
proof fn lemma_text_lines_total(s: Seq<char>)
    ensures
        lines_total(text_lines(s)) <= s.len(),
    decreases s.len(),
{
    if s.len() > 0 {
        let i = first_newline(s, 0);
        lemma_first_newline(s, 0);
        if i < s.len() {
            let rest = s.subrange(i + 1, s.len() as int);
            lemma_text_lines_total(rest);
            let piece = s.subrange(0, i);
            let line = if piece.len() > 0 && piece.last() == '\r' { piece.drop_last() } else { piece };
            let ls = seq![line] + text_lines(rest);
            assert(text_lines(s) == ls);
            assert(ls.drop_first() =~= text_lines(rest));
            assert(ls[0] == line);
            assert(line.len() <= i);
            assert(lines_total(ls) == line.len() + lines_total(text_lines(rest)));
        } else {
            assert(text_lines(s) == seq![s]);
            assert(seq![s].drop_first() =~= Seq::<Seq<char>>::empty());
            assert(lines_total(Seq::<Seq<char>>::empty()) == 0);
            assert(lines_total(seq![s]) == s.len());
        }
    }
}

struct Scan {
    modules: Vec<String>,
    imports: Vec<String>,
    exports: Vec<String>,
    symbols: Vec<Symbol>,
    current_impl: Option<String>,
    depth: i128,
    next_is_test: bool,
}

spec fn scan_view(s: Scan) -> ScanView {
    ScanView {
        modules: texts(s.modules@),
        imports: texts(s.imports@),
        exports: texts(s.exports@),
        symbols: s.symbols@.map_values(|y: Symbol| sym_view(y)),
        current_impl: match s.current_impl { Some(t) => Some(t@), None => None },
        depth: s.depth as int,
        next_is_test: s.next_is_test,
    }
}

fn push_text(v: &mut Vec<String>, s: String)
    ensures
        texts(final(v)@) == texts(old(v)@).push(s@),
{
    let ghost before = texts(v@);
    v.push(s);
    assert(texts(v@) =~= before.push(s@));
}

fn push_symbol(v: &mut Vec<Symbol>, y: Symbol)
    ensures
        final(v)@.map_values(|y: Symbol| sym_view(y)) == old(v)@.map_values(|y: Symbol| sym_view(y)).push(sym_view(y)),
{
    let ghost before = v@.map_values(|y: Symbol| sym_view(y));
    v.push(y);
    assert(v@.map_values(|y: Symbol| sym_view(y)) =~= before.push(sym_view(y)));
}

fn text_of(t: &Vec<char>) -> (s: String)
    ensures
        s@ == t@,
{
    assert(t@.subrange(0, t@.len() as int) =~= t@);
    string_of(t.as_slice(), 0, t.len())
}

/// `trim_ws(trim_end_char(v, c))` as a vector.
fn trim_after_char_trim(t: &Vec<char>, end: usize, c: char) -> (r: Vec<char>)
    requires
        end <= t@.len(),
    ensures
        r@ == trim_ws(trim_end_char(t@.subrange(0, end as int), c)),
{
    let e = trim_end_char_bound(t.as_slice(), 0, end, c);
    let (a, b) = trim_bounds(t.as_slice(), 0, e);
    sub_vec(t.as_slice(), a, b)
}

fn scan_type_exec(s: &mut Scan, t: &Vec<char>, num: usize)
    requires
        t@.len() > 0,
    ensures
        scan_view(*final(s)) == scan_type(scan_view(*old(s)), t@, num as int),
{
    if starts_with_str(t.as_slice(), "pub struct ") || starts_with_str(t.as_slice(), "struct ")
        || starts_with_str(t.as_slice(), "pub enum ") || starts_with_str(t.as_slice(), "enum ")
        || starts_with_str(t.as_slice(), "pub trait ") || starts_with_str(t.as_slice(), "trait ") {
        let kind = if contains_str(t.as_slice(), "struct ") {
            SymbolKind::Struct
        } else if contains_str(t.as_slice(), "enum ") {
            SymbolKind::Enum
        } else {
            SymbolKind::Trait
        };
        let brace = index_of_char(t.as_slice(), '{', 0);
        proof { lemma_index_of(t@, '{', 0); }
        let name = trim_after_char_trim(t, brace, ';');
        let sig = if has_char_exec(t.as_slice(), '{') && has_char_exec(t.as_slice(), '}') { Some(text_of(t)) } else { None };
        push_symbol(&mut s.symbols, Symbol { name: text_of(&name), kind, signature: sig, line_number: num });
    }
}

fn scan_field_exec(s: &mut Scan, t: &Vec<char>, num: usize)
    requires
        t@.len() > 0,
    ensures
        scan_view(*final(s)) == scan_field(scan_view(*old(s)), t@, num as int),
{
    if has_char_exec(t.as_slice(), ':') && !starts_with_str(t.as_slice(), "//") && !starts_with_str(t.as_slice(), "use ")
        && !starts_with_str(t.as_slice(), "impl ") && !contains_str(t.as_slice(), "fn ") && s.current_impl.is_none() {
        let clean = trim_after_char_trim(t, t.len(), ',');
        assert(t@.subrange(0, t@.len() as int) =~= t@);
        let lead = starts_with_str(clean.as_slice(), "pub ") || (clean.len() > 0 && is_alphabetic(clean[0]));
        if lead && !has_char_exec(clean.as_slice(), '{') && !has_char_exec(clean.as_slice(), '}') {
            push_symbol(&mut s.symbols, Symbol {
                name: text_of(&clean),
                kind: SymbolKind::Field,
                signature: Some(text_of(&clean)),
                line_number: num,
            });
        }
    }
}

fn scan_fn_exec(s: &mut Scan, t: &Vec<char>, num: usize)
    requires
        t@.len() > 0,
    ensures
        scan_view(*final(s)) == scan_fn(scan_view(*old(s)), t@, num as int),
{
    let last = t[t.len() - 1];
    if contains_str(t.as_slice(), "fn ") && (last == '{' || last == ';' || contains_str(t.as_slice(), " {")) {
        let brace = index_of_char(t.as_slice(), '{', 0);
        proof { lemma_index_of(t@, '{', 0); }
        let sig = trim_after_char_trim(t, brace, ';');
        if s.next_is_test {
            push_symbol(&mut s.symbols, Symbol {
                name: text_of(&sig),
                kind: SymbolKind::Test,
                signature: Some(text_of(&sig)),
                line_number: num,
            });
            s.next_is_test = false;
        } else {
            match &s.current_impl {
                Some(target) => {
                    let mut name = target.clone();
                    push_str(&mut name, "::");
                    let sig_text = text_of(&sig);
                    push_str(&mut name, sig_text.as_str());
                    push_symbol(&mut s.symbols, Symbol {
                        name,
                        kind: SymbolKind::Method,
                        signature: Some(sig_text),
                        line_number: num,
                    });
                },
                None => {
                    if starts_with_str(sig.as_slice(), "pub ") || starts_with_str(sig.as_slice(), "fn ") {
                        push_symbol(&mut s.symbols, Symbol {
                            name: text_of(&sig),
                            kind: SymbolKind::Function,
                            signature: Some(text_of(&sig)),
                            line_number: num,
                        });
                    }
                },
            }
        }
    }
}

fn scan_braces_exec(s: &mut Scan, t: &Vec<char>, bound: Ghost<int>)
    requires
        -bound@ <= old(s).depth <= bound@,
        bound@ + t@.len() <= usize::MAX,
    ensures
        scan_view(*final(s)) == scan_braces(scan_view(*old(s)), t@),
        -(bound@ + t@.len()) <= final(s).depth <= bound@ + t@.len(),
{
    if s.current_impl.is_some() {
        let opens = count_char_exec(t.as_slice(), '{');
        let closes = count_char_exec(t.as_slice(), '}');
        proof { lemma_count_le(t@, '{'); lemma_count_le(t@, '}'); }
        let d = s.depth + opens as i128 - closes as i128;
        if d <= 0 && closes > 0 {
            s.current_impl = None;
            s.depth = 0;
        } else {
            s.depth = d;
        }
    }
}

proof fn lemma_count_le(s: Seq<char>, c: char)
    ensures
        count_char(s, c) <= s.len(),
    decreases s.len(),
{
    if s.len() > 0 {
        lemma_count_le(s.drop_last(), c);
    }
}

/// Scans one line (see `scan_line`).
fn scan_line_exec(s: &mut Scan, line: &str, num: usize, bound: Ghost<int>)
    requires
        -bound@ <= old(s).depth <= bound@,
        bound@ + line@.len() <= usize::MAX,
    ensures
        scan_view(*final(s)) == scan_line(scan_view(*old(s)), line@, num as int),
        -(bound@ + line@.len()) <= final(s).depth <= bound@ + line@.len(),
{
    let v = chars_of(line);
    let (a, b) = trim_bounds(v.as_slice(), 0, v.len());
    assert(v@.subrange(0, v@.len() as int) =~= v@);
    let t = sub_vec(v.as_slice(), a, b);
    if t.len() == 0 || starts_with_str(t.as_slice(), "//") {
        return;
    }
    if contains_str(t.as_slice(), "#[test]") || contains_str(t.as_slice(), "#[tokio::test]") {
        s.next_is_test = true;
        return;
    }
    let last = t[t.len() - 1];
    assert(t@.subrange(0, t@.len() as int) =~= t@);
    if (starts_with_str(t.as_slice(), "pub mod ") || starts_with_str(t.as_slice(), "mod ")) && last == ';' {
        let name = trim_after_char_trim(&t, t.len(), ';');
        push_text(&mut s.modules, text_of(&name));
        push_symbol(&mut s.symbols, Symbol { name: text_of(&name), kind: SymbolKind::Module, signature: None, line_number: num });
        return;
    }
    if starts_with_str(t.as_slice(), "pub use ") && last == ';' {
        let e = trim_after_char_trim(&t, t.len(), ';');
        push_text(&mut s.exports, text_of(&e));
        push_symbol(&mut s.symbols, Symbol { name: text_of(&e), kind: SymbolKind::ReExport, signature: None, line_number: num });
        return;
    }
    if starts_with_str(t.as_slice(), "use ") && last == ';' {
        let m = trim_after_char_trim(&t, t.len(), ';');
        push_text(&mut s.imports, text_of(&m));
        push_symbol(&mut s.symbols, Symbol { name: text_of(&m), kind: SymbolKind::Import, signature: None, line_number: num });
        return;
    }
    if starts_with_str(t.as_slice(), "impl ") && (last == '{' || contains_str(t.as_slice(), " {")) {
        let k = strip_impl_keyword(&t);
        let rest = sub_vec(t.as_slice(), k, t.len());
        let brace = index_of_char(rest.as_slice(), '{', 0);
        proof { lemma_index_of(rest@, '{', 0); }
        let (ta, tb) = trim_bounds(rest.as_slice(), 0, brace);
        s.current_impl = Some(string_of(rest.as_slice(), ta, tb));
        s.depth = 0;
    }
    scan_type_exec(s, &t, num);
    scan_field_exec(s, &t, num);
    scan_fn_exec(s, &t, num);
    scan_braces_exec(s, &t, bound);
}

fn strip_impl_keyword(t: &Vec<char>) -> (k: usize)
    ensures
        k <= t@.len(),
        t@.subrange(k as int, t@.len() as int) == strip_prefixes(t@, "impl "@),
{
    proof { reveal_strlit("impl "); }
    let mut i: usize = 0;
    assert(t@.subrange(0, t@.len() as int) =~= t@);
    while i < t.len() && t.len() - i >= 5 && t[i] == 'i' && t[i + 1] == 'm' && t[i + 2] == 'p' && t[i + 3] == 'l' && t[i + 4] == ' '
        invariant
            i <= t@.len(),
            "impl "@ == seq!['i', 'm', 'p', 'l', ' '],
            strip_prefixes(t@.subrange(i as int, t@.len() as int), "impl "@) == strip_prefixes(t@, "impl "@),
        decreases t@.len() - i,
    {
        let ghost s = t@.subrange(i as int, t@.len() as int);
        assert(s.subrange(0, 5) =~= seq!['i', 'm', 'p', 'l', ' ']);
        assert(s.subrange(5, s.len() as int) =~= t@.subrange(i + 5, t@.len() as int));
        i += 5;
    }
    proof {
        let s = t@.subrange(i as int, t@.len() as int);
        if s.len() >= 5 && has_prefix(s, "impl "@) {
            assert(s.subrange(0, 5)[0] == s[0] && s.subrange(0, 5)[1] == s[1] && s.subrange(0, 5)[2] == s[2]);
            assert(s.subrange(0, 5)[3] == s[3] && s.subrange(0, 5)[4] == s[4]);
            assert(s[0] == t@[i as int] && s[1] == t@[i + 1] && s[2] == t@[i + 2] && s[3] == t@[i + 3] && s[4] == t@[i + 4]);
        }
    }
    i
}

impl RepoMap {
    /// Scans the source text of the file at `rel_path` line by line (see
    /// `scan_line`) into its modules, imports, re-exports and symbols.
    pub fn parse_rust_source(path: PathBuf, rel_path: &str, content: &str) -> (info: FileInfo)
        ensures
            info.path == path,
            info.rel_path@ == rel_path@,
            ({
                let st = scan_lines(text_lines(content@), text_lines(content@).len() as int);
                &&& texts(info.modules@) == st.modules
                &&& texts(info.imports@) == st.imports
                &&& texts(info.exports@) == st.exports
                &&& info.symbols@.map_values(|y: Symbol| sym_view(y)) == st.symbols
            }),
    {
        let lines = split_lines(content);
        let ghost ls = text_lines(content@);
        let _total = content.unicode_len();
        proof {
            lemma_text_lines_total(content@);
            assert(ls.skip(0) =~= ls);
        }
        let mut s = Scan {
            modules: Vec::new(),
            imports: Vec::new(),
            exports: Vec::new(),
            symbols: Vec::new(),
            current_impl: None,
            depth: 0,
            next_is_test: false,
        };
        assert(scan_view(s) == scan_start()) by {
            assert(texts(s.modules@) =~= Seq::<Seq<char>>::empty());
            assert(texts(s.imports@) =~= Seq::<Seq<char>>::empty());
            assert(texts(s.exports@) =~= Seq::<Seq<char>>::empty());
            assert(s.symbols@.map_values(|y: Symbol| sym_view(y)) =~= Seq::<SymView>::empty());
        }
        let mut i: usize = 0;
        while i < lines.len()
            invariant
                i <= lines@.len(),
                lines@.len() == ls.len(),
                ls == text_lines(content@),
                content@.len() <= usize::MAX,
                lines_total(ls.skip(i as int)) <= content@.len(),
                forall|k: int| 0 <= k < lines@.len() ==> (#[trigger] lines@[k])@ == ls[k],
                scan_view(s) == scan_lines(ls, i as int),
                -(content@.len() - lines_total(ls.skip(i as int))) <= s.depth <= content@.len() - lines_total(ls.skip(i as int)),
            decreases lines@.len() - i,
        {
            proof {
                assert(ls.skip(i as int)[0] == ls[i as int]);
                assert(ls.skip(i as int).drop_first() =~= ls.skip(i + 1));
                assert(lines_total(ls.skip(i as int)) == ls[i as int].len() + lines_total(ls.skip(i + 1)));
            }
            let ghost bound = content@.len() - lines_total(ls.skip(i as int));
            scan_line_exec(&mut s, lines[i].as_str(), i + 1, Ghost(bound));
            i += 1;
        }
        FileInfo {
            path,
            rel_path: owned(rel_path),
            modules: s.modules,
            imports: s.imports,
            exports: s.exports,
            symbols: s.symbols,
        }
    }
}


/// The parts joined with `sep` between them.
pub open spec fn join(parts: Seq<Seq<char>>, sep: Seq<char>) -> Seq<char>
    decreases parts.len(),
{
    if parts.len() == 0 {
        Seq::empty()
    } else if parts.len() == 1 {
        parts[0]
    } else {
        join(parts.drop_last(), sep) + sep + parts.last()
    }
}

/// Appends `parts` joined with `sep`.
pub fn push_joined(out: &mut String, parts: &[String], sep: &str)
    ensures
        final(out)@ == old(out)@ + join(texts(parts@), sep@),
{
    let ghost start = out@;
    let mut k: usize = 0;
    assert(texts(parts@).subrange(0, 0) =~= Seq::<Seq<char>>::empty());
    while k < parts.len()
        invariant
            k <= parts@.len(),
            out@ == start + join(texts(parts@).subrange(0, k as int), sep@),
        decreases parts@.len() - k,
    {
        let ghost ps = texts(parts@).subrange(0, k + 1);
        assert(ps.drop_last() =~= texts(parts@).subrange(0, k as int));
        assert(ps.last() == parts@[k as int]@);
        if k > 0 {
            push_str(out, sep);
        } else {
            assert(texts(parts@).subrange(0, 0) =~= Seq::<Seq<char>>::empty());
        }
        push_str(out, parts[k].as_str());
        assert(out@ =~= start + join(ps, sep@));
        k += 1;
    }
    assert(texts(parts@).subrange(0, k as int) =~= texts(parts@));
}

/// Whether a symbol is listed among a file's declarations (imports,
/// re-exports and module declarations are listed separately).
pub open spec fn is_decl(k: SymbolKind) -> bool {
    k != SymbolKind::Import && k != SymbolKind::ReExport && k != SymbolKind::Module
}

/// The declaration symbols, in order.
pub open spec fn decls(syms: Seq<SymView>) -> Seq<SymView>
    decreases syms.len(),
{
    if syms.len() == 0 {
        Seq::empty()
    } else if is_decl(syms.last().1) {
        decls(syms.drop_last()).push(syms.last())
    } else {
        decls(syms.drop_last())
    }
}

/// The line of the map for one declaration.
pub open spec fn decl_line(y: SymView) -> Seq<char> {
    match y.1 {
        SymbolKind::Field => "        * field: "@ + y.0 + "\n"@,
        SymbolKind::Test => "      - [test] "@ + y.0 + " (line "@ + dec(y.3 as nat) + ")\n"@,
        _ => "      - "@ + y.0 + " (line "@ + dec(y.3 as nat) + ")\n"@,
    }
}

/// The lines of several declarations.
pub open spec fn decl_lines(ys: Seq<SymView>) -> Seq<char>
    decreases ys.len(),
{
    if ys.len() == 0 { Seq::empty() } else { decl_lines(ys.drop_last()) + decl_line(ys.last()) }
}

/// A labelled, comma-joined list line, or nothing for an empty list.
pub open spec fn list_line(label: Seq<char>, items: Seq<Seq<char>>) -> Seq<char> {
    if items.len() == 0 { Seq::empty() } else { label + join(items, ", "@) + "\n"@ }
}

/// The map's entry for one file.
pub open spec fn file_entry(f: FileInfo) -> Seq<char> {
    let ds = decls(f.symbols@.map_values(|y: Symbol| sym_view(y)));
    "• File `"@ + f.rel_path@ + "`:\n"@
        + list_line("    declared modules: "@, texts(f.modules@))
        + list_line("    re-exports: "@, texts(f.exports@))
        + list_line("    imports: "@, texts(f.imports@))
        + (if ds.len() == 0 { Seq::empty() } else { "    symbols, fields & methods:\n"@ + decl_lines(ds) })
        + "\n"@
}

/// The entries of several files.
pub open spec fn file_entries(fs: Seq<FileInfo>) -> Seq<char>
    decreases fs.len(),
{
    if fs.len() == 0 { Seq::empty() } else { file_entries(fs.drop_last()) + file_entry(fs.last()) }
}

/// The grounding rules that close the map.
pub open spec fn grounding_rules() -> Seq<char> {
    "Strict Grounding Constraints & Invariants:\n"@
        + "1. ONLY import from existing modules and crates listed in the map above.\n"@
        + "2. DO NOT invent non-existent root modules (e.g. do NOT invent `crate::accounts` or `crate::errors`).\n"@
        + "3. DO NOT invent non-existent struct methods (e.g. `AccountStore` only has `new`, `insert`, `get`, `get_mut`; it has NO `update` method).\n"@
        + "4. Adhere strictly to existing field types (e.g. `Account.balance` is `f64`, not `i64`).\n"@
        + "5. Use `edit_file` to modify existing files. NEVER use `create_file` on existing files.\n"@
}

/// The prompt text of a repository map: empty without files, otherwise
/// the header, the crate name, one entry per file and the grounding rules.
pub open spec fn map_prompt(m: RepoMap) -> Seq<char> {
    if m.files@.len() == 0 {
        Seq::empty()
    } else {
        "### Repository Structural Architecture & Symbol Grounding Map\n"@
            + (match m.crate_name { Some(n) => "Crate Name: `"@ + n@ + "`\n\n"@, None => Seq::empty() })
            + "Existing workspace files, modules, structs & exact method signatures:\n"@
            + file_entries(m.files@)
            + grounding_rules()
    }
}

fn push_list_line(out: &mut String, label: &str, items: &Vec<String>)
    ensures
        final(out)@ == old(out)@ + list_line(label@, texts(items@)),
{
    if items.len() > 0 {
        push_str(out, label);
        push_joined(out, items, ", ");
        push_str(out, "\n");
    }
}

#[verifier::spinoff_prover]
#[verifier::rlimit(30)]
fn push_decl_line(out: &mut String, y: &Symbol)
    ensures
        final(out)@ == old(out)@ + decl_line(sym_view(*y)),
{
    match y.kind {
        SymbolKind::Field => {
            push_str(out, "        * field: ");
            push_str(out, y.name.as_str());
            push_str(out, "\n");
        },
        SymbolKind::Test => {
            push_str(out, "      - [test] ");
            push_str(out, y.name.as_str());
            push_str(out, " (line ");
            push_decimal(out, y.line_number as u64);
            push_str(out, ")\n");
        },
        _ => {
            push_str(out, "      - ");
            push_str(out, y.name.as_str());
            push_str(out, " (line ");
            push_decimal(out, y.line_number as u64);
            push_str(out, ")\n");
        },
    }
}

#[verifier::spinoff_prover]
#[verifier::rlimit(40)]
fn push_file_entry(out: &mut String, f: &FileInfo)
    ensures
        final(out)@ == old(out)@ + file_entry(*f),
{
    let ghost start = out@;
    push_str(out, "• File `");
    push_str(out, f.rel_path.as_str());
    push_str(out, "`:\n");
    push_list_line(out, "    declared modules: ", &f.modules);
    push_list_line(out, "    re-exports: ", &f.exports);
    push_list_line(out, "    imports: ", &f.imports);
    let ghost head = out@;
    let ghost syms = f.symbols@.map_values(|y: Symbol| sym_view(y));
    let mut body = String::new();
    let mut count: usize = 0;
    let mut k: usize = 0;
    assert(syms.subrange(0, 0) =~= Seq::<SymView>::empty());
    while k < f.symbols.len()
        invariant
            k <= f.symbols@.len(),
            syms == f.symbols@.map_values(|y: Symbol| sym_view(y)),
            body@ == decl_lines(decls(syms.subrange(0, k as int))),
            count == decls(syms.subrange(0, k as int)).len(),
            count <= k,
        decreases f.symbols@.len() - k,
    {
        let ghost pre = syms.subrange(0, k + 1);
        assert(pre.drop_last() =~= syms.subrange(0, k as int));
        assert(pre.last() == sym_view(f.symbols@[k as int]));
        let kind = f.symbols[k].kind;
        if kind != SymbolKind::Import && kind != SymbolKind::ReExport && kind != SymbolKind::Module {
            push_decl_line(&mut body, &f.symbols[k]);
            proof {
                let prev = decls(syms.subrange(0, k as int));
                assert(decls(pre) == prev.push(sym_view(f.symbols@[k as int])));
                assert(prev.push(sym_view(f.symbols@[k as int])).drop_last() =~= prev);
            }
            count += 1;
        }
        k += 1;
    }
    assert(syms.subrange(0, k as int) =~= syms);
    if count > 0 {
        push_str(out, "    symbols, fields & methods:\n");
        push_str(out, body.as_str());
    }
    push_str(out, "\n");
    assert(out@ =~= start + file_entry(*f));
}

impl RepoMap {
    /// The map as prompt text (see `map_prompt`).
    pub fn to_prompt_string(&self) -> (out: String)
        ensures
            out@ == map_prompt(*self),
    {
        if self.files.len() == 0 {
            return String::new();
        }
        let mut out = owned("### Repository Structural Architecture & Symbol Grounding Map\n");
        match &self.crate_name {
            Some(name) => {
                push_str(&mut out, "Crate Name: `");
                push_str(&mut out, name.as_str());
                push_str(&mut out, "`\n\n");
            },
            None => {},
        }
        push_str(&mut out, "Existing workspace files, modules, structs & exact method signatures:\n");
        let ghost head = out@;
        let mut k: usize = 0;
        assert(self.files@.subrange(0, 0) =~= Seq::<FileInfo>::empty());
        while k < self.files.len()
            invariant
                k <= self.files@.len(),
                out@ == head + file_entries(self.files@.subrange(0, k as int)),
            decreases self.files@.len() - k,
        {
            push_file_entry(&mut out, &self.files[k]);
            assert(self.files@.subrange(0, k + 1).drop_last() =~= self.files@.subrange(0, k as int));
            k += 1;
        }
        assert(self.files@.subrange(0, k as int) =~= self.files@);
        push_str(&mut out, "Strict Grounding Constraints & Invariants:\n");
        push_str(&mut out, "1. ONLY import from existing modules and crates listed in the map above.\n");
        push_str(&mut out, "2. DO NOT invent non-existent root modules (e.g. do NOT invent `crate::accounts` or `crate::errors`).\n");
        push_str(&mut out, "3. DO NOT invent non-existent struct methods (e.g. `AccountStore` only has `new`, `insert`, `get`, `get_mut`; it has NO `update` method).\n");
        push_str(&mut out, "4. Adhere strictly to existing field types (e.g. `Account.balance` is `f64`, not `i64`).\n");
        push_str(&mut out, "5. Use `edit_file` to modify existing files. NEVER use `create_file` on existing files.\n");
        out
    }
}


broadcast use vstd::seq_lib::group_to_multiset_ensures;

/// The text without leading and trailing `c` (`trim_matches`).
pub open spec fn trim_char(s: Seq<char>, c: char) -> Seq<char>
    decreases s.len(),
{
    if s.len() > 0 && s[0] == c { trim_char(s.drop_first(), c) } else { trim_end_char(s, c) }
}

/// The bounds of `v[lo..hi]` once leading and trailing `c` are removed.
pub fn trim_char_bounds(v: &[char], lo: usize, hi: usize, c: char) -> (r: (usize, usize))
    requires
        lo <= hi <= v@.len(),
    ensures
        lo <= r.0 <= r.1 <= hi,
        v@.subrange(r.0 as int, r.1 as int) == trim_char(v@.subrange(lo as int, hi as int), c),
{
    let mut a = lo;
    while a < hi && v[a] == c
        invariant
            lo <= a <= hi <= v@.len(),
            trim_char(v@.subrange(a as int, hi as int), c) == trim_char(v@.subrange(lo as int, hi as int), c),
        decreases hi - a,
    {
        assert(v@.subrange(a as int, hi as int).drop_first() =~= v@.subrange(a + 1, hi as int));
        a += 1;
    }
    let b = trim_end_char_bound(v, a, hi, c);
    (a, b)
}

/// The crate name of a manifest: on the first line that starts with
/// `name` and holds `=`, the text after the first `=` with blanks and
/// quotes trimmed, when that is not empty.
pub open spec fn manifest_name(lines: Seq<Seq<char>>) -> Option<Seq<char>>
    decreases lines.len(),
{
    if lines.len() == 0 {
        None
    } else {
        let t = trim_ws(lines[0]);
        let ps = pieces(t, '=');
        let raw = if ps.len() >= 2 { trim_ws(trim_char(trim_char(trim_ws(ps[1]), '"'), '\'')) } else { Seq::empty() };
        if has_prefix(t, "name"@) && has_char(t, '=') && ps.len() >= 2 && raw.len() > 0 {
            Some(raw)
        } else {
            manifest_name(lines.drop_first())
        }
    }
}

/// The crate name declared in a Cargo manifest (see `manifest_name`).
pub fn crate_name_from_manifest(content: &str) -> (r: Option<String>)
    ensures
        match r {
            Some(n) => manifest_name(text_lines(content@)) == Some(n@),
            None => manifest_name(text_lines(content@)) is None,
        },
{
    let lines = split_lines(content);
    let ghost ls = text_lines(content@);
    let mut i: usize = 0;
    assert(ls.subrange(0, ls.len() as int) =~= ls);
    while i < lines.len()
        invariant
            i <= lines@.len(),
            lines@.len() == ls.len(),
            ls == text_lines(content@),
            forall|k: int| 0 <= k < lines@.len() ==> (#[trigger] lines@[k])@ == ls[k],
            manifest_name(ls.subrange(i as int, ls.len() as int)) == manifest_name(ls),
        decreases lines@.len() - i,
    {
        let ghost rest = ls.subrange(i as int, ls.len() as int);
        assert(rest.drop_first() =~= ls.subrange(i + 1, ls.len() as int));
        assert(rest[0] == ls[i as int]);
        let v = chars_of(lines[i].as_str());
        let (a, b) = trim_bounds(v.as_slice(), 0, v.len());
        assert(v@.subrange(0, v@.len() as int) =~= v@);
        let t = sub_vec(v.as_slice(), a, b);
        if starts_with_str(t.as_slice(), "name") && has_char_exec(t.as_slice(), '=') {
            let parts = split_bounds(t.as_slice(), '=', 0);
            assert(t@.subrange(0, t@.len() as int) =~= t@);
            if parts.len() >= 2 {
                let (p0, p1) = parts[1];
                let (a1, b1) = trim_bounds(t.as_slice(), p0, p1);
                let (a2, b2) = trim_char_bounds(t.as_slice(), a1, b1, '"');
                let (a3, b3) = trim_char_bounds(t.as_slice(), a2, b2, '\'');
                let (a4, b4) = trim_bounds(t.as_slice(), a3, b3);
                if b4 > a4 {
                    return Some(string_of(t.as_slice(), a4, b4));
                }
            }
        }
        i += 1;
    }
    None
}

/// Directory entries the repository walk skips.
pub open spec fn skipped_entry(name: Seq<char>) -> bool {
    ||| name == ".git"@ ||| name == "target"@ ||| name == "node_modules"@ ||| name == "vendor"@
    ||| name == "dist"@ ||| name == "build"@ ||| name == ".idea"@ ||| name == ".vscode"@
    ||| name == "brain"@ ||| name == ".system_generated"@
}

/// Whether the repository walk skips an entry of this name.
pub fn is_skipped_entry(name: &str) -> (b: bool)
    ensures
        b == skipped_entry(name@),
{
    let v = chars_of(name);
    let n = v.len();
    assert(v@.subrange(0, n as int) =~= v@);
    range_eq_str(v.as_slice(), 0, n, ".git") || range_eq_str(v.as_slice(), 0, n, "target")
        || range_eq_str(v.as_slice(), 0, n, "node_modules") || range_eq_str(v.as_slice(), 0, n, "vendor")
        || range_eq_str(v.as_slice(), 0, n, "dist") || range_eq_str(v.as_slice(), 0, n, "build")
        || range_eq_str(v.as_slice(), 0, n, ".idea") || range_eq_str(v.as_slice(), 0, n, ".vscode")
        || range_eq_str(v.as_slice(), 0, n, "brain") || range_eq_str(v.as_slice(), 0, n, ".system_generated")
}

/// Files in order of their relative paths.
pub open spec fn by_path(fs: Seq<FileInfo>) -> bool {
    forall|i: int, j: int| 0 <= i < j < fs.len() ==> !text_lt(#[trigger] fs[j].rel_path@, #[trigger] fs[i].rel_path@)
}

impl RepoMap {
    /// A map of the scanned files, ordered by relative path (files with the
    /// same path keep their order).
    pub fn from_files(crate_name: Option<String>, files: Vec<FileInfo>) -> (m: RepoMap)
        ensures
            m.crate_name == crate_name,
            m.files@.to_multiset() == files@.to_multiset(),
            by_path(m.files@),
    {
        let mut sorted: Vec<FileInfo> = Vec::new();
        let mut rest = files;
        let ghost all = rest@;
        let ghost taken: Seq<FileInfo> = Seq::empty();
        while rest.len() > 0
            invariant
                taken + rest@ == all,
                sorted@.to_multiset() == taken.to_multiset(),
                by_path(sorted@),
            decreases rest@.len(),
        {
            let f = rest.remove(0);
            proof {
                assert(taken.push(f) + rest@ =~= all);
            }
            let mut p = sorted.len();
            let fv = chars_of(f.rel_path.as_str());
            let ghost before = sorted@;
            loop
                invariant
                    p <= sorted@.len(),
                    sorted@ == before,
                    fv@ == f.rel_path@,
                    forall|i: int| p <= i < before.len() ==> text_lt(f.rel_path@, #[trigger] before[i].rel_path@),
                ensures
                    p <= sorted@.len(),
                    sorted@ == before,
                    forall|i: int| p <= i < before.len() ==> text_lt(f.rel_path@, #[trigger] before[i].rel_path@),
                    p == 0 || !text_lt(f.rel_path@, before[p - 1].rel_path@),
                decreases p,
            {
                if p == 0 {
                    break;
                }
                let qv = chars_of(sorted[p - 1].rel_path.as_str());
                if !text_less(fv.as_slice(), qv.as_slice()) {
                    break;
                }
                p -= 1;
            }
            proof {
                let after = before.insert(p as int, f);
                assert forall|i: int, j: int| 0 <= i < j < after.len() implies
                    !text_lt(#[trigger] after[j].rel_path@, #[trigger] after[i].rel_path@) by {
                    if j == p {
                        if i < p - 1 {
                            if text_lt(f.rel_path@, before[i].rel_path@) {
                                lemma_text_lt_total(f.rel_path@, before[p - 1].rel_path@);
                                if text_lt(before[p - 1].rel_path@, f.rel_path@) {
                                    lemma_text_lt_transitive(before[p - 1].rel_path@, f.rel_path@, before[i].rel_path@);
                                }
                                assert(!text_lt(before[p - 1].rel_path@, before[i].rel_path@));
                            }
                        }
                    } else if i == p {
                        lemma_text_lt_irreflexive(f.rel_path@);
                        if text_lt(before[j - 1].rel_path@, f.rel_path@) {
                            lemma_text_lt_transitive(f.rel_path@, before[j - 1].rel_path@, f.rel_path@);
                        }
                    } else {
                        let bi = if i < p { i } else { i - 1 };
                        let bj = if j < p { j } else { j - 1 };
                        assert(after[i] == before[bi] && after[j] == before[bj]);
                    }
                }
            }
            sorted.insert(p, f);
            proof {
                taken = taken.push(f);
            }
        }
        assert(taken =~= all);
        RepoMap { crate_name, files: sorted }
    }
}

} // verus!
