//! Test-runner selection, verification outcomes, and the extraction of
//! compiler diagnostics from raw compiler output.
use vstd::prelude::*;
use crate::text::{chars_of, push_str, push_decimal, push_char, string_of, has_prefix, dec, owned};
use crate::textops::{
    trim_ws, trim_bounds, find_seq, find_from, lemma_find_seq, index_of, index_of_char, lemma_index_of,
    pieces, split_bounds, replace_char, replaced_range, parse_usize, parse_usize_range, starts_with_str,
    has_suffix, ends_with, trim_str, strip_prefixes, sub_vec,
};
use crate::ui::engine::vt::IntoContent;
use crate::ui::engine::widgets::{split_lines, text_lines};
use crate::tools::shell::{CommandOutput, combined_text};

verus! {

/// The outcome of a verification run.
#[derive(Clone, Debug, PartialEq, Eq, Structural)]
pub enum VerificationStatus {
    Passed,
    Failed,
    Unavailable,
}

/// A verification run: its outcome, the command, its exit code, whether it
/// timed out, and what it printed.
#[derive(Clone, Debug)]
pub struct VerificationResult {
    pub status: VerificationStatus,
    pub command: Option<String>,
    pub exit_code: Option<i32>,
    pub timed_out: bool,
    pub output: String,
}

impl VerificationResult {
    /// Whether the run passed.
    pub fn passed(&self) -> (b: bool)
        ensures
            b == (self.status == VerificationStatus::Passed),
    {
        self.status == VerificationStatus::Passed
    }

    /// Whether the run failed.
    pub fn failed(&self) -> (b: bool)
        ensures
            b == (self.status == VerificationStatus::Failed),
    {
        self.status == VerificationStatus::Failed
    }

    /// A result for a workspace where no runner applies, carrying `message`.
    pub fn unavailable<S: IntoContent>(message: S) -> (r: Self)
        ensures
            r.status == VerificationStatus::Unavailable,
            r.command.is_none(),
            r.exit_code.is_none(),
            !r.timed_out,
            r.output@ == message.content_view(),
    {
        VerificationResult {
            status: VerificationStatus::Unavailable,
            command: None,
            exit_code: None,
            timed_out: false,
            output: message.into_content(),
        }
    }
}

/// The result of running the verification command `command`, from what it
/// gave back: passed or failed (see `verification_status`), its exit code,
/// whether it timed out, and its combined report.
pub fn verification_result(command: &str, out: &CommandOutput) -> (r: VerificationResult)
    ensures
        r.status == (if out.code == Some(0i32) && !out.timed_out { VerificationStatus::Passed } else { VerificationStatus::Failed }),
        r.command matches Some(c) && c@ == command@,
        r.exit_code == out.code,
        r.timed_out == out.timed_out,
        r.output@ == combined_text(out.code, out.stdout@, out.stderr@),
{
    VerificationResult {
        status: verification_status(out.code, out.timed_out),
        command: Some(owned(command)),
        exit_code: out.code,
        timed_out: out.timed_out,
        output: out.combined(),
    }
}

/// A run passes when it exits with code 0 and did not time out.
pub fn verification_status(exit_code: Option<i32>, timed_out: bool) -> (s: VerificationStatus)
    ensures
        s == (if exit_code == Some(0i32) && !timed_out { VerificationStatus::Passed } else { VerificationStatus::Failed }),
{
    if exit_code == Some(0i32) && !timed_out {
        VerificationStatus::Passed
    } else {
        VerificationStatus::Failed
    }
}

/// The cargo command for a request: `cargo test` for an empty or bare
/// request, a cargo command as given, otherwise `cargo test <filter>`.
pub open spec fn cargo_command_text(r: Seq<char>) -> Seq<char> {
    if r.len() == 0 || r == "cargo"@ || r == "cargo test"@ {
        "cargo test"@
    } else if has_prefix(r, "cargo "@) {
        r
    } else {
        "cargo test "@ + r
    }
}

/// The pytest command for a request.
pub open spec fn python_command_text(r: Seq<char>) -> Seq<char> {
    if has_prefix(r, "python "@) || has_prefix(r, "pytest"@) {
        r
    } else if r.len() == 0 || r == "tests"@ {
        "python -m pytest -v"@
    } else {
        "python -m pytest "@ + r + " -v"@
    }
}

/// The npm command for a request.
pub open spec fn node_command_text(r: Seq<char>) -> Seq<char> {
    if has_prefix(r, "npm "@) || has_prefix(r, "node "@) {
        r
    } else if r.len() == 0 {
        "npm test"@
    } else {
        "npm test "@ + r
    }
}

fn text_is(v: &Vec<char>, p: &str) -> (b: bool)
    ensures
        b == (v@ == p@),
{
    assert(v@.subrange(0, v@.len() as int) =~= v@);
    crate::textops::range_eq_str(v.as_slice(), 0, v.len(), p)
}

/// The cargo command for a test request (see `cargo_command_text`).
pub fn cargo_command(request: &str) -> (c: String)
    ensures
        c@ == cargo_command_text(request@),
{
    let v = chars_of(request);
    assert(v@.subrange(0, v@.len() as int) =~= v@);
    if v.len() == 0 || text_is(&v, "cargo") || text_is(&v, "cargo test") {
        owned("cargo test")
    } else if starts_with_str(v.as_slice(), "cargo ") {
        owned(request)
    } else {
        let mut c = owned("cargo test ");
        push_str(&mut c, request);
        c
    }
}

/// The pytest command for a test request (see `python_command_text`).
pub fn python_command(request: &str) -> (c: String)
    ensures
        c@ == python_command_text(request@),
{
    let v = chars_of(request);
    if starts_with_str(v.as_slice(), "python ") || starts_with_str(v.as_slice(), "pytest") {
        owned(request)
    } else if v.len() == 0 || text_is(&v, "tests") {
        owned("python -m pytest -v")
    } else {
        let mut c = owned("python -m pytest ");
        push_str(&mut c, request);
        push_str(&mut c, " -v");
        c
    }
}

/// The npm command for a test request (see `node_command_text`).
pub fn node_command(request: &str) -> (c: String)
    ensures
        c@ == node_command_text(request@),
{
    let v = chars_of(request);
    if starts_with_str(v.as_slice(), "npm ") || starts_with_str(v.as_slice(), "node ") {
        owned(request)
    } else if v.len() == 0 {
        owned("npm test")
    } else {
        let mut c = owned("npm test ");
        push_str(&mut c, request);
        c
    }
}

/// The test command for a workspace: cargo when it has a Cargo manifest,
/// else pytest when it has Python test markers, else npm when it has a
/// package manifest, else none; the request is trimmed first.
pub fn test_command_for(request: &str, has_cargo: bool, has_python: bool, has_node: bool) -> (c: Option<String>)
    ensures
        has_cargo ==> (c matches Some(s) && s@ == cargo_command_text(trim_ws(request@))),
        !has_cargo && has_python ==> (c matches Some(s) && s@ == python_command_text(trim_ws(request@))),
        !has_cargo && !has_python && has_node ==> (c matches Some(s) && s@ == node_command_text(trim_ws(request@))),
        !has_cargo && !has_python && !has_node ==> c is None,
{
    let r = trim_str(request);
    if has_cargo {
        Some(cargo_command(r.as_str()))
    } else if has_python {
        Some(python_command(r.as_str()))
    } else if has_node {
        Some(node_command(r.as_str()))
    } else {
        None
    }
}

/// One compiler diagnostic: where it points, its code, its message and the
/// help or note lines that follow it.
#[derive(Clone, Debug, PartialEq, Eq, Default)]
pub struct CompilerDiagnostic {
    pub file: Option<String>,
    pub line: Option<usize>,
    pub column: Option<usize>,
    pub code: Option<String>,
    pub message: String,
    pub hints: Vec<String>,
}

/// A diagnostic as file, line, column, code, message and hints.
pub type DiagView = (Option<Seq<char>>, Option<usize>, Option<usize>, Option<Seq<char>>, Seq<char>, Seq<Seq<char>>);

/// The text of an optional string.
pub open spec fn opt_text(o: Option<String>) -> Option<Seq<char>> {
    match o {
        Some(s) => Some(s@),
        None => None,
    }
}

/// The view of a diagnostic.
pub open spec fn diag_view(d: CompilerDiagnostic) -> DiagView {
    (opt_text(d.file), d.line, d.column, opt_text(d.code), d.message@, d.hints@.map_values(|h: String| h@))
}

/// A path with backslashes turned into slashes.
pub open spec fn slash_path(s: Seq<char>) -> Seq<char> {
    replace_char(s, '\\', '/')
}

/// The code between the first `[` and the first `]`, when both occur in
/// that order.
pub open spec fn bracket_code(s: Seq<char>) -> Option<Seq<char>> {
    let a = index_of(s, '[', 0);
    let b = index_of(s, ']', 0);
    if a < s.len() && b < s.len() && b > a { Some(s.subrange(a + 1, b)) } else { None }
}

/// The second `:`-separated field, trimmed (the whole text when there is
/// no `:`).
pub open spec fn second_field(s: Seq<char>) -> Seq<char> {
    let ps = pieces(s, ':');
    trim_ws(if ps.len() > 1 { ps[1] } else { s })
}

/// File, line and column of a `path:line:col` location.
pub open spec fn location(prefix: Seq<char>) -> (Option<Seq<char>>, Option<usize>, Option<usize>) {
    let ps = pieces(prefix, ':');
    if ps.len() >= 3 {
        (Some(slash_path(ps[0])), parse_usize(ps[1]), parse_usize(ps[2]))
    } else if ps.len() == 2 {
        (Some(slash_path(ps[0])), parse_usize(ps[1]), None)
    } else {
        (Some(slash_path(prefix)), None, None)
    }
}

/// The collected diagnostics and the open one, after one more line: a
/// `path:line:col: error...` line or an `error[...]`/`error:` line opens a
/// diagnostic (closing the open one), a `--> path:line:col` line sets the
/// location of the open one, and `help: `/`note: ` lines are added to its
/// hints; blank and other lines change nothing.
pub open spec fn diag_step(st: (Seq<DiagView>, Option<DiagView>), line: Seq<char>) -> (Seq<DiagView>, Option<DiagView>) {
    let t = trim_ws(line);
    let flushed = match st.1 {
        Some(d) => st.0.push(d),
        None => st.0,
    };
    if t.len() == 0 {
        st
    } else if find_seq(t, ": error"@, 0) is Some {
        let e = find_seq(t, ": error"@, 0)->0;
        let prefix = t.subrange(0, e);
        let after = t.subrange(e + 2, t.len() as int);
        let loc = location(prefix);
        (flushed, Some((loc.0, loc.1, loc.2, bracket_code(after), second_field(after), Seq::empty())))
    } else if has_prefix(t, "error["@) || has_prefix(t, "error:"@) {
        (flushed, Some((None, None, None, bracket_code(t), second_field(t), Seq::empty())))
    } else if has_prefix(t, "--> "@) {
        let ps = pieces(trim_ws(strip_prefixes(t, "--> "@)), ':');
        match st.1 {
            Some(d) => if ps.len() >= 3 {
                (st.0, Some((Some(slash_path(ps[0])), parse_usize(ps[1]), parse_usize(ps[2]), d.3, d.4, d.5)))
            } else if ps.len() == 2 {
                (st.0, Some((Some(slash_path(ps[0])), parse_usize(ps[1]), d.2, d.3, d.4, d.5)))
            } else {
                st
            },
            None => st,
        }
    } else if has_prefix(t, "help: "@) || has_prefix(t, "note: "@) {
        match st.1 {
            Some(d) => (st.0, Some((d.0, d.1, d.2, d.3, d.4, d.5.push(t)))),
            None => st,
        }
    } else {
        st
    }
}

/// The state after all lines.
pub open spec fn diag_fold(lines: Seq<Seq<char>>) -> (Seq<DiagView>, Option<DiagView>)
    decreases lines.len(),
{
    if lines.len() == 0 {
        (Seq::empty(), None)
    } else {
        diag_step(diag_fold(lines.drop_last()), lines.last())
    }
}

/// The diagnostics of a compiler output, in order.
pub open spec fn diagnostics(output: Seq<char>) -> Seq<DiagView> {
    let st = diag_fold(text_lines(output));
    match st.1 {
        Some(d) => st.0.push(d),
        None => st.0,
    }
}

fn bracket_code_of(t: &Vec<char>) -> (r: Option<String>)
    ensures
        opt_text(r) == bracket_code(t@),
{
    let a = index_of_char(t.as_slice(), '[', 0);
    let b = index_of_char(t.as_slice(), ']', 0);
    proof {
        lemma_index_of(t@, '[', 0);
        lemma_index_of(t@, ']', 0);
    }
    if a < t.len() && b < t.len() && b > a {
        Some(string_of(t.as_slice(), a + 1, b))
    } else {
        None
    }
}

fn second_field_of(t: &Vec<char>) -> (r: String)
    ensures
        r@ == second_field(t@),
{
    let parts = split_bounds(t.as_slice(), ':', 0);
    assert(t@.subrange(0, t@.len() as int) =~= t@);
    let (lo, hi) = if parts.len() > 1 { parts[1] } else { (0, t.len()) };
    let (a, b) = trim_bounds(t.as_slice(), lo, hi);
    string_of(t.as_slice(), a, b)
}

fn location_of(t: &Vec<char>) -> (r: (Option<String>, Option<usize>, Option<usize>))
    ensures
        (opt_text(r.0), r.1, r.2) == location(t@),
{
    let parts = split_bounds(t.as_slice(), ':', 0);
    assert(t@.subrange(0, t@.len() as int) =~= t@);
    if parts.len() >= 3 {
        let f = replaced_range(t.as_slice(), parts[0].0, parts[0].1, '\\', '/');
        let l = parse_usize_range(t.as_slice(), parts[1].0, parts[1].1);
        let c = parse_usize_range(t.as_slice(), parts[2].0, parts[2].1);
        (Some(f), l, c)
    } else if parts.len() == 2 {
        let f = replaced_range(t.as_slice(), parts[0].0, parts[0].1, '\\', '/');
        let l = parse_usize_range(t.as_slice(), parts[1].0, parts[1].1);
        (Some(f), l, None)
    } else {
        (Some(replaced_range(t.as_slice(), 0, t.len(), '\\', '/')), None, None)
    }
}

fn strip_arrows(t: &Vec<char>) -> (r: usize)
    ensures
        r <= t@.len(),
        t@.subrange(r as int, t@.len() as int) == strip_prefixes(t@, "--> "@),
{
    let p = chars_of("--> ");
    proof { reveal_strlit("--> "); }
    let mut i: usize = 0;
    assert(t@.subrange(0, t@.len() as int) =~= t@);
    while i < t.len() && t.len() - i >= 4 && t[i] == '-' && t[i + 1] == '-' && t[i + 2] == '>' && t[i + 3] == ' '
        invariant
            i <= t@.len(),
            p@ == "--> "@,
            "--> "@ == seq!['-', '-', '>', ' '],
            strip_prefixes(t@.subrange(i as int, t@.len() as int), "--> "@) == strip_prefixes(t@, "--> "@),
        decreases t@.len() - i,
    {
        let ghost s = t@.subrange(i as int, t@.len() as int);
        assert(s.subrange(0, 4) =~= seq!['-', '-', '>', ' ']);
        assert(s.subrange(4, s.len() as int) =~= t@.subrange(i + 4, t@.len() as int));
        i += 4;
    }
    proof {
        let s = t@.subrange(i as int, t@.len() as int);
        if s.len() >= 4 && has_prefix(s, "--> "@) {
            assert(s.subrange(0, 4)[0] == s[0] && s.subrange(0, 4)[1] == s[1]);
            assert(s.subrange(0, 4)[2] == s[2] && s.subrange(0, 4)[3] == s[3]);
            assert(s[0] == t@[i as int] && s[1] == t@[i + 1] && s[2] == t@[i + 2] && s[3] == t@[i + 3]);
        }
    }
    i
}

/// Applies one line of compiler output (see `diag_step`).
fn diag_line(diags: &mut Vec<CompilerDiagnostic>, current: &mut Option<CompilerDiagnostic>, line: &str)
    ensures
        ({
            let st = diag_step((old(diags)@.map_values(|d: CompilerDiagnostic| diag_view(d)),
                match *old(current) { Some(d) => Some(diag_view(d)), None => None }), line@);
            &&& final(diags)@.map_values(|d: CompilerDiagnostic| diag_view(d)) == st.0
            &&& (match *final(current) { Some(d) => Some(diag_view(d)), None => None }) == st.1
        }),
{
    let v = chars_of(line);
    let (a, b) = trim_bounds(v.as_slice(), 0, v.len());
    assert(v@.subrange(0, v@.len() as int) =~= v@);
    let t = sub_vec(v.as_slice(), a, b);
    let ghost before = diags@.map_values(|d: CompilerDiagnostic| diag_view(d));
    if t.len() == 0 {
        return;
    }
    let pat = chars_of(": error");
    let found = find_from(t.as_slice(), pat.as_slice(), 0);
    proof { lemma_find_seq(t@, ": error"@, 0); }
    if let Some(e) = found {
        proof { reveal_strlit(": error"); }
        let prefix = sub_vec(t.as_slice(), 0, e);
        let after = sub_vec(t.as_slice(), e + 2, t.len());
        let (file, line_num, col) = location_of(&prefix);
        let code = bracket_code_of(&after);
        let message = second_field_of(&after);
        let old_current = current.take();
        match old_current {
            Some(d) => {
                diags.push(d);
            },
            None => {},
        }
        *current = Some(CompilerDiagnostic { file, line: line_num, column: col, code, message, hints: Vec::new() });
        assert(diags@.map_values(|d: CompilerDiagnostic| diag_view(d)) =~= (match old_current {
            Some(d) => before.push(diag_view(d)),
            None => before,
        }));
        proof {
            let hv: Seq<String> = Seq::empty();
            assert(hv.map_values(|h: String| h@) =~= Seq::<Seq<char>>::empty());
        }
        return;
    }
    if starts_with_str(t.as_slice(), "error[") || starts_with_str(t.as_slice(), "error:") {
        let code = bracket_code_of(&t);
        let message = second_field_of(&t);
        let old_current = current.take();
        match old_current {
            Some(d) => {
                diags.push(d);
            },
            None => {},
        }
        *current = Some(CompilerDiagnostic { file: None, line: None, column: None, code, message, hints: Vec::new() });
        assert(diags@.map_values(|d: CompilerDiagnostic| diag_view(d)) =~= (match old_current {
            Some(d) => before.push(diag_view(d)),
            None => before,
        }));
        proof {
            let hv: Seq<String> = Seq::empty();
            assert(hv.map_values(|h: String| h@) =~= Seq::<Seq<char>>::empty());
        }
        return;
    }
    if starts_with_str(t.as_slice(), "--> ") {
        let s = strip_arrows(&t);
        let (la, lb) = trim_bounds(t.as_slice(), s, t.len());
        let loc = sub_vec(t.as_slice(), la, lb);
        let parts = split_bounds(loc.as_slice(), ':', 0);
        assert(loc@.subrange(0, loc@.len() as int) =~= loc@);
        match current {
            Some(d) => {
                if parts.len() >= 3 {
                    d.file = Some(replaced_range(loc.as_slice(), parts[0].0, parts[0].1, '\\', '/'));
                    d.line = parse_usize_range(loc.as_slice(), parts[1].0, parts[1].1);
                    d.column = parse_usize_range(loc.as_slice(), parts[2].0, parts[2].1);
                } else if parts.len() == 2 {
                    d.file = Some(replaced_range(loc.as_slice(), parts[0].0, parts[0].1, '\\', '/'));
                    d.line = parse_usize_range(loc.as_slice(), parts[1].0, parts[1].1);
                }
            },
            None => {},
        }
        return;
    }
    if starts_with_str(t.as_slice(), "help: ") || starts_with_str(t.as_slice(), "note: ") {
        match current {
            Some(d) => {
                let ghost hv = d.hints@.map_values(|h: String| h@);
                d.hints.push(string_of(t.as_slice(), 0, t.len()));
                assert(t@.subrange(0, t@.len() as int) =~= t@);
                assert(d.hints@.map_values(|h: String| h@) =~= hv.push(t@));
            },
            None => {},
        }
    }
}

/// The diagnostics of raw compiler or test output, in order (see
/// `diagnostics`).
pub fn extract_diagnostics(output: &str) -> (ds: Vec<CompilerDiagnostic>)
    ensures
        ds@.map_values(|d: CompilerDiagnostic| diag_view(d)) == diagnostics(output@),
{
    let lines = split_lines(output);
    let ghost ls = text_lines(output@);
    let mut diags: Vec<CompilerDiagnostic> = Vec::new();
    let mut current: Option<CompilerDiagnostic> = None;
    let mut i: usize = 0;
    assert(diags@.map_values(|d: CompilerDiagnostic| diag_view(d)) =~= Seq::<DiagView>::empty());
    assert(ls.subrange(0, 0) =~= Seq::<Seq<char>>::empty());
    while i < lines.len()
        invariant
            i <= lines@.len(),
            lines@.len() == ls.len(),
            ls == text_lines(output@),
            forall|k: int| 0 <= k < lines@.len() ==> (#[trigger] lines@[k])@ == ls[k],
            diag_fold(ls.subrange(0, i as int)) == (diags@.map_values(|d: CompilerDiagnostic| diag_view(d)),
                match current { Some(d) => Some(diag_view(d)), None => None::<DiagView> }),
        decreases lines@.len() - i,
    {
        diag_line(&mut diags, &mut current, lines[i].as_str());
        assert(ls.subrange(0, i + 1).drop_last() =~= ls.subrange(0, i as int));
        i += 1;
    }
    assert(ls.subrange(0, i as int) =~= ls);
    let ghost collected = diags@.map_values(|d: CompilerDiagnostic| diag_view(d));
    match current {
        Some(d) => {
            diags.push(d);
            assert(diags@.map_values(|d: CompilerDiagnostic| diag_view(d)) =~= collected.push(diag_view(d)));
        },
        None => {},
    }
    diags
}


/// Whether a diagnostic points into the target: its file and the target
/// path end with one another.
pub open spec fn points_into(d: DiagView, norm: Seq<char>) -> bool {
    match d.0 {
        Some(f) => has_suffix(f, norm) || has_suffix(norm, f),
        None => false,
    }
}

/// The diagnostics that point into the target, in order.
pub open spec fn matching(ds: Seq<DiagView>, norm: Seq<char>) -> Seq<DiagView>
    decreases ds.len(),
{
    if ds.len() == 0 {
        Seq::empty()
    } else {
        let r = matching(ds.drop_last(), norm);
        if points_into(ds.last(), norm) { r.push(ds.last()) } else { r }
    }
}

/// The diagnostics a repair prompt lists: those pointing into the target
/// file when there are any, all of them otherwise.
pub open spec fn relevant(ds: Seq<DiagView>, target: Option<Seq<char>>) -> Seq<DiagView> {
    match target {
        Some(t) => {
            let m = matching(ds, slash_path(t));
            if m.len() == 0 { ds } else { m }
        },
        None => ds,
    }
}

/// The hint lines of a diagnostic entry.
pub open spec fn hint_lines(hs: Seq<Seq<char>>) -> Seq<char>
    decreases hs.len(),
{
    if hs.len() == 0 { Seq::empty() } else { hint_lines(hs.drop_last()) + "    ↳ "@ + hs.last() + "\n"@ }
}

/// ` [code]` when the diagnostic has a code.
pub open spec fn code_text(d: DiagView) -> Seq<char> {
    match d.3 {
        Some(c) => " ["@ + c + "]"@,
        None => Seq::empty(),
    }
}

/// Where the diagnostic points, as the prompt words it.
pub open spec fn loc_text(d: DiagView) -> Seq<char> {
    match (d.0, d.1) {
        (Some(f), Some(l)) => " in `"@ + f + ":"@ + dec(l as nat) + "`"@,
        (None, Some(l)) => " at line "@ + dec(l as nat),
        (Some(f), None) => " in `"@ + f + "`"@,
        (None, None) => Seq::empty(),
    }
}

/// One diagnostic in a repair prompt, with its hints.
pub open spec fn diag_entry(d: DiagView) -> Seq<char> {
    "• Error"@ + code_text(d) + loc_text(d) + ": "@ + d.4 + "\n"@ + hint_lines(d.5)
}

/// The entries of several diagnostics.
pub open spec fn entries(ds: Seq<DiagView>) -> Seq<char>
    decreases ds.len(),
{
    if ds.len() == 0 { Seq::empty() } else { entries(ds.drop_last()) + diag_entry(ds.last()) }
}

/// The repair prompt: the relevant diagnostics with the operating rules, or
/// the trimmed raw output when there is no diagnostic.
pub open spec fn repair_prompt(ds: Seq<DiagView>, target: Option<Seq<char>>, raw: Seq<char>) -> Seq<char> {
    let rel = relevant(ds, target);
    if rel.len() == 0 {
        "Compiler check failed:\n"@ + trim_ws(raw)
    } else {
        let header = match target {
            Some(t) => t,
            None => "workspace"@,
        };
        "Compiler constraints to resolve in `"@ + header + "`:\n"@ + entries(rel)
            + "\nOperational Constraints:\n"@
            + (match target {
                Some(t) => "1. Resolve these constraints strictly within `"@ + t + "` using `edit_file`.\n"@,
                None => "1. Resolve these constraints using `edit_file` on the affected files.\n"@,
            })
            + "2. Preserve existing struct and method signatures.\n"@
            + "3. Do not invent non-existent root modules.\n"@
    }
}

fn points_into_exec(d: &CompilerDiagnostic, norm: &Vec<char>) -> (b: bool)
    ensures
        b == points_into(diag_view(*d), norm@),
{
    match &d.file {
        Some(f) => {
            let fv = chars_of(f.as_str());
            ends_with(fv.as_slice(), norm.as_slice()) || ends_with(norm.as_slice(), fv.as_slice())
        },
        None => false,
    }
}

#[verifier::spinoff_prover]
#[verifier::rlimit(40)]
fn push_entry(out: &mut String, d: &CompilerDiagnostic)
    ensures
        final(out)@ == old(out)@ + diag_entry(diag_view(*d)),
{
    let ghost start = out@;
    push_str(out, "• Error");
    match &d.code {
        Some(c) => {
            push_str(out, " [");
            push_str(out, c.as_str());
            push_str(out, "]");
        },
        None => {},
    }
    let ghost after_code = out@;
    match (&d.file, d.line) {
        (Some(f), Some(l)) => {
            push_str(out, " in `");
            push_str(out, f.as_str());
            push_str(out, ":");
            push_decimal(out, l as u64);
            push_str(out, "`");
        },
        (None, Some(l)) => {
            push_str(out, " at line ");
            push_decimal(out, l as u64);
        },
        (Some(f), None) => {
            push_str(out, " in `");
            push_str(out, f.as_str());
            push_str(out, "`");
        },
        (None, None) => {},
    }
    assert(out@ =~= after_code + loc_text(diag_view(*d)));
    assert(after_code =~= start + "• Error"@ + code_text(diag_view(*d)));
    push_str(out, ": ");
    push_str(out, d.message.as_str());
    push_str(out, "\n");
    let ghost head = out@;
    let ghost hs = d.hints@.map_values(|h: String| h@);
    let mut k: usize = 0;
    assert(hs.subrange(0, 0) =~= Seq::<Seq<char>>::empty());
    while k < d.hints.len()
        invariant
            k <= d.hints@.len(),
            hs == d.hints@.map_values(|h: String| h@),
            out@ == head + hint_lines(hs.subrange(0, k as int)),
        decreases d.hints@.len() - k,
    {
        push_str(out, "    ↳ ");
        push_str(out, d.hints[k].as_str());
        push_str(out, "\n");
        assert(hs.subrange(0, k + 1).drop_last() =~= hs.subrange(0, k as int));
        assert(out@ =~= head + hint_lines(hs.subrange(0, k + 1)));
        k += 1;
    }
    assert(hs.subrange(0, k as int) =~= hs);
    assert(out@ =~= start + diag_entry(diag_view(*d)));
}

/// A concise repair prompt from diagnostics, scoped to `target_file` when
/// given (see `repair_prompt`).
pub fn format_scoped_repair_prompt(diagnostics: &[CompilerDiagnostic], target_file: Option<&str>, raw_fallback: &str) -> (out: String)
    ensures
        out@ == repair_prompt(diagnostics@.map_values(|d: CompilerDiagnostic| diag_view(d)),
            match target_file { Some(t) => Some(t@), None => None::<Seq<char>> }, raw_fallback@),
{
    let ghost ds = diagnostics@.map_values(|d: CompilerDiagnostic| diag_view(d));
    let ghost tv = match target_file { Some(t) => Some(t@), None => None::<Seq<char>> };
    let mut chosen: Vec<usize> = Vec::new();
    let mut use_all = true;
    match target_file {
        Some(t) => {
            let tc = chars_of(t);
            let norm_s = replaced_range(tc.as_slice(), 0, tc.len(), '\\', '/');
            assert(tc@.subrange(0, tc@.len() as int) =~= tc@);
            let norm = chars_of(norm_s.as_str());
            let mut k: usize = 0;
            assert(ds.subrange(0, 0) =~= Seq::<DiagView>::empty());
            while k < diagnostics.len()
                invariant
                    k <= diagnostics@.len(),
                    ds == diagnostics@.map_values(|d: CompilerDiagnostic| diag_view(d)),
                    norm@ == slash_path(t@),
                    forall|j: int| 0 <= j < chosen@.len() ==> (#[trigger] chosen@[j]) < k,
                    chosen@.map_values(|j: usize| ds[j as int]) == matching(ds.subrange(0, k as int), norm@),
                decreases diagnostics@.len() - k,
            {
                let ghost before = chosen@.map_values(|j: usize| ds[j as int]);
                assert(ds.subrange(0, k + 1).drop_last() =~= ds.subrange(0, k as int));
                assert(ds.subrange(0, k + 1).last() == ds[k as int]);
                if points_into_exec(&diagnostics[k], &norm) {
                    chosen.push(k);
                    assert(chosen@.map_values(|j: usize| ds[j as int]) =~= before.push(ds[k as int]));
                }
                k += 1;
            }
            assert(ds.subrange(0, k as int) =~= ds);
            use_all = chosen.len() == 0;
        },
        None => {},
    }
    if use_all {
        chosen = Vec::new();
        let mut k: usize = 0;
        while k < diagnostics.len()
            invariant
                k <= diagnostics@.len(),
                chosen@.len() == k,
                forall|j: int| 0 <= j < k ==> (#[trigger] chosen@[j]) == j,
            decreases diagnostics@.len() - k,
        {
            chosen.push(k);
            k += 1;
        }
        assert(chosen@.map_values(|j: usize| ds[j as int]) =~= ds);
    }
    let ghost rel = chosen@.map_values(|j: usize| ds[j as int]);
    assert(rel == relevant(ds, tv));
    if chosen.len() == 0 {
        let mut out = owned("Compiler check failed:\n");
        let trimmed = trim_str(raw_fallback);
        push_str(&mut out, trimmed.as_str());
        return out;
    }
    let mut out = owned("Compiler constraints to resolve in `");
    match target_file {
        Some(t) => push_str(&mut out, t),
        None => push_str(&mut out, "workspace"),
    }
    push_str(&mut out, "`:\n");
    let ghost head = out@;
    let mut k: usize = 0;
    assert(rel.subrange(0, 0) =~= Seq::<DiagView>::empty());
    while k < chosen.len()
        invariant
            k <= chosen@.len(),
            rel == chosen@.map_values(|j: usize| ds[j as int]),
            ds == diagnostics@.map_values(|d: CompilerDiagnostic| diag_view(d)),
            forall|j: int| 0 <= j < chosen@.len() ==> (#[trigger] chosen@[j]) < diagnostics@.len(),
            out@ == head + entries(rel.subrange(0, k as int)),
        decreases chosen@.len() - k,
    {
        let idx = chosen[k];
        push_entry(&mut out, &diagnostics[idx]);
        assert(rel.subrange(0, k + 1).drop_last() =~= rel.subrange(0, k as int));
        assert(rel.subrange(0, k + 1).last() == diag_view(diagnostics@[idx as int]));
        k += 1;
    }
    assert(rel.subrange(0, k as int) =~= rel);
    push_str(&mut out, "\nOperational Constraints:\n");
    match target_file {
        Some(t) => {
            push_str(&mut out, "1. Resolve these constraints strictly within `");
            push_str(&mut out, t);
            push_str(&mut out, "` using `edit_file`.\n");
        },
        None => push_str(&mut out, "1. Resolve these constraints using `edit_file` on the affected files.\n"),
    }
    push_str(&mut out, "2. Preserve existing struct and method signatures.\n");
    push_str(&mut out, "3. Do not invent non-existent root modules.\n");
    out
}

} // verus!
