//! Shell command rules: the allow and block lists, the workspace gate's
//! choice of arguments, and how a command's output is reported.
use vstd::prelude::*;
use crate::text::{chars_of, owned, push_str, push_char, string_of, is_ws, is_whitespace, has_prefix, starts_with,
    dec, push_signed_padded, signed_padded};
use crate::textops::{trim_ws, trim_bounds, trim_str, has_suffix, ends_with, unicode_lowercase, to_lowercase,
    contains_seq, contains_str, range_eq_str, has_char, has_char_exec};
use crate::repo::context::texts;
use crate::repo::contract::{words_from, ot};
use crate::repo::spec::split_words;
use crate::tools::exec_policy::{trim_matching, path_prefix, path_starts_with};
use crate::tools::web::ascii_lower;

verus! {

/// What a command produced.
pub struct CommandOutput {
    pub code: Option<i32>,
    pub stdout: String,
    pub stderr: String,
    pub timed_out: bool,
}

/// A number in decimal, with a leading `-` when negative.
pub open spec fn int_text(n: int) -> Seq<char> {
    if n >= 0 { dec(n as nat) } else { seq!['-'] + dec((-n) as nat) }
}

/// `a`, then `b` on a new line when `a` is not empty.
pub open spec fn on_new_line(a: Seq<char>, b: Seq<char>) -> Seq<char> {
    if a.len() > 0 { a + "\n"@ + b } else { b }
}

/// The report of a command: its output, then `STDERR:` and its errors when
/// there are any, then its exit code when it is not 0; `(no output)` when
/// all of that is blank.
pub open spec fn combined_text(code: Option<i32>, stdout: Seq<char>, stderr: Seq<char>) -> Seq<char> {
    let r1 = if stderr.len() > 0 { on_new_line(stdout, "STDERR:\n"@ + stderr) } else { stdout };
    let r2 = match code {
        Some(c) => if c != 0 { on_new_line(r1, "exit code: "@ + int_text(c as int)) } else { r1 },
        None => r1,
    };
    if trim_ws(r2).len() == 0 { "(no output)"@ } else { r2 }
}

impl CommandOutput {
    /// The report of the command (see `combined_text`).
    pub fn combined(&self) -> (r: String)
        ensures
            r@ == combined_text(self.code, self.stdout@, self.stderr@),
    {
        let mut result = owned(self.stdout.as_str());
        proof { reveal_strlit("\n"); }
        if self.stderr.as_str().unicode_len() > 0 {
            if result.as_str().unicode_len() > 0 {
                push_char(&mut result, '\n');
            }
            push_str(&mut result, "STDERR:\n");
            push_str(&mut result, self.stderr.as_str());
        }
        let ghost r1 = result@;
        assert(r1 == (if self.stderr@.len() > 0 { on_new_line(self.stdout@, "STDERR:\n"@ + self.stderr@) } else { self.stdout@ }));
        match self.code {
            Some(code) => {
                if code != 0 {
                    if result.as_str().unicode_len() > 0 {
                        push_char(&mut result, '\n');
                    }
                    push_str(&mut result, "exit code: ");
                    push_signed_padded(&mut result, code as i64, 1);
                    proof { crate::text::lemma_dec_len_bound(if code >= 0 { code as nat } else { (-code) as nat }); }
                    assert(signed_padded(code as int, 1) == int_text(code as int));
                }
            },
            None => {},
        }
        assert(result@ == match self.code {
            Some(c) => if c != 0 { on_new_line(r1, "exit code: "@ + int_text(c as int)) } else { r1 },
            None => r1,
        });
        let t = trim_str(result.as_str());
        if t.as_str().unicode_len() == 0 {
            owned("(no output)")
        } else {
            result
        }
    }
}


/// The settings the shell rules read.
pub struct ShellConfig {
    pub workspace_dir: String,
    pub path_allowlist: Vec<String>,
    pub block_workspace_escape: bool,
    pub blocked_commands: Vec<String>,
    pub allowed_commands: Vec<String>,
    pub command_timeout_secs: u64,
}

/// The state of splitting a command into tokens.
pub struct TokState {
    pub tokens: Seq<Seq<char>>,
    pub current: Seq<char>,
    pub quote: Option<char>,
}

/// One character of a command: a quote opens a quoted run (outside one)
/// or closes it (its own kind), whitespace outside quotes ends a token, and
/// anything else joins the current token.
pub open spec fn tok_step(st: TokState, c: char) -> TokState {
    if (c == '\'' || c == '"') && st.quote is None {
        TokState { quote: Some(c), ..st }
    } else if st.quote == Some(c) {
        TokState { quote: None, ..st }
    } else if st.quote is None && is_ws(c) {
        if st.current.len() > 0 {
            TokState { tokens: st.tokens.push(st.current), current: Seq::empty(), ..st }
        } else {
            st
        }
    } else {
        TokState { current: st.current.push(c), ..st }
    }
}

/// The state after the first `n` characters.
pub open spec fn tok_scan(s: Seq<char>, n: nat) -> TokState
    decreases n,
{
    if n == 0 || n > s.len() {
        TokState { tokens: Seq::empty(), current: Seq::empty(), quote: None }
    } else {
        tok_step(tok_scan(s, (n - 1) as nat), s[n - 1])
    }
}

/// The tokens of a command: whitespace-separated, with quotes grouping and
/// removed.
pub open spec fn tokens_of(s: Seq<char>) -> Seq<Seq<char>> {
    let st = tok_scan(s, s.len());
    if st.current.len() > 0 { st.tokens.push(st.current) } else { st.tokens }
}

/// Splits a command into tokens (see `tokens_of`).
pub fn tokenize(cmd: &str) -> (r: Vec<String>)
    ensures
        texts(r@) == tokens_of(cmd@),
{
    let v = chars_of(cmd);
    let mut tokens: Vec<String> = Vec::new();
    let mut current: Vec<char> = Vec::new();
    let mut quote: Option<char> = None;
    let mut i: usize = 0;
    assert(texts(tokens@) =~= Seq::<Seq<char>>::empty());
    while i < v.len()
        invariant
            i <= v@.len(),
            v@ == cmd@,
            tok_scan(v@, i as nat) == (TokState { tokens: texts(tokens@), current: current@, quote }),
        decreases v@.len() - i,
    {
        let c = v[i];
        if (c == '\'' || c == '"') && quote.is_none() {
            quote = Some(c);
        } else if quote == Some(c) {
            quote = None;
        } else if quote.is_none() && is_whitespace(c) {
            if current.len() > 0 {
                let ghost before = texts(tokens@);
                let t = string_of(current.as_slice(), 0, current.len());
                assert(current@.subrange(0, current@.len() as int) =~= current@);
                tokens.push(t);
                assert(texts(tokens@) =~= before.push(current@));
                current = Vec::new();
            }
        } else {
            current.push(c);
        }
        i += 1;
    }
    if current.len() > 0 {
        let ghost before = texts(tokens@);
        let t = string_of(current.as_slice(), 0, current.len());
        assert(current@.subrange(0, current@.len() as int) =~= current@);
        tokens.push(t);
        assert(texts(tokens@) =~= before.push(current@));
    }
    tokens
}

/// The texts of string slices.
pub open spec fn name_views(names: Seq<&str>) -> Seq<Seq<char>> {
    names.map_values(|s: &str| s@)
}

/// The programs whose path arguments the workspace gate checks.
pub open spec fn mutation_names() -> Seq<Seq<char>> {
    seq!["rm"@, "rmdir"@, "mv"@, "cp"@, "ln"@, "mkdir"@, "md"@, "install"@, "truncate"@, "dd"@, "shred"@,
        "chmod"@, "chown"@, "touch"@, "tee"@, "vi"@, "vim"@, "nano"@, "ed"@, "del"@, "erase"@, "deltree"@,
        "rd"@, "ren"@, "rename"@, "move"@, "copy"@, "xcopy"@, "attrib"@, "takeown"@, "icacls"@, "sc"@, "reg"@,
        "wmic"@, "powershell"@, "pwsh"@, "cmd"@]
}

/// The programs whose path arguments the workspace gate checks.
pub fn mutation_executables() -> (r: Vec<&'static str>)
    ensures
        name_views(r@) == mutation_names(),
{
    let r = vec!["rm", "rmdir", "mv", "cp", "ln", "mkdir", "md", "install", "truncate", "dd", "shred",
        "chmod", "chown", "touch", "tee", "vi", "vim", "nano", "ed", "del", "erase", "deltree",
        "rd", "ren", "rename", "move", "copy", "xcopy", "attrib", "takeown", "icacls", "sc", "reg",
        "wmic", "powershell", "pwsh", "cmd"];
    assert(name_views(r@) =~= mutation_names());
    r
}

/// Whether a text is one of the names.
fn is_listed(v: &[char], names: &Vec<&'static str>) -> (b: bool)
    ensures
        b == name_views(names@).contains(v@),
{
    let n = v.len();
    assert(v@.subrange(0, n as int) =~= v@);
    let mut j: usize = 0;
    while j < names.len()
        invariant
            n == v@.len(),
            j <= names@.len(),
            v@.subrange(0, n as int) == v@,
            forall|k: int| 0 <= k < j ==> names@[k]@ != v@,
        decreases names@.len() - j,
    {
        if range_eq_str(v, 0, n, names[j]) {
            assert(name_views(names@)[j as int] == v@);
            return true;
        }
        j += 1;
    }
    assert forall|k: int| 0 <= k < names@.len() implies #[trigger] name_views(names@)[k] != v@ by {
        assert(names@[k]@ != v@);
    }
    false
}

/// The index of the last `/` or `\` in `s`, or -1.
pub open spec fn last_sep(s: Seq<char>) -> int
    decreases s.len(),
{
    if s.len() == 0 {
        -1
    } else if s.last() == '/' || s.last() == '\\' {
        s.len() - 1
    } else {
        last_sep(s.drop_last())
    }
}

proof fn lemma_last_sep(s: Seq<char>)
    ensures
        -1 <= last_sep(s) < s.len(),
    decreases s.len(),
{
    if s.len() > 0 {
        lemma_last_sep(s.drop_last());
    }
}

/// The program of a command's first token: what follows its last path
/// separator, in ASCII lowercase.
pub open spec fn program_name(t: Seq<char>) -> Seq<char> {
    t.subrange(last_sep(t) + 1, t.len() as int).map_values(|c: char| ascii_lower(c))
}

fn program_name_exec(t: &[char]) -> (r: Vec<char>)
    ensures
        r@ == program_name(t@),
{
    let mut e = t.len();
    assert(t@.subrange(0, e as int) =~= t@);
    while e > 0 && t[e - 1] != '/' && t[e - 1] != '\\'
        invariant
            e <= t@.len(),
            last_sep(t@.subrange(0, e as int)) == last_sep(t@),
        decreases e,
    {
        assert(t@.subrange(0, e as int).drop_last() =~= t@.subrange(0, e - 1));
        e -= 1;
    }
    proof {
        assert(t@.subrange(0, t@.len() as int) =~= t@);
        if e > 0 {
            assert(t@.subrange(0, e as int).last() == t@[e - 1]);
        } else {
            assert(t@.subrange(0, 0) =~= Seq::<char>::empty());
        }
    }
    let mut r: Vec<char> = Vec::new();
    let mut i = e;
    while i < t.len()
        invariant
            e <= i <= t@.len(),
            last_sep(t@) + 1 == e,
            r@ == t@.subrange(e as int, i as int).map_values(|c: char| ascii_lower(c)),
        decreases t@.len() - i,
    {
        r.push(crate::tools::web::to_ascii_lower(t[i]));
        i += 1;
        assert(r@ =~= t@.subrange(e as int, i as int).map_values(|c: char| ascii_lower(c)));
    }
    r
}

/// Whether `c` is a quote.
pub open spec fn is_quote(c: char) -> bool {
    c == '"' || c == '\''
}

/// `s` without leading or trailing quotes of either kind.
pub open spec fn trim_quotes(s: Seq<char>) -> Seq<char>
    decreases s.len(),
{
    if s.len() > 0 && is_quote(s[0]) {
        trim_quotes(s.subrange(1, s.len() as int))
    } else if s.len() > 0 && is_quote(s.last()) {
        trim_quotes(s.drop_last())
    } else {
        s
    }
}

pub(crate) fn trim_quotes_exec(v: &[char]) -> (r: String)
    ensures
        r@ == trim_quotes(v@),
{
    let mut a: usize = 0;
    let mut b: usize = v.len();
    assert(v@.subrange(0, b as int) =~= v@);
    while a < b && (v[a] == '"' || v[a] == '\'')
        invariant
            a <= b == v@.len(),
            trim_quotes(v@.subrange(a as int, b as int)) == trim_quotes(v@),
        decreases b - a,
    {
        assert(v@.subrange(a as int, b as int).subrange(1, (b - a) as int) =~= v@.subrange(a + 1, b as int));
        a += 1;
    }
    proof { assert(v@.subrange(0, v@.len() as int) =~= v@); }
    while a < b && (v[b - 1] == '"' || v[b - 1] == '\'')
        invariant
            a <= b <= v@.len(),
            a == b || !is_quote(v@[a as int]),
            trim_quotes(v@.subrange(a as int, b as int)) == trim_quotes(v@),
        decreases b - a,
    {
        assert(v@.subrange(a as int, b as int).drop_last() =~= v@.subrange(a as int, b - 1));
        b -= 1;
    }
    string_of(v, a, b)
}

/// The name `Path::is_absolute` gives to a path.
pub uninterp spec fn path_absolute(p: Seq<char>) -> bool;

/// `Path::is_absolute` on a path given as text (on Unix: it starts at the
/// root). Its result is named by `path_absolute`.
#[verifier::external_body]
pub fn path_is_absolute(p: &str) -> (b: bool)
    ensures
        b == path_absolute(p@),
{
    std::path::Path::new(p).is_absolute()
}

/// The absolute paths among `ts`, in order.
pub open spec fn absolute_only(ts: Seq<Seq<char>>) -> Seq<Seq<char>>
    decreases ts.len(),
{
    if ts.len() == 0 {
        Seq::empty()
    } else if path_absolute(ts.last()) {
        absolute_only(ts.drop_last()).push(ts.last())
    } else {
        absolute_only(ts.drop_last())
    }
}

/// The arguments whose targets must stay in the workspace: if escapes are
/// blocked and the command runs a program that can change files, its later
/// tokens (quotes trimmed) that are absolute paths; otherwise none.
pub open spec fn gate_candidates(cmd: Seq<char>, block: bool) -> Seq<Seq<char>> {
    let toks = tokens_of(cmd);
    if !block || toks.len() == 0 || !mutation_names().contains(program_name(toks[0])) {
        Seq::empty()
    } else {
        absolute_only(toks.subrange(1, toks.len() as int).map_values(|t: Seq<char>| trim_quotes(t)))
    }
}

/// The arguments that the workspace gate checks (see `gate_candidates`).
/// Each is to be resolved and given to `outside_workspace`.
pub fn escape_candidates(cmd: &str, config: &ShellConfig) -> (r: Vec<String>)
    ensures
        texts(r@) == gate_candidates(cmd@, config.block_workspace_escape),
{
    if !config.block_workspace_escape {
        return Vec::new();
    }
    let tokens = tokenize(cmd);
    if tokens.len() == 0 {
        return Vec::new();
    }
    let first = chars_of(tokens[0].as_str());
    let exe = program_name_exec(first.as_slice());
    let names = mutation_executables();
    if !is_listed(exe.as_slice(), &names) {
        return Vec::new();
    }
    let ghost toks = texts(tokens@);
    let ghost trimmed = toks.subrange(1, toks.len() as int).map_values(|t: Seq<char>| trim_quotes(t));
    let mut r: Vec<String> = Vec::new();
    let mut i: usize = 1;
    assert(absolute_only(trimmed.subrange(0, 0)) =~= Seq::<Seq<char>>::empty());
    while i < tokens.len()
        invariant
            1 <= i <= tokens@.len(),
            toks == texts(tokens@),
            trimmed == toks.subrange(1, toks.len() as int).map_values(|t: Seq<char>| trim_quotes(t)),
            texts(r@) == absolute_only(trimmed.subrange(0, i - 1)),
        decreases tokens@.len() - i,
    {
        let tv = chars_of(tokens[i].as_str());
        let t = trim_quotes_exec(tv.as_slice());
        assert(trimmed.subrange(0, i as int) =~= trimmed.subrange(0, i - 1).push(t@));
        assert(trimmed.subrange(0, i as int).drop_last() =~= trimmed.subrange(0, i - 1));
        if path_is_absolute(t.as_str()) {
            let ghost before = texts(r@);
            r.push(t);
            assert(texts(r@) =~= before.push(t@));
        }
        i += 1;
    }
    assert(trimmed.subrange(0, i - 1) =~= trimmed);
    r
}

/// Whether a resolved path lies outside the workspace and every allowlisted
/// prefix.
pub open spec fn outside_allowed(p: Seq<char>, workspace: Seq<char>, allow: Seq<Seq<char>>) -> bool {
    !path_prefix(p, workspace) && !(exists|i: int| 0 <= i < allow.len() && path_prefix(p, #[trigger] allow[i]))
}

/// Whether a resolved gate argument escapes the workspace (see `outside_allowed`).
pub fn outside_workspace(normalized: &str, config: &ShellConfig) -> (b: bool)
    ensures
        b == outside_allowed(normalized@, config.workspace_dir@, texts(config.path_allowlist@)),
{
    if path_starts_with(normalized, config.workspace_dir.as_str()) {
        return false;
    }
    let mut i: usize = 0;
    while i < config.path_allowlist.len()
        invariant
            i <= config.path_allowlist@.len(),
            forall|k: int| 0 <= k < i ==> !path_prefix(normalized@, #[trigger] texts(config.path_allowlist@)[k]),
        decreases config.path_allowlist@.len() - i,
    {
        if path_starts_with(normalized, config.path_allowlist[i].as_str()) {
            assert(texts(config.path_allowlist@)[i as int] == config.path_allowlist@[i as int]@);
            return false;
        }
        i += 1;
    }
    true
}

/// Whether a command escapes the workspace, given its gate candidates (see
/// `escape_candidates`) each resolved to a normalized path: whether any of
/// them lies outside the workspace and every allowlisted prefix.
pub fn escapes_workspace(resolved: &Vec<String>, config: &ShellConfig) -> (b: bool)
    ensures
        b == exists|i: int| 0 <= i < resolved@.len()
            && outside_allowed(#[trigger] resolved@[i]@, config.workspace_dir@, texts(config.path_allowlist@)),
{
    let mut i: usize = 0;
    while i < resolved.len()
        invariant
            i <= resolved@.len(),
            forall|k: int| 0 <= k < i
                ==> !outside_allowed(#[trigger] resolved@[k]@, config.workspace_dir@, texts(config.path_allowlist@)),
        decreases resolved@.len() - i,
    {
        if outside_workspace(resolved[i].as_str(), config) {
            return true;
        }
        i += 1;
    }
    false
}



/// The first whitespace-separated word of a text, or nothing.
pub open spec fn first_token(t: Seq<char>) -> Seq<char> {
    let ws = words_from(t, 0);
    if ws.len() > 0 { ws[0] } else { Seq::empty() }
}

/// Whether the program name `exe` is `name`, or `name.exe`, or a path
/// ending in either.
pub open spec fn names_program(exe: Seq<char>, name: Seq<char>) -> bool {
    ||| exe == name
    ||| exe == name + ".exe"@
    ||| has_suffix(exe, "/"@ + name)
    ||| has_suffix(exe, "\\"@ + name)
    ||| has_suffix(exe, "/"@ + name + ".exe"@)
    ||| has_suffix(exe, "\\"@ + name + ".exe"@)
}

/// Whether a (lowercased) block entry refuses a command: a single word
/// names the program; an entry with a space is looked for in the whole
/// (lowercased) command.
pub open spec fn blocked_hit(b: Seq<char>, exe: Seq<char>, cmd_lower: Seq<char>) -> bool {
    if !has_char(b, ' ') { names_program(exe, b) } else { contains_seq(cmd_lower, b) }
}

/// Whether a (lowercased) allow entry lists the program, by name or as the
/// end of a path.
pub open spec fn allow_hit(a: Seq<char>, exe: Seq<char>) -> bool {
    exe == a || has_suffix(exe, "/"@ + a) || has_suffix(exe, "\\"@ + a)
}

/// What the lists say of a command: it is not blank, no block entry hits
/// it, and the allow list is empty, holds `*`, or lists its program.
pub open spec fn allowed_by_lists(cmd: Seq<char>, blocked: Seq<Seq<char>>, allowed: Seq<Seq<char>>) -> bool {
    let trimmed = trim_ws(cmd);
    let cmd_lower = unicode_lowercase(trimmed);
    let exe = unicode_lowercase(trim_matching(trim_matching(first_token(trimmed), '"'), '\''));
    &&& trimmed.len() > 0
    &&& !(exists|i: int| 0 <= i < blocked.len() && blocked_hit(unicode_lowercase(#[trigger] blocked[i]), exe, cmd_lower))
    &&& {
        ||| allowed.len() == 0
        ||| (exists|i: int| 0 <= i < allowed.len() && #[trigger] allowed[i] == "*"@)
        ||| (exists|i: int| 0 <= i < allowed.len() && allow_hit(unicode_lowercase(#[trigger] allowed[i]), exe))
    }
}

fn concat3(a: &str, b: &[char], c: &str) -> (r: Vec<char>)
    ensures
        r@ == a@ + b@ + c@,
{
    let mut s = owned(a);
    let bs = string_of(b, 0, b.len());
    assert(b@.subrange(0, b@.len() as int) =~= b@);
    push_str(&mut s, bs.as_str());
    push_str(&mut s, c);
    chars_of(s.as_str())
}

fn names_program_exec(exe: &[char], name: &[char]) -> (r: bool)
    ensures
        r == names_program(exe@, name@),
{
    proof {
        reveal_strlit("");
    }
    let plain = concat3("", name, "");
    let with_exe = concat3("", name, ".exe");
    let slash = concat3("/", name, "");
    let back = concat3("\\", name, "");
    let slash_exe = concat3("/", name, ".exe");
    let back_exe = concat3("\\", name, ".exe");
    assert(""@ + name@ + ""@ =~= name@);
    assert(""@ + name@ + ".exe"@ =~= name@ + ".exe"@);
    assert("/"@ + name@ + ""@ =~= "/"@ + name@);
    assert("\\"@ + name@ + ""@ =~= "\\"@ + name@);
    let same = exe.len() == plain.len() && starts_with(exe, plain.as_slice());
    let same_exe = exe.len() == with_exe.len() && starts_with(exe, with_exe.as_slice());
    proof {
        if exe.len() == plain.len() {
            assert(exe@.subrange(0, plain@.len() as int) =~= exe@);
        }
        if exe.len() == with_exe.len() {
            assert(exe@.subrange(0, with_exe@.len() as int) =~= exe@);
        }
        if exe@ == name@ {
            assert(exe@.subrange(0, plain@.len() as int) =~= exe@);
        }
        if exe@ == name@ + ".exe"@ {
            assert(exe@.subrange(0, with_exe@.len() as int) =~= exe@);
        }
    }
    same || same_exe || ends_with(exe, slash.as_slice()) || ends_with(exe, back.as_slice())
        || ends_with(exe, slash_exe.as_slice()) || ends_with(exe, back_exe.as_slice())
}

fn allow_hit_exec(a: &[char], exe: &[char]) -> (r: bool)
    ensures
        r == allow_hit(a@, exe@),
{
    proof { reveal_strlit(""); }
    let slash = concat3("/", a, "");
    let back = concat3("\\", a, "");
    assert("/"@ + a@ + ""@ =~= "/"@ + a@);
    assert("\\"@ + a@ + ""@ =~= "\\"@ + a@);
    let same = exe.len() == a.len() && starts_with(exe, a);
    proof {
        if exe.len() == a.len() {
            assert(exe@.subrange(0, a@.len() as int) =~= exe@);
        }
        if exe@ == a@ {
            assert(exe@.subrange(0, a@.len() as int) =~= exe@);
        }
    }
    same || ends_with(exe, slash.as_slice()) || ends_with(exe, back.as_slice())
}

/// Whether the lists allow a command and, given whether the workspace gate
/// found an argument outside the workspace, whether it may run.
pub fn is_allowed(cmd: &str, config: &ShellConfig, escapes: bool) -> (b: bool)
    ensures
        b == (allowed_by_lists(cmd@, texts(config.blocked_commands@), texts(config.allowed_commands@)) && !escapes),
{
    let trimmed = trim_str(cmd);
    let tv = chars_of(trimmed.as_str());
    if tv.len() == 0 {
        return false;
    }
    let cmd_lower = to_lowercase(trimmed.as_str());
    let lower_v = chars_of(cmd_lower.as_str());
    let words = split_words(tv.as_slice());
    let first = if words.len() > 0 { chars_of(words[0].as_str()) } else { Vec::new() };
    proof {
        if texts(words@).len() > 0 {
            assert(texts(words@)[0] == words@[0]@);
        }
    }
    let fw = crate::tools::exec_policy::trim_value_quotes(first.as_slice());
    let exe = to_lowercase(fw.as_str());
    let exe_v = chars_of(exe.as_str());
    let ghost blocked = texts(config.blocked_commands@);
    assert(exe_v@ == unicode_lowercase(trim_matching(trim_matching(first_token(trim_ws(cmd@)), '"'), '\'')));
    let mut i: usize = 0;
    while i < config.blocked_commands.len()
        invariant
            i <= config.blocked_commands@.len(),
            blocked == texts(config.blocked_commands@),
            exe_v@ == unicode_lowercase(trim_matching(trim_matching(first_token(trim_ws(cmd@)), '"'), '\'')),
            lower_v@ == unicode_lowercase(trim_ws(cmd@)),
            trim_ws(cmd@).len() > 0,
            forall|k: int| 0 <= k < i ==> !blocked_hit(unicode_lowercase(#[trigger] blocked[k]), exe_v@, lower_v@),
        decreases config.blocked_commands@.len() - i,
    {
        let b = to_lowercase(config.blocked_commands[i].as_str());
        let bv = chars_of(b.as_str());
        let hit = if !has_char_exec(bv.as_slice(), ' ') {
            names_program_exec(exe_v.as_slice(), bv.as_slice())
        } else {
            contains_str(lower_v.as_slice(), b.as_str())
        };
        assert(blocked[i as int] == config.blocked_commands@[i as int]@);
        if hit {
            assert(blocked_hit(unicode_lowercase(blocked[i as int]), exe_v@, lower_v@));
            return false;
        }
        i += 1;
    }
    let ghost allowed = texts(config.allowed_commands@);
    if config.allowed_commands.len() == 0 {
        return !escapes;
    }
    let mut j: usize = 0;
    let mut star = false;
    let mut listed = false;
    while j < config.allowed_commands.len()
        invariant
            j <= config.allowed_commands@.len(),
            allowed == texts(config.allowed_commands@),
            exe_v@ == unicode_lowercase(trim_matching(trim_matching(first_token(trim_ws(cmd@)), '"'), '\'')),
            star == (exists|k: int| 0 <= k < j && #[trigger] allowed[k] == "*"@),
            listed == (exists|k: int| 0 <= k < j && allow_hit(unicode_lowercase(#[trigger] allowed[k]), exe_v@)),
        decreases config.allowed_commands@.len() - j,
    {
        let av = chars_of(config.allowed_commands[j].as_str());
        assert(av@.subrange(0, av@.len() as int) =~= av@);
        assert(allowed[j as int] == config.allowed_commands@[j as int]@);
        if range_eq_str(av.as_slice(), 0, av.len(), "*") {
            star = true;
        }
        let al = to_lowercase(config.allowed_commands[j].as_str());
        let alv = chars_of(al.as_str());
        if allow_hit_exec(alv.as_slice(), exe_v.as_slice()) {
            listed = true;
        }
        j += 1;
    }
    (star || listed) && !escapes
}


/// Shell metacharacters that chain commands or inject input.
pub open spec fn is_shell_meta(c: char) -> bool {
    c == ';' || c == '&' || c == '|' || c == '`' || c == '$' || c == '(' || c == ')' || c == '{' || c == '}'
        || c == '<' || c == '>' || c == '\n' || c == '\\'
}

/// A command as a program and its arguments: `None` when it is blank or
/// holds a shell metacharacter.
pub open spec fn parsed_command(cmd: Seq<char>) -> Option<(Seq<char>, Seq<Seq<char>>)> {
    let t = trim_ws(cmd);
    let ws = words_from(t, 0);
    if t.len() == 0 || (exists|i: int| 0 <= i < t.len() && is_shell_meta(#[trigger] t[i])) || ws.len() == 0 {
        None
    } else {
        Some((ws[0], ws.subrange(1, ws.len() as int)))
    }
}

/// Splits a plain command into its program and arguments (see `parsed_command`).
pub fn parse_command(cmd: &str) -> (r: Option<(String, Vec<String>)>)
    ensures
        match (r, parsed_command(cmd@)) {
            (Some((e, a)), Some((se, sa))) => e@ == se && texts(a@) == sa,
            (None, None) => true,
            _ => false,
        },
{
    let t = trim_str(cmd);
    let v = chars_of(t.as_str());
    if v.len() == 0 {
        return None;
    }
    let mut i: usize = 0;
    while i < v.len()
        invariant
            i <= v@.len(),
            v@ == trim_ws(cmd@),
            forall|k: int| 0 <= k < i ==> !is_shell_meta(#[trigger] v@[k]),
        decreases v@.len() - i,
    {
        let c = v[i];
        if c == ';' || c == '&' || c == '|' || c == '`' || c == '$' || c == '(' || c == ')' || c == '{'
            || c == '}' || c == '<' || c == '>' || c == '\n' || c == '\\' {
            assert(is_shell_meta(v@[i as int]));
            return None;
        }
        i += 1;
    }
    let mut words = split_words(v.as_slice());
    if words.len() == 0 {
        return None;
    }
    let ghost ws = texts(words@);
    let exe = words.remove(0);
    assert(texts(words@) =~= ws.subrange(1, ws.len() as int));
    Some((exe, words))
}

/// Why a command is refused before it runs, in the order the checks are
/// made: the persistent policy, then the workspace gate, then the lists.
pub open spec fn refusal_text(cmd: Seq<char>, forbidden: bool, escapes: bool, allowed: bool) -> Option<Seq<char>> {
    if forbidden {
        Some("Command forbidden by persistent execution policy: "@ + cmd)
    } else if escapes {
        Some("Command rejected: it mutates a path outside the workspace (and outside PATH_ALLOWLIST): "@ + cmd)
    } else if !allowed {
        Some("Command not in allowed list or contains blocked operation: "@ + cmd)
    } else {
        None
    }
}

/// Why a command is refused, given whether the policy forbids it, whether
/// the workspace gate found an escaping argument, and whether the lists
/// allow it (see `refusal_text`).
pub fn command_refusal(cmd: &str, forbidden: bool, escapes: bool, allowed: bool) -> (r: Option<String>)
    ensures
        ot(r) == refusal_text(cmd@, forbidden, escapes, allowed),
{
    let head = if forbidden {
        "Command forbidden by persistent execution policy: "
    } else if escapes {
        "Command rejected: it mutates a path outside the workspace (and outside PATH_ALLOWLIST): "
    } else if !allowed {
        "Command not in allowed list or contains blocked operation: "
    } else {
        return None;
    };
    let mut s = owned(head);
    push_str(&mut s, cmd);
    Some(s)
}

/// The errors of a command that ran out of time: a line saying so is added
/// (on a line of its own).
pub open spec fn timed_out_stderr(stderr: Seq<char>, secs: nat) -> Seq<char> {
    let base = if stderr.len() > 0 && stderr.last() != '\n' { stderr + "\n"@ } else { stderr };
    base + "command timed out after "@ + dec(secs) + " second(s)"@
}

/// The errors of a command that ran out of time (see `timed_out_stderr`).
pub fn timeout_note(stderr: &str, secs: u64) -> (r: String)
    ensures
        r@ == timed_out_stderr(stderr@, secs as nat),
{
    let mut s = owned(stderr);
    let v = chars_of(stderr);
    if v.len() > 0 && v[v.len() - 1] != '\n' {
        push_str(&mut s, "\n");
    }
    push_str(&mut s, "command timed out after ");
    crate::text::push_decimal(&mut s, secs);
    push_str(&mut s, " second(s)");
    s
}

} // verus!
