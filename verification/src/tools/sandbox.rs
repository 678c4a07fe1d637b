//! The sandbox policy: which paths may be read or written, which commands
//! may run, whether the network may be used, and which environment
//! variables are withheld. What the file system says of a path (its
//! canonical form) is gathered by the caller and handed in.
use vstd::prelude::*;
use crate::text::{chars_of, owned, push_str, string_of, has_prefix, starts_with};
use crate::textops::{trim_ws, trim_str, contains_seq, contains_str, has_suffix, ends_with, unicode_lowercase,
    to_lowercase, range_eq_str, index_of};
use crate::repo::context::texts;
use crate::repo::contract::{words_from, ot};
use crate::repo::spec::split_words;
use crate::tools::exec_policy::{path_prefix, path_starts_with};
use crate::tools::shell::{path_absolute, path_is_absolute, first_token};
use crate::textops::{pieces, split_bounds};

verus! {

/// Why the sandbox refused.
#[derive(Debug, Clone, PartialEq, Eq)]
pub enum SandboxViolation {
    PathTraversal(String),
    OutOfWorkspace(String),
    PathDenied(String),
    CommandDenied(String),
    NetworkDenied(String),
}

/// The message of a refusal.
pub open spec fn violation_text(v: SandboxViolation) -> Seq<char> {
    match v {
        SandboxViolation::PathTraversal(s) => "Path traversal detected: "@ + s@,
        SandboxViolation::OutOfWorkspace(s) => "Path escapes workspace boundary: "@ + s@,
        SandboxViolation::PathDenied(s) => "Access to sensitive/denied path blocked: "@ + s@,
        SandboxViolation::CommandDenied(s) => "Command execution blocked by policy: "@ + s@,
        SandboxViolation::NetworkDenied(s) => "Network egress blocked by policy for URL: "@ + s@,
    }
}

impl SandboxViolation {
    /// The message of the refusal (see `violation_text`).
    pub fn message(&self) -> (r: String)
        ensures
            r@ == violation_text(*self),
    {
        let (head, s) = match self {
            SandboxViolation::PathTraversal(s) => ("Path traversal detected: ", s),
            SandboxViolation::OutOfWorkspace(s) => ("Path escapes workspace boundary: ", s),
            SandboxViolation::PathDenied(s) => ("Access to sensitive/denied path blocked: ", s),
            SandboxViolation::CommandDenied(s) => ("Command execution blocked by policy: ", s),
            SandboxViolation::NetworkDenied(s) => ("Network egress blocked by policy for URL: ", s),
        };
        let mut r = owned(head);
        push_str(&mut r, s.as_str());
        r
    }
}

/// The sandbox's rules.
#[derive(Debug, Clone)]
pub struct SandboxPolicy {
    pub workspace_root: String,
    pub allow_read_outside: bool,
    pub allow_write_outside: bool,
    pub allow_network: bool,
    pub allowed_read_paths: Vec<String>,
    pub allowed_write_paths: Vec<String>,
    pub denied_patterns: Vec<String>,
    pub allowed_commands: Vec<String>,
    pub denied_commands: Vec<String>,
    pub scrub_env_vars: bool,
    pub insecure_mode: bool,
}

/// The name `Path::join` gives: `b` itself when absolute, else `b` after
/// `a` and a separator.
pub uninterp spec fn path_joined(a: Seq<char>, b: Seq<char>) -> Seq<char>;

/// `Path::join` on paths given as text. Its result is named by `path_joined`.
#[verifier::external_body]
pub fn path_join(a: &str, b: &str) -> (r: String)
    ensures
        r@ == path_joined(a@, b@),
{
    std::path::Path::new(a).join(b).to_string_lossy().to_string()
}

/// The name `Path::parent` gives: the path without its last component, or
/// nothing for a root or an empty path.
pub uninterp spec fn path_parent_of(p: Seq<char>) -> Option<Seq<char>>;

/// `Path::parent` on a path given as text. Its result is named by `path_parent_of`.
#[verifier::external_body]
pub fn path_parent(p: &str) -> (r: Option<String>)
    ensures
        ot(r) == path_parent_of(p@),
{
    std::path::Path::new(p).parent().map(|q| q.to_string_lossy().to_string())
}

/// A path as the sandbox checks it: itself when absolute, else joined to
/// the workspace root.
pub open spec fn target_path(root: Seq<char>, p: Seq<char>) -> Seq<char> {
    if path_absolute(p) { p } else { path_joined(root, p) }
}

/// The components of a path read lexically from `i`, as a depth: `..`
/// leaves one (refused, as `None`, when there is none to leave), `.` and
/// empty components are skipped, any other enters one.
pub open spec fn lexical_depth(comps: Seq<Seq<char>>, i: int, depth: nat) -> Option<nat>
    decreases comps.len() - i,
{
    if i < 0 || i >= comps.len() {
        Some(depth)
    } else if comps[i] == ".."@ {
        if depth == 0 { None } else { lexical_depth(comps, i + 1, (depth - 1) as nat) }
    } else if comps[i] == "."@ || comps[i].len() == 0 {
        lexical_depth(comps, i + 1, depth)
    } else {
        lexical_depth(comps, i + 1, depth + 1)
    }
}

/// What the file system says of the paths a check looks at: the canonical
/// forms of the target path, of the directory it would be written in, of
/// the workspace root, and of each allowed read and write path (`None`
/// where a path cannot be resolved).
pub struct PathFacts {
    pub canon_target: Option<String>,
    pub canon_target_dir: Option<String>,
    pub canon_root: Option<String>,
    pub canon_allowed_read: Vec<Option<String>>,
    pub canon_allowed_write: Vec<Option<String>>,
}

impl SandboxPolicy {
    /// The default rules for a workspace root.
    pub fn new(workspace_root: String) -> (p: SandboxPolicy)
        ensures
            p.workspace_root == workspace_root,
            !p.allow_read_outside && !p.allow_write_outside && p.allow_network,
            p.allowed_read_paths@.len() == 0 && p.allowed_write_paths@.len() == 0,
            texts(p.denied_patterns@) == seq![".git"@, ".ssh"@, ".aws"@, ".env"@, "id_rsa"@, "id_ed25519"@],
            p.allowed_commands@.len() == 0,
            texts(p.denied_commands@) == seq!["rm -rf /"@, "mkfs"@, ":(){ :|:& };:"@],
            p.scrub_env_vars && !p.insecure_mode,
    {
        let denied_patterns = vec![owned(".git"), owned(".ssh"), owned(".aws"), owned(".env"), owned("id_rsa"),
            owned("id_ed25519")];
        let denied_commands = vec![owned("rm -rf /"), owned("mkfs"), owned(":(){ :|:& };:")];
        assert(texts(denied_patterns@) =~= seq![".git"@, ".ssh"@, ".aws"@, ".env"@, "id_rsa"@, "id_ed25519"@]);
        assert(texts(denied_commands@) =~= seq!["rm -rf /"@, "mkfs"@, ":(){ :|:& };:"@]);
        SandboxPolicy {
            workspace_root,
            allow_read_outside: false,
            allow_write_outside: false,
            allow_network: true,
            allowed_read_paths: Vec::new(),
            allowed_write_paths: Vec::new(),
            denied_patterns,
            allowed_commands: Vec::new(),
            denied_commands,
            scrub_env_vars: true,
            insecure_mode: false,
        }
    }

    /// The same rules with insecure mode set as given.
    pub fn with_insecure_mode(self, insecure: bool) -> (p: SandboxPolicy)
        ensures
            p.insecure_mode == insecure,
            p.workspace_root == self.workspace_root,
            p.denied_patterns == self.denied_patterns,
            p.denied_commands == self.denied_commands,
            p.allowed_commands == self.allowed_commands,
            p.allow_network == self.allow_network,
    {
        let mut p = self;
        p.insecure_mode = insecure;
        p
    }

    /// The path a check looks at (see `target_path`).
    pub fn target_of(&self, p: &str) -> (t: String)
        ensures
            t@ == target_path(self.workspace_root@, p@),
    {
        if path_is_absolute(p) {
            owned(p)
        } else {
            path_join(self.workspace_root.as_str(), p)
        }
    }
}


/// Whether a (lowercased) deny pattern matches a (lowercased) path: after a
/// separator somewhere, or at its end.
pub open spec fn pattern_hit(path: Seq<char>, pat: Seq<char>) -> bool {
    contains_seq(path, "/"@ + pat) || contains_seq(path, "\\"@ + pat) || has_suffix(path, pat)
}

/// The first deny pattern (from `i`) matching a path, if any.
pub open spec fn first_denied(pats: Seq<Seq<char>>, path_lower: Seq<char>, i: int) -> Option<Seq<char>>
    decreases pats.len() - i,
{
    if i < 0 || i >= pats.len() {
        None
    } else if pattern_hit(path_lower, unicode_lowercase(pats[i])) {
        Some(pats[i])
    } else {
        first_denied(pats, path_lower, i + 1)
    }
}

/// The first denied command (from `i`) that a command contains, if any.
pub open spec fn first_contained(denied: Seq<Seq<char>>, cmd: Seq<char>, i: int) -> Option<Seq<char>>
    decreases denied.len() - i,
{
    if i < 0 || i >= denied.len() {
        None
    } else if contains_seq(cmd, denied[i]) {
        Some(denied[i])
    } else {
        first_contained(denied, cmd, i + 1)
    }
}

/// `s` without trailing copies of `p` (`trim_end_matches`).
pub open spec fn strip_suffixes(s: Seq<char>, p: Seq<char>) -> Seq<char>
    decreases s.len(),
{
    if p.len() > 0 && has_suffix(s, p) { strip_suffixes(s.subrange(0, s.len() - p.len()), p) } else { s }
}

/// Whether a command may run: the first denied command it contains refuses
/// it; then, when there is an allow list, its program (first word, without
/// `.exe` suffixes) must be listed.
pub open spec fn command_check(insecure: bool, cmd: Seq<char>, denied: Seq<Seq<char>>, allowed: Seq<Seq<char>>) -> Result<(), Seq<char>> {
    let t = trim_ws(cmd);
    if insecure {
        Ok(())
    } else {
        match first_contained(denied, t, 0) {
            Some(d) => Err("Command contains forbidden pattern '"@ + d + "'"@),
            None => {
                let w = strip_suffixes(first_token(t), ".exe"@);
                if allowed.len() > 0 && !allowed.contains(w) {
                    Err("Command '"@ + w + "' is not in allowed_commands"@)
                } else {
                    Ok(())
                }
            },
        }
    }
}

/// A path's lexical check, as the sandbox reads it when it cannot be
/// resolved: `..` may not climb above where the path starts.
pub open spec fn lexically_contained(target: Seq<char>) -> bool {
    lexical_depth(pieces(target, '/'), 0, 0) is Some
}

/// The canonical workspace root, or the root itself when it cannot be resolved.
pub open spec fn root_of(root: Seq<char>, canon_root: Option<Seq<char>>) -> Seq<char> {
    match canon_root { Some(c) => c, None => root }
}

/// Resolving a path: one holding `..` is refused as traversal when its
/// canonical form lies outside the (non-empty) canonical root, or, when it
/// cannot be resolved, when it climbs above its start; else the target.
pub open spec fn resolve_ok(root: Seq<char>, p: Seq<char>, canon_target: Option<Seq<char>>, canon_root: Option<Seq<char>>) -> bool {
    if contains_seq(p, ".."@) {
        match canon_target {
            Some(c) => {
                let cr = root_of(root, canon_root);
                !(cr.len() > 0 && !path_prefix(c, cr))
            },
            None => lexically_contained(target_path(root, p)),
        }
    } else {
        true
    }
}

/// Whether a variable's name marks a secret: in uppercase it ends in
/// `_KEY`, `_SECRET` or `_TOKEN`, starts with `AWS_`, or is one of the
/// known token names.
pub open spec fn secret_name(upper: Seq<char>) -> bool {
    ||| has_suffix(upper, "_KEY"@)
    ||| has_suffix(upper, "_SECRET"@)
    ||| has_suffix(upper, "_TOKEN"@)
    ||| has_prefix(upper, "AWS_"@)
    ||| upper == "GITHUB_TOKEN"@
    ||| upper == "ANTHROPIC_API_KEY"@
    ||| upper == "OPENAI_API_KEY"@
    ||| upper == "NVIDIA_API_KEY"@
}

/// The text `str::to_uppercase` gives.
pub uninterp spec fn unicode_uppercase(s: Seq<char>) -> Seq<char>;

/// `str::to_uppercase`: the text with every scalar mapped to its Unicode
/// uppercase form (named by `unicode_uppercase`); on ASCII text, the ASCII
/// uppercase of each scalar.
#[verifier::external_body]
pub fn to_uppercase(s: &str) -> (r: String)
    ensures
        r@ == unicode_uppercase(s@),
        crate::textops::all_ascii(s@) ==> r@ == s@.map_values(|c: char| crate::textops::ascii_upper(c)),
{
    s.to_uppercase()
}

fn lexical_check(target: &str) -> (b: bool)
    ensures
        b == lexically_contained(target@),
{
    let v = chars_of(target);
    let bounds = split_bounds(v.as_slice(), '/', 0);
    assert(v@.subrange(0, v@.len() as int) =~= v@);
    let ghost comps = pieces(v@, '/');
    let mut depth: usize = 0;
    let mut i: usize = 0;
    while i < bounds.len()
        invariant
            i <= bounds@.len() == comps.len(),
            comps == pieces(v@, '/'),
            v@ == target@,
            forall|k: int| 0 <= k < bounds@.len() ==> {
                &&& (#[trigger] bounds@[k]).0 <= bounds@[k].1 <= v@.len()
                &&& v@.subrange(bounds@[k].0 as int, bounds@[k].1 as int) == comps[k]
            },
            depth <= i,
            lexical_depth(comps, i as int, depth as nat) == lexical_depth(comps, 0, 0),
        decreases bounds@.len() - i,
    {
        let (a, b) = bounds[i];
        assert(comps[i as int] == v@.subrange(a as int, b as int));
        if range_eq_str(v.as_slice(), a, b, "..") {
            if depth == 0 {
                return false;
            }
            depth -= 1;
        } else if range_eq_str(v.as_slice(), a, b, ".") || a == b {
        } else {
            depth += 1;
        }
        i += 1;
    }
    true
}

fn strip_exe(first: &Vec<char>) -> (r: Vec<char>)
    ensures
        r@ == strip_suffixes(first@, ".exe"@),
{
    proof { reveal_strlit(".exe"); }
    assert(".exe"@ =~= seq!['.', 'e', 'x', 'e']);
    let mut e = first.len();
    assert(first@.subrange(0, e as int) =~= first@);
    while e >= 4 && first[e - 4] == '.' && first[e - 3] == 'e' && first[e - 2] == 'x' && first[e - 1] == 'e'
        invariant
            e <= first@.len(),
            ".exe"@ == seq!['.', 'e', 'x', 'e'],
            strip_suffixes(first@.subrange(0, e as int), ".exe"@) == strip_suffixes(first@, ".exe"@),
        decreases e,
    {
        let ghost w = first@.subrange(0, e as int);
        assert(w.subrange(w.len() - 4, w.len() as int) =~= seq!['.', 'e', 'x', 'e']);
        assert(w.subrange(0, e - 4) =~= first@.subrange(0, e - 4));
        e -= 4;
    }
    proof {
        let w = first@.subrange(0, e as int);
        if has_suffix(w, ".exe"@) {
            let t = w.subrange(w.len() - 4, w.len() as int);
            assert(t[0] == w[e - 4]);
            assert(t[1] == w[e - 3]);
            assert(t[2] == w[e - 2]);
            assert(t[3] == w[e - 1]);
        }
    }
    crate::textops::sub_vec(first.as_slice(), 0, e)
}

fn listed_in(list: &Vec<String>, w: &Vec<char>) -> (b: bool)
    ensures
        b == texts(list@).contains(w@),
{
    let ghost allowed = texts(list@);
    let mut j: usize = 0;
    while j < list.len()
        invariant
            j <= list@.len(),
            allowed == texts(list@),
            forall|k: int| 0 <= k < j ==> #[trigger] allowed[k] != w@,
        decreases list@.len() - j,
    {
        let av = chars_of(list[j].as_str());
        assert(allowed[j as int] == list@[j as int]@);
        assert(av@.subrange(0, av@.len() as int) =~= av@);
        if av.len() == w.len() && starts_with(av.as_slice(), w.as_slice()) {
            assert(av@ =~= av@.subrange(0, w@.len() as int));
            assert(allowed[j as int] == w@);
            return true;
        }
        proof {
            if av@ == w@ {
                assert(av@.subrange(0, w@.len() as int) =~= av@);
            }
        }
        j += 1;
    }
    false
}

impl SandboxPolicy {
    /// The first deny pattern matching a path refuses it (see `first_denied`).
    pub fn check_denied_patterns(&self, p: &str) -> (r: Result<(), SandboxViolation>)
        ensures
            match first_denied(texts(self.denied_patterns@), unicode_lowercase(p@), 0) {
                Some(pat) => r matches Err(SandboxViolation::PathDenied(s)) && s@ == pat,
                None => r is Ok,
            },
    {
        let lower = to_lowercase(p);
        let lv = chars_of(lower.as_str());
        let ghost pats = texts(self.denied_patterns@);
        let mut i: usize = 0;
        while i < self.denied_patterns.len()
            invariant
                i <= self.denied_patterns@.len(),
                pats == texts(self.denied_patterns@),
                lv@ == unicode_lowercase(p@),
                first_denied(pats, lv@, i as int) == first_denied(pats, lv@, 0),
            decreases self.denied_patterns@.len() - i,
        {
            let pat = to_lowercase(self.denied_patterns[i].as_str());
            let mut slash = owned("/");
            push_str(&mut slash, pat.as_str());
            let mut back = owned("\\");
            push_str(&mut back, pat.as_str());
            let pv = chars_of(pat.as_str());
            assert(pats[i as int] == self.denied_patterns@[i as int]@);
            if contains_str(lv.as_slice(), slash.as_str()) || contains_str(lv.as_slice(), back.as_str())
                || ends_with(lv.as_slice(), pv.as_slice()) {
                return Err(SandboxViolation::PathDenied(owned(self.denied_patterns[i].as_str())));
            }
            i += 1;
        }
        Ok(())
    }

    /// Whether a command may run (see `command_check`).
    pub fn check_command(&self, command: &str) -> (r: Result<(), SandboxViolation>)
        ensures
            match command_check(self.insecure_mode, command@, texts(self.denied_commands@), texts(self.allowed_commands@)) {
                Ok(_) => r is Ok,
                Err(m) => r matches Err(SandboxViolation::CommandDenied(s)) && s@ == m,
            },
    {
        if self.insecure_mode {
            return Ok(());
        }
        let trimmed = trim_str(command);
        let tv = chars_of(trimmed.as_str());
        let ghost denied = texts(self.denied_commands@);
        let mut i: usize = 0;
        while i < self.denied_commands.len()
            invariant
                i <= self.denied_commands@.len(),
                denied == texts(self.denied_commands@),
                tv@ == trim_ws(command@),
                !self.insecure_mode,
                first_contained(denied, tv@, i as int) == first_contained(denied, tv@, 0),
            decreases self.denied_commands@.len() - i,
        {
            assert(denied[i as int] == self.denied_commands@[i as int]@);
            if contains_str(tv.as_slice(), self.denied_commands[i].as_str()) {
                assert(first_contained(denied, tv@, i as int) == Some(denied[i as int]));
                let mut m = owned("Command contains forbidden pattern '");
                push_str(&mut m, self.denied_commands[i].as_str());
                push_str(&mut m, "'");
                return Err(SandboxViolation::CommandDenied(m));
            }
            i += 1;
        }
        if self.allowed_commands.len() > 0 {
            let words = split_words(tv.as_slice());
            let first = if words.len() > 0 { chars_of(words[0].as_str()) } else { Vec::new() };
            proof {
                if texts(words@).len() > 0 {
                    assert(texts(words@)[0] == words@[0]@);
                }
            }
            let wv = strip_exe(&first);
            if !listed_in(&self.allowed_commands, &wv) {
                let mut m = owned("Command '");
                let w = string_of(wv.as_slice(), 0, wv.len());
                assert(wv@.subrange(0, wv@.len() as int) =~= wv@);
                push_str(&mut m, w.as_str());
                push_str(&mut m, "' is not in allowed_commands");
                return Err(SandboxViolation::CommandDenied(m));
            }
        }
        Ok(())
    }

    /// Whether a URL may be fetched: always in insecure mode or when the
    /// network is allowed; else refused with the URL.
    pub fn check_network(&self, url: &str) -> (r: Result<(), SandboxViolation>)
        ensures
            (self.insecure_mode || self.allow_network) ==> r is Ok,
            !(self.insecure_mode || self.allow_network) ==> (r matches Err(SandboxViolation::NetworkDenied(s)) && s@ == url@),
    {
        if self.insecure_mode || self.allow_network {
            return Ok(());
        }
        Err(SandboxViolation::NetworkDenied(owned(url)))
    }

    /// Whether an environment variable is kept: always unless scrubbing is
    /// on and its name marks a secret.
    pub fn keeps_env_var(&self, name: &str) -> (b: bool)
        ensures
            b == !(self.scrub_env_vars && secret_name(unicode_uppercase(name@))),
    {
        if !self.scrub_env_vars {
            return true;
        }
        let upper = to_uppercase(name);
        let uv = chars_of(upper.as_str());
        let n = uv.len();
        assert(uv@.subrange(0, n as int) =~= uv@);
        let key = chars_of("_KEY");
        let secret = chars_of("_SECRET");
        let token = chars_of("_TOKEN");
        let aws = chars_of("AWS_");
        let hit = ends_with(uv.as_slice(), key.as_slice()) || ends_with(uv.as_slice(), secret.as_slice())
            || ends_with(uv.as_slice(), token.as_slice()) || starts_with(uv.as_slice(), aws.as_slice())
            || range_eq_str(uv.as_slice(), 0, n, "GITHUB_TOKEN") || range_eq_str(uv.as_slice(), 0, n, "ANTHROPIC_API_KEY")
            || range_eq_str(uv.as_slice(), 0, n, "OPENAI_API_KEY") || range_eq_str(uv.as_slice(), 0, n, "NVIDIA_API_KEY");
        !hit
    }
}


/// A refusal by its kind (0 traversal, 1 outside the workspace, 2 denied
/// path, 3 denied command, 4 denied network) and text.
pub open spec fn violation_view(v: SandboxViolation) -> (int, Seq<char>) {
    match v {
        SandboxViolation::PathTraversal(s) => (0, s@),
        SandboxViolation::OutOfWorkspace(s) => (1, s@),
        SandboxViolation::PathDenied(s) => (2, s@),
        SandboxViolation::CommandDenied(s) => (3, s@),
        SandboxViolation::NetworkDenied(s) => (4, s@),
    }
}

/// A check's result by its views.
pub open spec fn result_view(r: Result<String, SandboxViolation>) -> Result<Seq<char>, (int, Seq<char>)> {
    match r {
        Ok(t) => Ok(t@),
        Err(v) => Err(violation_view(v)),
    }
}

/// Options of texts by their views.
pub open spec fn opt_views(v: Seq<Option<String>>) -> Seq<Option<Seq<char>>> {
    v.map_values(|o: Option<String>| ot(o))
}

/// The canonical path `c` when it lies under the first allowed canonical
/// prefix that holds it (from `i`).
pub open spec fn first_allowed(c: Option<Seq<char>>, allowed: Seq<Option<Seq<char>>>, i: int) -> bool
    decreases allowed.len() - i,
{
    if i < 0 || i >= allowed.len() {
        false
    } else {
        match (allowed[i], c) {
            (Some(a), Some(x)) => path_prefix(x, a) || first_allowed(c, allowed, i + 1),
            _ => first_allowed(c, allowed, i + 1),
        }
    }
}

/// Checking a path for reading: insecure mode joins it to the root; else
/// traversal and denied patterns refuse it; a canonical form under the
/// canonical root is given back; then anything when reading outside is
/// allowed; then a canonical form under an allowed read path; else it is
/// outside the workspace.
pub open spec fn read_check(
    root: Seq<char>,
    insecure: bool,
    allow_outside: bool,
    pats: Seq<Seq<char>>,
    p: Seq<char>,
    ct: Option<Seq<char>>,
    cr: Option<Seq<char>>,
    ca: Seq<Option<Seq<char>>>,
) -> Result<Seq<char>, (int, Seq<char>)> {
    let t = target_path(root, p);
    if insecure {
        Ok(path_joined(root, p))
    } else if !resolve_ok(root, p, ct, cr) {
        Err((0, p))
    } else {
        match first_denied(pats, unicode_lowercase(t), 0) {
            Some(pat) => Err((2, pat)),
            None => {
                let r = root_of(root, cr);
                match ct {
                    Some(c) => if path_prefix(c, r) {
                        Ok(c)
                    } else if allow_outside {
                        Ok(t)
                    } else if first_allowed(ct, ca, 0) {
                        Ok(c)
                    } else {
                        Err((1, t))
                    },
                    None => if allow_outside { Ok(t) } else { Err((1, t)) },
                }
            },
        }
    }
}

/// Checking a path for writing: insecure mode joins it to the root; else
/// traversal and denied patterns refuse it; the target is allowed when the
/// canonical form of its directory lies under the canonical root, or (when
/// that directory cannot be resolved) when it is relative and has no `..`
/// (then joined to the root again); then anything when writing outside is
/// allowed; then a directory under an allowed write path; else it is
/// outside the workspace.
pub open spec fn write_check(
    root: Seq<char>,
    insecure: bool,
    allow_outside: bool,
    pats: Seq<Seq<char>>,
    p: Seq<char>,
    ct: Option<Seq<char>>,
    cd: Option<Seq<char>>,
    cr: Option<Seq<char>>,
    caw: Seq<Option<Seq<char>>>,
) -> Result<Seq<char>, (int, Seq<char>)> {
    let t = target_path(root, p);
    if insecure {
        Ok(path_joined(root, p))
    } else if !resolve_ok(root, p, ct, cr) {
        Err((0, p))
    } else {
        match first_denied(pats, unicode_lowercase(t), 0) {
            Some(pat) => Err((2, pat)),
            None => {
                let r = root_of(root, cr);
                let near = match cd {
                    Some(d) => if path_prefix(d, r) { Some(t) } else { None },
                    None => if !path_absolute(t) && !contains_seq(t, ".."@) { Some(path_joined(root, t)) } else { None },
                };
                match near {
                    Some(x) => Ok(x),
                    None => if allow_outside || first_allowed(cd, caw, 0) { Ok(t) } else { Err((1, t)) },
                }
            },
        }
    }
}

fn first_allowed_exec(c: &Option<String>, allowed: &Vec<Option<String>>) -> (b: bool)
    ensures
        b == first_allowed(ot(*c), opt_views(allowed@), 0),
{
    let ghost av = opt_views(allowed@);
    let mut i: usize = 0;
    while i < allowed.len()
        invariant
            i <= allowed@.len(),
            av == opt_views(allowed@),
            first_allowed(ot(*c), av, i as int) == first_allowed(ot(*c), av, 0),
        decreases allowed@.len() - i,
    {
        assert(av[i as int] == ot(allowed@[i as int]));
        match (&allowed[i], c) {
            (Some(a), Some(x)) => {
                if path_starts_with(x.as_str(), a.as_str()) {
                    return true;
                }
            },
            _ => {},
        }
        i += 1;
    }
    false
}

impl SandboxPolicy {
    fn resolve_check(&self, p: &str, facts: &PathFacts) -> (b: bool)
        ensures
            b == resolve_ok(self.workspace_root@, p@, ot(facts.canon_target), ot(facts.canon_root)),
    {
        let pv = chars_of(p);
        if !contains_str(pv.as_slice(), "..") {
            return true;
        }
        match &facts.canon_target {
            Some(c) => {
                let r = match &facts.canon_root {
                    Some(cr) => owned(cr.as_str()),
                    None => owned(self.workspace_root.as_str()),
                };
                !(r.as_str().unicode_len() > 0 && !path_starts_with(c.as_str(), r.as_str()))
            },
            None => {
                let t = self.target_of(p);
                lexical_check(t.as_str())
            },
        }
    }

    /// Checks a path for reading (see `read_check`).
    pub fn check_read_path(&self, p: &str, facts: &PathFacts) -> (r: Result<String, SandboxViolation>)
        ensures
            result_view(r) == read_check(self.workspace_root@, self.insecure_mode, self.allow_read_outside,
                texts(self.denied_patterns@), p@, ot(facts.canon_target), ot(facts.canon_root),
                opt_views(facts.canon_allowed_read@)),
    {
        if self.insecure_mode {
            return Ok(path_join(self.workspace_root.as_str(), p));
        }
        if !self.resolve_check(p, facts) {
            return Err(SandboxViolation::PathTraversal(owned(p)));
        }
        let t = self.target_of(p);
        match self.check_denied_patterns(t.as_str()) {
            Err(v) => return Err(v),
            Ok(_) => {},
        }
        let r = match &facts.canon_root {
            Some(cr) => owned(cr.as_str()),
            None => owned(self.workspace_root.as_str()),
        };
        match &facts.canon_target {
            Some(c) => {
                if path_starts_with(c.as_str(), r.as_str()) {
                    return Ok(owned(c.as_str()));
                }
                if self.allow_read_outside {
                    return Ok(t);
                }
                if first_allowed_exec(&facts.canon_target, &facts.canon_allowed_read) {
                    return Ok(owned(c.as_str()));
                }
                Err(SandboxViolation::OutOfWorkspace(t))
            },
            None => {
                if self.allow_read_outside {
                    return Ok(t);
                }
                proof {
                    assert(!first_allowed(None, opt_views(facts.canon_allowed_read@), 0)) by {
                        lemma_first_allowed_none(opt_views(facts.canon_allowed_read@), 0);
                    }
                }
                Err(SandboxViolation::OutOfWorkspace(t))
            },
        }
    }

    /// The directory a write to `target` lands in: its parent, or the root.
    pub fn write_dir_of(&self, target: &str) -> (d: String)
        ensures
            d@ == match path_parent_of(target@) { Some(q) => q, None => self.workspace_root@ },
    {
        match path_parent(target) {
            Some(q) => q,
            None => owned(self.workspace_root.as_str()),
        }
    }

    /// Checks a path for writing (see `write_check`); `canon_target_dir` is
    /// the canonical form of `write_dir_of` the target.
    pub fn check_write_path(&self, p: &str, facts: &PathFacts) -> (r: Result<String, SandboxViolation>)
        ensures
            result_view(r) == write_check(self.workspace_root@, self.insecure_mode, self.allow_write_outside,
                texts(self.denied_patterns@), p@, ot(facts.canon_target), ot(facts.canon_target_dir),
                ot(facts.canon_root), opt_views(facts.canon_allowed_write@)),
    {
        if self.insecure_mode {
            return Ok(path_join(self.workspace_root.as_str(), p));
        }
        if !self.resolve_check(p, facts) {
            return Err(SandboxViolation::PathTraversal(owned(p)));
        }
        let t = self.target_of(p);
        match self.check_denied_patterns(t.as_str()) {
            Err(v) => return Err(v),
            Ok(_) => {},
        }
        let r = match &facts.canon_root {
            Some(cr) => owned(cr.as_str()),
            None => owned(self.workspace_root.as_str()),
        };
        match &facts.canon_target_dir {
            Some(d) => {
                if path_starts_with(d.as_str(), r.as_str()) {
                    return Ok(t);
                }
            },
            None => {
                let tv = chars_of(t.as_str());
                if !path_is_absolute(t.as_str()) && !contains_str(tv.as_slice(), "..") {
                    return Ok(path_join(self.workspace_root.as_str(), t.as_str()));
                }
            },
        }
        if self.allow_write_outside || first_allowed_exec(&facts.canon_target_dir, &facts.canon_allowed_write) {
            return Ok(t);
        }
        Err(SandboxViolation::OutOfWorkspace(t))
    }
}

proof fn lemma_first_allowed_none(allowed: Seq<Option<Seq<char>>>, i: int)
    ensures
        !first_allowed(None, allowed, i),
    decreases allowed.len() - i,
{
    if 0 <= i < allowed.len() {
        lemma_first_allowed_none(allowed, i + 1);
    }
}

} // verus!
