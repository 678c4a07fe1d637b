//! Persistent command rules: their text form, and the decision they give a
//! command.
use vstd::prelude::*;
use crate::text::{chars_of, owned, push_str, string_of, has_prefix, starts_with};
use crate::textops::{trim_ws, trim_bounds, trim_str, index_of, index_of_char, lemma_index_of, trim_end_char,
    trim_end_char_bound, has_suffix, ends_with, unicode_lowercase, to_lowercase, range_eq_str};
use crate::ui::engine::widgets::{text_lines, split_lines};
use crate::repo::context::{texts, join, push_joined};
use crate::repo::contract::{words_from, ot};
use crate::repo::spec::split_words;
use crate::textops::sub_vec;
use crate::text::{is_ws, first_newline, lemma_first_newline_at};
use crate::textops::{lemma_index_of_at, trim_start_ws, trim_end_ws};

verus! {

/// What a rule decides for a command; later variants are more restrictive.
#[derive(Clone, Copy, Debug, PartialEq, Eq, Structural)]
pub enum Decision {
    Allow,
    Prompt,
    Forbidden,
}

/// How restrictive a decision is.
pub open spec fn rank(d: Decision) -> int {
    match d {
        Decision::Allow => 0,
        Decision::Prompt => 1,
        Decision::Forbidden => 2,
    }
}

fn rank_exec(d: Decision) -> (r: u8)
    ensures
        r == rank(d),
{
    match d {
        Decision::Allow => 0,
        Decision::Prompt => 1,
        Decision::Forbidden => 2,
    }
}

/// A command rule.
#[derive(Clone, Debug)]
pub struct ExecRule {
    pub command: String,
    pub decision: Decision,
    pub scope: Option<String>,
    pub justification: Option<String>,
}

/// A rule by its text values.
pub struct RuleView {
    pub command: Seq<char>,
    pub decision: Decision,
    pub scope: Option<Seq<char>>,
    pub justification: Option<Seq<char>>,
}

/// The text values of a rule.
pub open spec fn rule_view(r: ExecRule) -> RuleView {
    RuleView { command: r.command@, decision: r.decision, scope: ot(r.scope), justification: ot(r.justification) }
}

/// The rules, in order.
#[derive(Clone, Debug)]
pub struct ExecPolicy {
    pub rules: Vec<ExecRule>,
}

/// The rules of a policy by their text values.
pub open spec fn rules_view(rules: Seq<ExecRule>) -> Seq<RuleView> {
    rules.map_values(|r: ExecRule| rule_view(r))
}

/// `s` without leading copies of `c`.
pub open spec fn trim_start_char(s: Seq<char>, c: char) -> Seq<char>
    decreases s.len(),
{
    if s.len() > 0 && s[0] == c { trim_start_char(s.subrange(1, s.len() as int), c) } else { s }
}

/// `s` without leading or trailing copies of `c` (`trim_matches`).
pub open spec fn trim_matching(s: Seq<char>, c: char) -> Seq<char> {
    trim_end_char(trim_start_char(s, c), c)
}

/// A value as read: trimmed, then stripped of double quotes, then of single quotes.
pub open spec fn rule_value(v: Seq<char>) -> Seq<char> {
    trim_matching(trim_matching(trim_ws(v), '"'), '\'')
}

/// Whether a text is made of lowercase ASCII letters only.
pub open spec fn ascii_lowercase_word(v: Seq<char>) -> bool {
    forall|i: int| 0 <= i < v.len() ==> 'a' <= #[trigger] v[i] <= 'z'
}

/// A value in lowercase: as it is when already lowercase ASCII letters,
/// else by `str::to_lowercase`.
pub open spec fn lowered(v: Seq<char>) -> Seq<char> {
    if ascii_lowercase_word(v) { v } else { unicode_lowercase(v) }
}

/// The decision a (lowercased) value names; anything unknown prompts.
pub open spec fn decision_named(v: Seq<char>) -> Decision {
    if v == "allow"@ {
        Decision::Allow
    } else if v == "forbidden"@ {
        Decision::Forbidden
    } else {
        Decision::Prompt
    }
}

/// The state of reading a policy text: the rules closed so far and the rule
/// being read.
pub struct PolicyScan {
    pub rules: Seq<RuleView>,
    pub in_rule: bool,
    pub command: Seq<char>,
    pub decision: Decision,
    pub scope: Option<Seq<char>>,
    pub justification: Option<Seq<char>>,
}

/// The rules once the rule being read is closed: it is kept when a rule was
/// opened and it has a command.
pub open spec fn closed_rules(st: PolicyScan) -> Seq<RuleView> {
    if st.in_rule && st.command.len() > 0 {
        st.rules.push(RuleView { command: st.command, decision: st.decision, scope: st.scope, justification: st.justification })
    } else {
        st.rules
    }
}

/// Reading one line: blank lines and `#` comments are skipped, `[[rules]]`
/// closes the current rule and opens a fresh one, and inside a rule a
/// `key = value` line sets `command`, `decision`, `scope` or
/// `justification` (other keys are ignored).
pub open spec fn scan_line(st: PolicyScan, raw: Seq<char>) -> PolicyScan {
    let line = trim_ws(raw);
    if line.len() == 0 || line[0] == '#' {
        st
    } else if line == "[[rules]]"@ {
        PolicyScan {
            rules: closed_rules(st),
            in_rule: true,
            command: Seq::empty(),
            decision: Decision::Prompt,
            scope: None,
            justification: None,
        }
    } else if st.in_rule && index_of(line, '=', 0) < line.len() {
        let k = index_of(line, '=', 0);
        let key = trim_ws(line.subrange(0, k));
        let val = rule_value(line.subrange(k + 1, line.len() as int));
        if key == "command"@ {
            PolicyScan { command: val, ..st }
        } else if key == "decision"@ {
            PolicyScan { decision: decision_named(lowered(val)), ..st }
        } else if key == "scope"@ {
            PolicyScan { scope: Some(val), ..st }
        } else if key == "justification"@ {
            PolicyScan { justification: Some(val), ..st }
        } else {
            st
        }
    } else {
        st
    }
}

/// The state after reading the first `n` lines.
pub open spec fn scan_lines(lines: Seq<Seq<char>>, n: nat) -> PolicyScan
    decreases n,
{
    if n == 0 || n > lines.len() {
        PolicyScan { rules: Seq::empty(), in_rule: false, command: Seq::empty(), decision: Decision::Prompt, scope: None, justification: None }
    } else {
        scan_line(scan_lines(lines, (n - 1) as nat), lines[n - 1])
    }
}

/// The rules a policy text holds.
pub open spec fn parsed_rules(content: Seq<char>) -> Seq<RuleView> {
    let lines = text_lines(content);
    closed_rules(scan_lines(lines, lines.len()))
}

fn trim_matching_bounds(v: &[char], from: usize, to: usize, c: char) -> (r: (usize, usize))
    requires
        from <= to <= v@.len(),
    ensures
        from <= r.0 <= r.1 <= to,
        v@.subrange(r.0 as int, r.1 as int) == trim_matching(v@.subrange(from as int, to as int), c),
{
    let mut a = from;
    while a < to && v[a] == c
        invariant
            from <= a <= to <= v@.len(),
            trim_start_char(v@.subrange(a as int, to as int), c) == trim_start_char(v@.subrange(from as int, to as int), c),
        decreases to - a,
    {
        assert(v@.subrange(a as int, to as int).subrange(1, (to - a) as int) =~= v@.subrange(a + 1, to as int));
        a += 1;
    }
    let e = trim_end_char_bound(v, a, to, c);
    (a, e)
}

/// A text without leading or trailing `/`.
pub(crate) fn trim_slashes(v: &[char]) -> (r: String)
    ensures
        r@ == trim_matching(v@, '/'),
{
    let (c, d) = trim_matching_bounds(v, 0, v.len(), '/');
    assert(v@.subrange(0, v@.len() as int) =~= v@);
    string_of(v, c, d)
}

/// A text without leading or trailing double quotes, then single quotes.
pub(crate) fn trim_value_quotes(v: &[char]) -> (r: String)
    ensures
        r@ == trim_matching(trim_matching(v@, '"'), '\''),
{
    let (c, d) = trim_matching_bounds(v, 0, v.len(), '"');
    assert(v@.subrange(0, v@.len() as int) =~= v@);
    let (e, f) = trim_matching_bounds(v, c, d, '\'');
    string_of(v, e, f)
}

/// A value as read (see `rule_value`).
fn read_value(v: &[char], from: usize, to: usize) -> (r: String)
    requires
        from <= to <= v@.len(),
    ensures
        r@ == rule_value(v@.subrange(from as int, to as int)),
{
    let (a, b) = trim_bounds(v, from, to);
    let (c, d) = trim_matching_bounds(v, a, b, '"');
    let (e, f) = trim_matching_bounds(v, c, d, '\'');
    string_of(v, e, f)
}

fn lower_value(v: &str) -> (r: String)
    ensures
        r@ == lowered(v@),
{
    let cv = chars_of(v);
    let mut i: usize = 0;
    while i < cv.len()
        invariant
            i <= cv@.len(),
            cv@ == v@,
            forall|k: int| 0 <= k < i ==> 'a' <= #[trigger] cv@[k] <= 'z',
        decreases cv@.len() - i,
    {
        if !('a' <= cv[i] && cv[i] <= 'z') {
            return to_lowercase(v);
        }
        i += 1;
    }
    owned(v)
}

fn decision_named_exec(v: &str) -> (d: Decision)
    ensures
        d == decision_named(v@),
{
    let cv = chars_of(v);
    assert(cv@.subrange(0, cv@.len() as int) =~= cv@);
    if range_eq_str(cv.as_slice(), 0, cv.len(), "allow") {
        Decision::Allow
    } else if range_eq_str(cv.as_slice(), 0, cv.len(), "forbidden") {
        Decision::Forbidden
    } else {
        Decision::Prompt
    }
}

fn closed_rules_exec(rules: &mut Vec<ExecRule>, in_rule: bool, command: &String, decision: Decision,
    scope: Option<String>, justification: Option<String>)
    ensures
        rules_view(final(rules)@) == closed_rules(PolicyScan {
            rules: rules_view(old(rules)@), in_rule, command: command@, decision, scope: ot(scope), justification: ot(justification),
        }),
{
    if in_rule && command.as_str().unicode_len() > 0 {
        let ghost before = old(rules)@;
        rules.push(ExecRule { command: command.clone(), decision, scope, justification });
        assert(rules_view(rules@) =~= rules_view(before).push(RuleView {
            command: command@, decision, scope: ot(scope), justification: ot(justification) }));
    }
}

impl ExecPolicy {
    /// Reads a policy from its text (see `parsed_rules`).
    pub fn parse(content: &str) -> (p: ExecPolicy)
        ensures
            rules_view(p.rules@) == parsed_rules(content@),
    {
        let lines = split_lines(content);
        let mut rules: Vec<ExecRule> = Vec::new();
        let mut in_rule = false;
        let mut command = String::new();
        let mut decision = Decision::Prompt;
        let mut scope: Option<String> = None;
        let mut justification: Option<String> = None;
        let mut i: usize = 0;
        assert(rules_view(rules@) =~= Seq::<RuleView>::empty());
        assert(command@ =~= Seq::<char>::empty());
        while i < lines.len()
            invariant
                i <= lines@.len() == text_lines(content@).len(),
                forall|j: int| 0 <= j < lines@.len() ==> (#[trigger] lines@[j])@ == text_lines(content@)[j],
                scan_lines(text_lines(content@), i as nat) == (PolicyScan {
                    rules: rules_view(rules@), in_rule, command: command@, decision, scope: ot(scope),
                    justification: ot(justification),
                }),
            decreases lines@.len() - i,
        {
            let ghost st = scan_lines(text_lines(content@), i as nat);
            let v = chars_of(lines[i].as_str());
            let (a, b) = trim_bounds(v.as_slice(), 0, v.len());
            assert(v@.subrange(0, v@.len() as int) =~= v@);
            let ghost line = v@.subrange(a as int, b as int);
            assert(line == trim_ws(text_lines(content@)[i as int]));
            if a == b || v[a] == '#' {
            } else if range_eq_str(v.as_slice(), a, b, "[[rules]]") {
                let old_scope = scope;
                let old_just = justification;
                closed_rules_exec(&mut rules, in_rule, &command, decision, old_scope, old_just);
                in_rule = true;
                command = String::new();
                decision = Decision::Prompt;
                scope = None;
                justification = None;
            } else if in_rule {
                let k = index_of_char(v.as_slice(), '=', a);
                proof {
                    lemma_index_of(v@, '=', a as int);
                    lemma_index_of_shift(v@, '=', a as int, b as int);
                }
                if k < b {
                    let (ka, kb) = trim_bounds(v.as_slice(), a, k);
                    assert(line.subrange(0, k - a) =~= v@.subrange(a as int, k as int));
                    assert(line.subrange(k - a + 1, line.len() as int) =~= v@.subrange(k + 1, b as int));
                    let val = read_value(v.as_slice(), k + 1, b);
                    if range_eq_str(v.as_slice(), ka, kb, "command") {
                        command = val;
                    } else if range_eq_str(v.as_slice(), ka, kb, "decision") {
                        let low = lower_value(val.as_str());
                        decision = decision_named_exec(low.as_str());
                    } else if range_eq_str(v.as_slice(), ka, kb, "scope") {
                        scope = Some(val);
                    } else if range_eq_str(v.as_slice(), ka, kb, "justification") {
                        justification = Some(val);
                    }
                }
            }
            i += 1;
        }
        closed_rules_exec(&mut rules, in_rule, &command, decision, scope, justification);
        ExecPolicy { rules }
    }
}

/// `index_of` within a window `[a, b)` of a text, as an index of the window.
proof fn lemma_index_of_shift(s: Seq<char>, c: char, a: int, b: int)
    requires
        0 <= a <= b <= s.len(),
    ensures
        index_of(s, c, a) < b ==> index_of(s.subrange(a, b), c, 0) == index_of(s, c, a) - a,
        index_of(s, c, a) >= b ==> index_of(s.subrange(a, b), c, 0) == b - a,
{
    lemma_index_of(s, c, a);
    let w = s.subrange(a, b);
    let j = if index_of(s, c, a) < b { index_of(s, c, a) - a } else { b - a };
    crate::textops::lemma_index_of_at(w, c, 0, j);
}


/// The word a decision is written as.
pub open spec fn decision_word(d: Decision) -> Seq<char> {
    match d {
        Decision::Allow => "allow"@,
        Decision::Forbidden => "forbidden"@,
        Decision::Prompt => "prompt"@,
    }
}

/// The text of one rule: a `[[rules]]` header, its quoted values (scope and
/// justification only when set) and a blank line.
pub open spec fn rule_text(r: RuleView) -> Seq<char> {
    "[[rules]]\n"@ + "command = \""@ + r.command + "\"\n"@ + "decision = \""@ + decision_word(r.decision) + "\"\n"@
        + match r.scope { Some(sc) => "scope = \""@ + sc + "\"\n"@, None => Seq::empty() }
        + match r.justification { Some(j) => "justification = \""@ + j + "\"\n"@, None => Seq::empty() }
        + "\n"@
}

/// The text of a policy: its rules' texts in order.
pub open spec fn policy_text(rules: Seq<RuleView>) -> Seq<char>
    decreases rules.len(),
{
    if rules.len() == 0 { Seq::empty() } else { policy_text(rules.drop_last()) + rule_text(rules.last()) }
}

#[verifier::rlimit(40)]
fn push_rule_text(out: &mut String, r: &ExecRule)
    ensures
        final(out)@ == old(out)@ + rule_text(rule_view(*r)),
{
    proof { reveal_strlit(""); }
    push_str(out, "[[rules]]\n");
    push_str(out, "command = \"");
    push_str(out, r.command.as_str());
    push_str(out, "\"\n");
    push_str(out, "decision = \"");
    match r.decision {
        Decision::Allow => push_str(out, "allow"),
        Decision::Forbidden => push_str(out, "forbidden"),
        Decision::Prompt => push_str(out, "prompt"),
    }
    push_str(out, "\"\n");
    let ghost mid = out@;
    match &r.scope {
        Some(sc) => {
            push_str(out, "scope = \"");
            push_str(out, sc.as_str());
            push_str(out, "\"\n");
        },
        None => {
            assert(out@ =~= mid + Seq::<char>::empty());
        },
    }
    let ghost mid2 = out@;
    match &r.justification {
        Some(j) => {
            push_str(out, "justification = \"");
            push_str(out, j.as_str());
            push_str(out, "\"\n");
        },
        None => {
            assert(out@ =~= mid2 + Seq::<char>::empty());
        },
    }
    push_str(out, "\n");
    assert(out@ =~= old(out)@ + rule_text(rule_view(*r)));
}

/// The name `Path::starts_with` gives: whether `base`'s components begin
/// the components of `path`.
pub uninterp spec fn path_prefix(path: Seq<char>, base: Seq<char>) -> bool;

/// `Path::starts_with` on two paths given as text: a comparison of whole
/// components (`/a/bc` does not start with `/a/b`). Its result is named by
/// `path_prefix`; how the components are read is std's and not restated.
#[verifier::external_body]
pub fn path_starts_with(path: &str, base: &str) -> (b: bool)
    ensures
        b == path_prefix(path@, base@),
{
    std::path::Path::new(path).starts_with(base)
}

/// Whether a rule applies to a command: its `workspace:` scope (if any)
/// must be a path prefix of the workspace, and its pattern (trimmed) must be
/// `*`, the whole command, its first word, `prefix *` with the command
/// starting with `prefix`, or `* suffix` with the command ending with `suffix`.
pub open spec fn rule_applies(r: RuleView, full: Seq<char>, first: Seq<char>, workspace: Option<Seq<char>>) -> bool {
    let scope_ok = match r.scope {
        Some(sc) => if has_prefix(sc, "workspace:"@) {
            match workspace {
                Some(w) => path_prefix(w, sc.subrange("workspace:"@.len() as int, sc.len() as int)),
                None => false,
            }
        } else {
            true
        },
        None => true,
    };
    let p = trim_ws(r.command);
    &&& scope_ok
    &&& {
        ||| p == "*"@
        ||| p == full
        ||| p == first
        ||| (has_suffix(p, " *"@) && has_prefix(full, p.subrange(0, p.len() - 2)))
        ||| (has_prefix(p, "* "@) && has_suffix(full, p.subrange(2, p.len() as int)))
    }
}

/// A command's text as rules see it: its words joined by spaces.
pub open spec fn full_command(command: Seq<String>) -> Seq<char> {
    join(texts(command), " "@)
}

/// A command's first word, or nothing.
pub open spec fn first_word(command: Seq<String>) -> Seq<char> {
    if command.len() > 0 { command[0]@ } else { Seq::empty() }
}

fn rule_applies_exec(r: &ExecRule, full: &Vec<char>, first: &Vec<char>, workspace: Option<&str>) -> (b: bool)
    ensures
        b == rule_applies(rule_view(*r), full@, first@, match workspace { Some(w) => Some(w@), None => None }),
{
    proof {
        reveal_strlit("workspace:");
        reveal_strlit(" *");
        reveal_strlit("* ");
    }
    match &r.scope {
        Some(sc) => {
            let sv = chars_of(sc.as_str());
            let wp = chars_of("workspace:");
            if starts_with(sv.as_slice(), wp.as_slice()) {
                match workspace {
                    Some(w) => {
                        let expected = string_of(sv.as_slice(), wp.len(), sv.len());
                        if !path_starts_with(w, expected.as_str()) {
                            return false;
                        }
                    },
                    None => {
                        return false;
                    },
                }
            }
        },
        None => {},
    }
    let cv = chars_of(r.command.as_str());
    let (a, b) = trim_bounds(cv.as_slice(), 0, cv.len());
    assert(cv@.subrange(0, cv@.len() as int) =~= cv@);
    let p = sub_vec(cv.as_slice(), a, b);
    let n = p.len();
    let star = chars_of("*");
    let star_end = chars_of(" *");
    let star_start = chars_of("* ");
    assert(p@.subrange(0, n as int) =~= p@);
    if range_eq_str(p.as_slice(), 0, n, "*") {
        return true;
    }
    if n == full.len() && starts_with(full.as_slice(), p.as_slice()) {
        assert(full@ =~= p@);
        return true;
    }
    if n == first.len() && starts_with(first.as_slice(), p.as_slice()) {
        assert(first@ =~= p@);
        return true;
    }
    if ends_with(p.as_slice(), star_end.as_slice()) {
        let prefix = sub_vec(p.as_slice(), 0, n - 2);
        if starts_with(full.as_slice(), prefix.as_slice()) {
            return true;
        }
    }
    if starts_with(p.as_slice(), star_start.as_slice()) {
        let suffix = sub_vec(p.as_slice(), 2, n);
        if ends_with(full.as_slice(), suffix.as_slice()) {
            return true;
        }
    }
    assert(!(p@ == full@)) by {
        if p@ == full@ {
            assert(full@.subrange(0, n as int) =~= p@);
        }
    }
    assert(!(p@ == first@)) by {
        if p@ == first@ {
            assert(first@.subrange(0, n as int) =~= p@);
        }
    }
    false
}

impl ExecPolicy {
    /// The policy as text (see `policy_text`).
    pub fn to_text(&self) -> (t: String)
        ensures
            t@ == policy_text(rules_view(self.rules@)),
    {
        let mut out = String::new();
        let mut i: usize = 0;
        assert(rules_view(self.rules@).subrange(0, 0) =~= Seq::<RuleView>::empty());
        while i < self.rules.len()
            invariant
                i <= self.rules@.len(),
                out@ == policy_text(rules_view(self.rules@).subrange(0, i as int)),
            decreases self.rules@.len() - i,
        {
            push_rule_text(&mut out, &self.rules[i]);
            assert(rules_view(self.rules@).subrange(0, i + 1).drop_last() =~= rules_view(self.rules@).subrange(0, i as int));
            i += 1;
        }
        assert(rules_view(self.rules@).subrange(0, i as int) =~= rules_view(self.rules@));
        out
    }

    /// The decision for a command: that of the most restrictive rule that
    /// applies (the last such rule when several tie), or `Prompt` with no
    /// rule when none applies.
    pub fn check(&self, command: &[String], workspace: Option<&str>) -> (r: (Decision, Option<&ExecRule>))
        ensures
            ({
                let rs = rules_view(self.rules@);
                let full = full_command(command@);
                let first = first_word(command@);
                let ws = match workspace { Some(w) => Some(w@), None => None };
                match r.1 {
                    None => r.0 == Decision::Prompt
                        && forall|j: int| 0 <= j < rs.len() ==> !rule_applies(#[trigger] rs[j], full, first, ws),
                    Some(rule) => exists|k: int| {
                        &&& 0 <= k < rs.len()
                        &&& *rule == self.rules@[k]
                        &&& rule_applies(rs[k], full, first, ws)
                        &&& r.0 == rs[k].decision
                        &&& forall|j: int| 0 <= j < rs.len() && rule_applies(#[trigger] rs[j], full, first, ws)
                            ==> rank(rs[j].decision) <= rank(rs[k].decision)
                        &&& forall|j: int| k < j < rs.len() && rule_applies(#[trigger] rs[j], full, first, ws)
                            ==> rank(rs[j].decision) < rank(rs[k].decision)
                    },
                }
            }),
            forall|j: int| 0 <= j < self.rules@.len() && command@.len() > 0 && (#[trigger] self.rules@[j]).scope is None
                && trim_ws(self.rules@[j].command@) == command@[0]@
                ==> r.1 is Some && rank(r.0) >= rank(self.rules@[j].decision),
    {
        let mut full = String::new();
        push_joined(&mut full, command, " ");
        let full_v = chars_of(full.as_str());
        let first_v = if command.len() > 0 { chars_of(command[0].as_str()) } else { Vec::new() };
        let ghost rs = rules_view(self.rules@);
        let ghost ws = match workspace { Some(w) => Some(w@), None => None::<Seq<char>> };
        let mut best: Option<usize> = None;
        let mut i: usize = 0;
        while i < self.rules.len()
            invariant
                i <= self.rules@.len() == rs.len(),
                rs == rules_view(self.rules@),
                full_v@ == full_command(command@),
                first_v@ == first_word(command@),
                ws == match workspace { Some(w) => Some(w@), None => None::<Seq<char>> },
                match best {
                    None => forall|j: int| 0 <= j < i ==> !rule_applies(#[trigger] rs[j], full_v@, first_v@, ws),
                    Some(k) => {
                        &&& k < i
                        &&& rule_applies(rs[k as int], full_v@, first_v@, ws)
                        &&& forall|j: int| 0 <= j < i && rule_applies(#[trigger] rs[j], full_v@, first_v@, ws)
                            ==> rank(rs[j].decision) <= rank(rs[k as int].decision)
                        &&& forall|j: int| k < j < i && rule_applies(#[trigger] rs[j], full_v@, first_v@, ws)
                            ==> rank(rs[j].decision) < rank(rs[k as int].decision)
                    },
                },
            decreases self.rules@.len() - i,
        {
            let applies = rule_applies_exec(&self.rules[i], &full_v, &first_v, workspace);
            if applies {
                match best {
                    None => {
                        best = Some(i);
                    },
                    Some(k) => {
                        if rank_exec(self.rules[k].decision) <= rank_exec(self.rules[i].decision) {
                            best = Some(i);
                        }
                    },
                }
            }
            i += 1;
        }
        proof {
            assert forall|j: int| 0 <= j < self.rules@.len() && command@.len() > 0 && (#[trigger] self.rules@[j]).scope is None
                && trim_ws(self.rules@[j].command@) == command@[0]@
                implies rule_applies(rs[j], full_v@, first_v@, ws) by {
                assert(rs[j] == rule_view(self.rules@[j]));
                lemma_first_word_rule(rs[j], command@, ws);
            }
        }
        match best {
            None => (Decision::Prompt, None),
            Some(k) => {
                let rule = &self.rules[k];
                (rule.decision, Some(rule))
            },
        }
    }

    /// Whether a command line (split at whitespace) is forbidden in a
    /// workspace.
    pub fn forbids(&self, command: &str, workspace: &str) -> (b: bool)
        ensures
            ({
                let toks = words_from(command@, 0);
                let rs = rules_view(self.rules@);
                let full = join(toks, " "@);
                let first = if toks.len() > 0 { toks[0] } else { Seq::empty() };
                b <==> exists|k: int| {
                    &&& 0 <= k < rs.len()
                    &&& rule_applies(rs[k], full, first, Some(workspace@))
                    &&& rs[k].decision == Decision::Forbidden
                }
            }),
            forall|j: int| 0 <= j < self.rules@.len() && words_from(command@, 0).len() > 0
                && (#[trigger] self.rules@[j]).scope is None && self.rules@[j].decision == Decision::Forbidden
                && trim_ws(self.rules@[j].command@) == words_from(command@, 0)[0]
                ==> b,
    {
        let cv = chars_of(command);
        let tokens = split_words(cv.as_slice());
        let r = self.check(tokens.as_slice(), Some(workspace));
        proof {
            let rs = rules_view(self.rules@);
            assert(full_command(tokens@) == join(texts(tokens@), " "@));
            if texts(tokens@).len() > 0 {
                assert(texts(tokens@)[0] == tokens@[0]@);
            }
            assert(tokens@.len() == texts(tokens@).len());
        }
        match r.0 {
            Decision::Forbidden => true,
            _ => false,
        }
    }
}


/// A value that reads back as written: on one line, and neither starting
/// nor ending with a quote of either kind.
pub open spec fn value_stable(v: Seq<char>) -> bool {
    &&& forall|i: int| 0 <= i < v.len() ==> #[trigger] v[i] != '\n'
    &&& v.len() > 0 ==> (v[0] != '"' && v[0] != '\'' && v.last() != '"' && v.last() != '\'')
}

/// A rule whose text reads back as the same rule: a command that is not
/// empty, and every value stable.
pub open spec fn rule_stable(r: RuleView) -> bool {
    &&& r.command.len() > 0
    &&& value_stable(r.command)
    &&& (r.scope matches Some(sc) ==> value_stable(sc))
    &&& (r.justification matches Some(j) ==> value_stable(j))
}

/// A `key = "value"` line.
pub open spec fn quoted_line(key: Seq<char>, v: Seq<char>) -> Seq<char> {
    key + " = \""@ + v + "\""@
}

/// The lines of a rule's text.
pub open spec fn rule_lines(r: RuleView) -> Seq<Seq<char>> {
    seq!["[[rules]]"@, quoted_line("command"@, r.command), quoted_line("decision"@, decision_word(r.decision))]
        + match r.scope { Some(sc) => seq![quoted_line("scope"@, sc)], None => Seq::empty() }
        + match r.justification { Some(j) => seq![quoted_line("justification"@, j)], None => Seq::empty() }
        + seq![Seq::<char>::empty()]
}

/// Lines, each ended by a newline.
pub open spec fn lines_text(ls: Seq<Seq<char>>) -> Seq<char>
    decreases ls.len(),
{
    if ls.len() == 0 { Seq::empty() } else { lines_text(ls.drop_last()) + ls.last() + "\n"@ }
}

/// The lines of all the rules' texts.
pub open spec fn all_rule_lines(rs: Seq<RuleView>) -> Seq<Seq<char>>
    decreases rs.len(),
{
    if rs.len() == 0 { Seq::empty() } else { all_rule_lines(rs.drop_last()) + rule_lines(rs.last()) }
}

/// Reading lines from a given state.
pub open spec fn scan_from(st: PolicyScan, ls: Seq<Seq<char>>) -> PolicyScan
    decreases ls.len(),
{
    if ls.len() == 0 { st } else { scan_line(scan_from(st, ls.drop_last()), ls.last()) }
}

/// The state before any line.
pub open spec fn scan_start() -> PolicyScan {
    PolicyScan { rules: Seq::empty(), in_rule: false, command: Seq::empty(), decision: Decision::Prompt, scope: None, justification: None }
}

/// The state after a rule's lines, with `rules` closed before it.
pub open spec fn reading(rules: Seq<RuleView>, r: RuleView) -> PolicyScan {
    PolicyScan { rules, in_rule: true, command: r.command, decision: r.decision, scope: r.scope, justification: r.justification }
}

proof fn lemma_lines_text_concat(a: Seq<Seq<char>>, b: Seq<Seq<char>>)
    ensures
        lines_text(a + b) == lines_text(a) + lines_text(b),
    decreases b.len(),
{
    if b.len() == 0 {
        assert(a + b =~= a);
        assert(lines_text(a) + Seq::<char>::empty() =~= lines_text(a));
    } else {
        lemma_lines_text_concat(a, b.drop_last());
        assert((a + b).drop_last() =~= a + b.drop_last());
        assert(lines_text(a) + lines_text(b.drop_last()) + b.last() + "\n"@
            =~= lines_text(a) + (lines_text(b.drop_last()) + b.last() + "\n"@));
    }
}

/// A line without `\n` (and not ending in `\r`) comes back whole.
proof fn lemma_line_cons(l: Seq<char>, rest: Seq<char>)
    requires
        forall|i: int| 0 <= i < l.len() ==> #[trigger] l[i] != '\n',
        l.len() > 0 ==> l.last() != '\r',
    ensures
        text_lines(l + "\n"@ + rest) == seq![l] + text_lines(rest),
{
    reveal_strlit("\n");
    let s = l + "\n"@ + rest;
    lemma_first_newline_at(s, 0, l.len() as int);
    assert(s.subrange(0, l.len() as int) =~= l);
    assert(s.subrange(l.len() as int + 1, s.len() as int) =~= rest);
}

/// Lines ended by newlines split back into the same lines.
proof fn lemma_lines_round_trip(ls: Seq<Seq<char>>)
    requires
        forall|k: int, i: int| 0 <= k < ls.len() && 0 <= i < ls[k].len() ==> #[trigger] ls[k][i] != '\n',
        forall|k: int| 0 <= k < ls.len() && (#[trigger] ls[k]).len() > 0 ==> ls[k].last() != '\r',
    ensures
        text_lines(lines_text(ls)) == ls,
    decreases ls.len(),
{
    if ls.len() == 0 {
    } else {
        let rest = ls.drop_first();
        assert(ls =~= seq![ls[0]] + rest);
        lemma_lines_text_concat(seq![ls[0]], rest);
        assert(seq![ls[0]].drop_last() =~= Seq::<Seq<char>>::empty());
        assert(lines_text(Seq::<Seq<char>>::empty()) =~= Seq::<char>::empty());
        assert(lines_text(seq![ls[0]]) =~= ls[0] + "\n"@);
        assert forall|i: int| 0 <= i < ls[0].len() implies #[trigger] ls[0][i] != '\n' by {
            assert(ls[0][i] != '\n');
        }
        lemma_line_cons(ls[0], lines_text(rest));
        assert forall|k: int, i: int| 0 <= k < rest.len() && 0 <= i < rest[k].len() implies #[trigger] rest[k][i] != '\n' by {
            assert(rest[k] == ls[k + 1]);
        }
        assert forall|k: int| 0 <= k < rest.len() && (#[trigger] rest[k]).len() > 0 implies rest[k].last() != '\r' by {
            assert(rest[k] == ls[k + 1]);
        }
        lemma_lines_round_trip(rest);
    }
}

proof fn lemma_scan_lines_from(ls: Seq<Seq<char>>, n: nat)
    requires
        n <= ls.len(),
    ensures
        scan_lines(ls, n) == scan_from(scan_start(), ls.subrange(0, n as int)),
    decreases n,
{
    if n > 0 {
        lemma_scan_lines_from(ls, (n - 1) as nat);
        assert(ls.subrange(0, n as int).drop_last() =~= ls.subrange(0, n - 1));
    } else {
        assert(ls.subrange(0, 0) =~= Seq::<Seq<char>>::empty());
    }
}

proof fn lemma_scan_from_concat(st: PolicyScan, a: Seq<Seq<char>>, b: Seq<Seq<char>>)
    ensures
        scan_from(st, a + b) == scan_from(scan_from(st, a), b),
    decreases b.len(),
{
    if b.len() == 0 {
        assert(a + b =~= a);
    } else {
        lemma_scan_from_concat(st, a, b.drop_last());
        assert((a + b).drop_last() =~= a + b.drop_last());
    }
}


/// A key of lowercase ASCII letters.
pub open spec fn plain_key(key: Seq<char>) -> bool {
    key.len() > 0 && forall|i: int| 0 <= i < key.len() ==> 'a' <= #[trigger] key[i] <= 'z'
}

proof fn lemma_trim_matching_stable(v: Seq<char>, c: char)
    requires
        v.len() > 0 ==> (v[0] != c && v.last() != c),
    ensures
        trim_matching(v, c) == v,
{
}

proof fn lemma_quoted_value(v: Seq<char>)
    requires
        value_stable(v),
    ensures
        rule_value(" \""@ + v + "\""@) == v,
{
    reveal_strlit(" \"");
    reveal_strlit("\"");
    let x = " \""@ + v + "\""@;
    let q = seq!['"'] + v + seq!['"'];
    assert(x.drop_first() =~= q);
    assert(is_ws(x[0]));
    assert(!is_ws(q[0]));
    assert(trim_start_ws(q) == q);
    assert(trim_start_ws(x) == q);
    assert(!is_ws(q.last()));
    assert(trim_end_ws(q) == q);
    assert(trim_ws(x) == q);
    let vq = v + seq!['"'];
    assert(q.subrange(1, q.len() as int) =~= vq);
    if v.len() > 0 {
        assert(vq[0] == v[0]);
        assert(trim_start_char(vq, '"') == vq);
        assert(trim_start_char(q, '"') == vq);
        assert(vq.drop_last() =~= v);
        assert(trim_end_char(vq, '"') == trim_end_char(v, '"'));
        assert(trim_end_char(v, '"') == v);
    } else {
        assert(vq =~= seq!['"']);
        assert(vq.subrange(1, vq.len() as int) =~= Seq::<char>::empty());
        assert(trim_start_char(Seq::<char>::empty(), '"') == Seq::<char>::empty());
        assert(trim_start_char(vq, '"') == Seq::<char>::empty());
        assert(trim_start_char(q, '"') == Seq::<char>::empty());
        assert(trim_end_char(Seq::<char>::empty(), '"') == Seq::<char>::empty());
        assert(v =~= Seq::<char>::empty());
    }
    assert(trim_matching(q, '"') == v);
    lemma_trim_matching_stable(v, '\'');
}

proof fn lemma_quoted_line(key: Seq<char>, v: Seq<char>)
    requires
        plain_key(key),
        value_stable(v),
    ensures
        trim_ws(quoted_line(key, v)) == quoted_line(key, v),
        quoted_line(key, v).len() > 0,
        quoted_line(key, v)[0] != '#',
        quoted_line(key, v) != "[[rules]]"@,
        index_of(quoted_line(key, v), '=', 0) == key.len() + 1,
        key.len() + 1 < quoted_line(key, v).len(),
        trim_ws(quoted_line(key, v).subrange(0, key.len() as int + 1)) == key,
        rule_value(quoted_line(key, v).subrange(key.len() as int + 2, quoted_line(key, v).len() as int)) == v,
{
    reveal_strlit(" = \"");
    reveal_strlit("\"");
    reveal_strlit("[[rules]]");
    reveal_strlit(" \"");
    let line = quoted_line(key, v);
    let n = key.len() as int;
    assert(line[0] == key[0]);
    assert('a' <= key[0] <= 'z');
    assert(!is_ws(line[0]));
    assert(trim_start_ws(line) == line);
    assert(line.last() == '"');
    assert(trim_end_ws(line) == line);
    assert(line[n] == ' ');
    assert(line[n + 1] == '=');
    assert forall|k: int| 0 <= k < n + 1 implies line[k] != '=' by {
        if k < n {
            assert(line[k] == key[k]);
            assert('a' <= key[k] <= 'z');
        }
    }
    lemma_index_of_at(line, '=', 0, n + 1);
    if line == "[[rules]]"@ {
        assert(line[0] == '[');
    }
    let kp = line.subrange(0, n + 1);
    assert(kp =~= key.push(' '));
    assert(!is_ws(kp[0]));
    assert(trim_start_ws(kp) == kp);
    assert(is_ws(kp.last()));
    assert(kp.drop_last() =~= key);
    assert(!is_ws(key.last()));
    assert(trim_end_ws(key) == key);
    assert(trim_end_ws(kp) == key);
    assert(line.subrange(n + 2, line.len() as int) =~= " \""@ + v + "\""@);
    lemma_quoted_value(v);
}


proof fn lemma_keys_plain()
    ensures
        plain_key("command"@),
        plain_key("decision"@),
        plain_key("scope"@),
        plain_key("justification"@),
        "command"@ != "decision"@,
        "command"@ != "scope"@,
        "command"@ != "justification"@,
        "decision"@ != "scope"@,
        "decision"@ != "justification"@,
        "scope"@ != "justification"@,
{
    reveal_strlit("command");
    reveal_strlit("decision");
    reveal_strlit("scope");
    reveal_strlit("justification");
    assert(plain_key("command"@)) by {
        let w = "command"@;
        assert forall|i: int| 0 <= i < w.len() implies 'a' <= #[trigger] w[i] <= 'z' by {
            assert(0 <= i < 7);
        }
    }
    assert(plain_key("decision"@)) by {
        let w = "decision"@;
        assert forall|i: int| 0 <= i < w.len() implies 'a' <= #[trigger] w[i] <= 'z' by {
            assert(0 <= i < 8);
        }
    }
    assert(plain_key("scope"@)) by {
        let w = "scope"@;
        assert forall|i: int| 0 <= i < w.len() implies 'a' <= #[trigger] w[i] <= 'z' by {
            assert(0 <= i < 5);
        }
    }
    assert(plain_key("justification"@)) by {
        let w = "justification"@;
        assert forall|i: int| 0 <= i < w.len() implies 'a' <= #[trigger] w[i] <= 'z' by {
            assert(0 <= i < 13);
        }
    }
}

proof fn lemma_decision_word(d: Decision)
    ensures
        value_stable(decision_word(d)),
        lowered(decision_word(d)) == decision_word(d),
        decision_named(lowered(decision_word(d))) == d,
{
    reveal_strlit("allow");
    reveal_strlit("forbidden");
    reveal_strlit("prompt");
    let w = decision_word(d);
    assert forall|i: int| 0 <= i < w.len() implies 'a' <= #[trigger] w[i] <= 'z' by {
        assert(0 <= i < 9);
    }
    assert(ascii_lowercase_word(w));
}


proof fn lemma_scan_quoted(st: PolicyScan, key: Seq<char>, v: Seq<char>)
    requires
        st.in_rule,
        plain_key(key),
        value_stable(v),
    ensures
        scan_line(st, quoted_line(key, v)) == if key == "command"@ {
            PolicyScan { command: v, ..st }
        } else if key == "decision"@ {
            PolicyScan { decision: decision_named(lowered(v)), ..st }
        } else if key == "scope"@ {
            PolicyScan { scope: Some(v), ..st }
        } else if key == "justification"@ {
            PolicyScan { justification: Some(v), ..st }
        } else {
            st
        },
{
    lemma_quoted_line(key, v);
}

/// Reading a rule's lines closes the rule before it and leaves this rule open.
proof fn lemma_scan_rule(st: PolicyScan, r: RuleView)
    requires
        rule_stable(r),
    ensures
        scan_from(st, rule_lines(r)) == reading(closed_rules(st), r),
{
    reveal_strlit("[[rules]]");
    lemma_keys_plain();
    lemma_decision_word(r.decision);
    let l0 = "[[rules]]"@;
    let l1 = quoted_line("command"@, r.command);
    let l2 = quoted_line("decision"@, decision_word(r.decision));
    let fresh = PolicyScan {
        rules: closed_rules(st),
        in_rule: true,
        command: Seq::empty(),
        decision: Decision::Prompt,
        scope: None,
        justification: None,
    };
    assert(!is_ws(l0[0]) && !is_ws(l0.last()));
    assert(trim_start_ws(l0) == l0);
    assert(trim_end_ws(l0) == l0);
    assert(scan_line(st, l0) == fresh);
    let s1 = PolicyScan { command: r.command, ..fresh };
    lemma_scan_quoted(fresh, "command"@, r.command);
    assert(scan_line(fresh, l1) == s1);
    let s2 = PolicyScan { decision: r.decision, ..s1 };
    lemma_scan_quoted(s1, "decision"@, decision_word(r.decision));
    assert(scan_line(s1, l2) == s2);
    let scope_lines: Seq<Seq<char>> = match r.scope { Some(sc) => seq![quoted_line("scope"@, sc)], None => Seq::empty() };
    let just_lines: Seq<Seq<char>> = match r.justification { Some(j) => seq![quoted_line("justification"@, j)], None => Seq::empty() };
    let s3 = PolicyScan { scope: r.scope, ..s2 };
    match r.scope {
        Some(sc) => {
            lemma_scan_quoted(s2, "scope"@, sc);
            assert(seq![quoted_line("scope"@, sc)].drop_last() =~= Seq::<Seq<char>>::empty());
            assert(scan_from(s2, Seq::<Seq<char>>::empty()) == s2);
            assert(scan_from(s2, scope_lines) == s3);
        },
        None => {
            assert(scan_from(s2, scope_lines) == s3);
        },
    }
    let s4 = reading(closed_rules(st), r);
    match r.justification {
        Some(j) => {
            lemma_scan_quoted(s3, "justification"@, j);
            assert(seq![quoted_line("justification"@, j)].drop_last() =~= Seq::<Seq<char>>::empty());
            assert(scan_from(s3, Seq::<Seq<char>>::empty()) == s3);
            assert(scan_from(s3, just_lines) == s4);
        },
        None => {
            assert(scan_from(s3, just_lines) == s4);
        },
    }
    assert(trim_ws(Seq::<char>::empty()) == Seq::<char>::empty());
    assert(scan_line(s4, Seq::<char>::empty()) == s4);
    let head = seq![l0, l1, l2];
    assert(head.drop_last().drop_last().drop_last() =~= Seq::<Seq<char>>::empty());
    assert(head.drop_last().drop_last() =~= seq![l0]);
    assert(head.drop_last() =~= seq![l0, l1]);
    assert(scan_from(st, Seq::<Seq<char>>::empty()) == st);
    assert(seq![l0].drop_last() =~= Seq::<Seq<char>>::empty());
    assert(scan_from(st, seq![l0]) == fresh);
    assert(scan_from(st, seq![l0, l1]) == s1);
    assert(scan_from(st, head) == s2);
    assert(scan_from(s4, Seq::<Seq<char>>::empty()) == s4);
    assert(seq![Seq::<char>::empty()].drop_last() =~= Seq::<Seq<char>>::empty());
    assert(seq![Seq::<char>::empty()].last() == Seq::<char>::empty());
    assert(scan_from(s4, seq![Seq::<char>::empty()]) == s4);
    assert(rule_lines(r) =~= head + scope_lines + just_lines + seq![Seq::<char>::empty()]);
    lemma_scan_from_concat(st, head, scope_lines);
    lemma_scan_from_concat(st, head + scope_lines, just_lines);
    lemma_scan_from_concat(st, head + scope_lines + just_lines, seq![Seq::<char>::empty()]);
    assert(seq![Seq::<char>::empty()].drop_last() =~= Seq::<Seq<char>>::empty());
}


proof fn lemma_text_literals()
    ensures
        "[[rules]]\n"@ == "[[rules]]"@ + "\n"@,
        "command = \""@ == "command"@ + " = \""@,
        "decision = \""@ == "decision"@ + " = \""@,
        "scope = \""@ == "scope"@ + " = \""@,
        "justification = \""@ == "justification"@ + " = \""@,
        "\"\n"@ == "\""@ + "\n"@,
{
    reveal_strlit("[[rules]]\n");
    reveal_strlit("command = \"");
    reveal_strlit("\"\n");
    reveal_strlit("decision = \"");
    reveal_strlit("scope = \"");
    reveal_strlit("justification = \"");
    reveal_strlit("\n");
    reveal_strlit("[[rules]]");
    reveal_strlit("command");
    reveal_strlit("decision");
    reveal_strlit("scope");
    reveal_strlit("justification");
    reveal_strlit(" = \"");
    reveal_strlit("\"");
    assert("[[rules]]\n"@ =~= "[[rules]]"@ + "\n"@);
    assert("command = \""@ =~= "command"@ + " = \""@);
    assert("decision = \""@ =~= "decision"@ + " = \""@);
    assert("scope = \""@ =~= "scope"@ + " = \""@);
    assert("justification = \""@ =~= "justification"@ + " = \""@);
    assert("\"\n"@ =~= "\""@ + "\n"@);
}

proof fn lemma_lines_text_one(l: Seq<char>)
    ensures
        lines_text(seq![l]) == l + "\n"@,
{
    assert(seq![l].drop_last() =~= Seq::<Seq<char>>::empty());
    assert(lines_text(Seq::<Seq<char>>::empty()) =~= Seq::<char>::empty());
    assert(lines_text(seq![l]) =~= l + "\n"@);
}

proof fn lemma_lines_text_three(a: Seq<char>, b: Seq<char>, c: Seq<char>)
    ensures
        lines_text(seq![a, b, c]) == a + "\n"@ + b + "\n"@ + c + "\n"@,
{
    lemma_lines_text_one(a);
    lemma_lines_text_one(b);
    lemma_lines_text_one(c);
    lemma_lines_text_concat(seq![a], seq![b]);
    assert(seq![a] + seq![b] =~= seq![a, b]);
    lemma_lines_text_concat(seq![a, b], seq![c]);
    assert(seq![a, b] + seq![c] =~= seq![a, b, c]);
    assert(lines_text(seq![a, b, c]) =~= a + "\n"@ + b + "\n"@ + c + "\n"@);
}

/// An optional quoted line, as lines.
pub open spec fn opt_line(key: Seq<char>, v: Option<Seq<char>>) -> Seq<Seq<char>> {
    match v { Some(x) => seq![quoted_line(key, x)], None => Seq::empty() }
}

/// An optional quoted line, as text.
pub open spec fn opt_text(key_eq: Seq<char>, v: Option<Seq<char>>) -> Seq<char> {
    match v { Some(x) => key_eq + x + "\"\n"@, None => Seq::empty() }
}

proof fn lemma_opt_line(key: Seq<char>, v: Option<Seq<char>>)
    ensures
        lines_text(opt_line(key, v)) == opt_text(key + " = \""@, v),
{
    lemma_text_literals();
    match v {
        Some(x) => {
            lemma_lines_text_one(quoted_line(key, x));
            assert(lines_text(opt_line(key, v)) =~= opt_text(key + " = \""@, v));
        },
        None => {
            assert(lines_text(Seq::<Seq<char>>::empty()) =~= Seq::<char>::empty());
        },
    }
}

proof fn lemma_head_text(c: Seq<char>, dw: Seq<char>)
    ensures
        lines_text(seq!["[[rules]]"@, quoted_line("command"@, c), quoted_line("decision"@, dw)])
            == "[[rules]]\n"@ + "command = \""@ + c + "\"\n"@ + "decision = \""@ + dw + "\"\n"@,
{
    lemma_text_literals();
    lemma_lines_text_three("[[rules]]"@, quoted_line("command"@, c), quoted_line("decision"@, dw));
    assert(lines_text(seq!["[[rules]]"@, quoted_line("command"@, c), quoted_line("decision"@, dw)])
        =~= "[[rules]]\n"@ + "command = \""@ + c + "\"\n"@ + "decision = \""@ + dw + "\"\n"@);
}

proof fn lemma_rule_text_lines(r: RuleView)
    ensures
        rule_text(r) == lines_text(rule_lines(r)),
{
    let l0 = "[[rules]]"@;
    let l1 = quoted_line("command"@, r.command);
    let l2 = quoted_line("decision"@, decision_word(r.decision));
    let head = seq![l0, l1, l2];
    let sl = opt_line("scope"@, r.scope);
    let jl = opt_line("justification"@, r.justification);
    let blank = seq![Seq::<char>::empty()];
    assert(rule_lines(r) =~= head + sl + jl + blank);
    lemma_lines_text_concat(head, sl);
    lemma_lines_text_concat(head + sl, jl);
    lemma_lines_text_concat(head + sl + jl, blank);
    lemma_head_text(r.command, decision_word(r.decision));
    lemma_lines_text_one(Seq::<char>::empty());
    assert(Seq::<char>::empty() + "\n"@ =~= "\n"@);
    lemma_opt_line("scope"@, r.scope);
    lemma_opt_line("justification"@, r.justification);
    lemma_text_literals();
    assert(match r.scope { Some(sc) => "scope = \""@ + sc + "\"\n"@, None => Seq::<char>::empty() }
        == lines_text(sl));
    assert(match r.justification { Some(j) => "justification = \""@ + j + "\"\n"@, None => Seq::<char>::empty() }
        == lines_text(jl));
}

proof fn lemma_policy_text_lines(rs: Seq<RuleView>)
    ensures
        policy_text(rs) == lines_text(all_rule_lines(rs)),
    decreases rs.len(),
{
    if rs.len() > 0 {
        lemma_policy_text_lines(rs.drop_last());
        lemma_rule_text_lines(rs.last());
        lemma_lines_text_concat(all_rule_lines(rs.drop_last()), rule_lines(rs.last()));
    }
}

/// Lines without newlines, none ending in `\r`.
pub open spec fn clean_lines(ls: Seq<Seq<char>>) -> bool {
    &&& forall|k: int, i: int| 0 <= k < ls.len() && 0 <= i < ls[k].len() ==> #[trigger] ls[k][i] != '\n'
    &&& forall|k: int| 0 <= k < ls.len() && (#[trigger] ls[k]).len() > 0 ==> ls[k].last() != '\r'
}

proof fn lemma_clean_concat(a: Seq<Seq<char>>, b: Seq<Seq<char>>)
    requires
        clean_lines(a),
        clean_lines(b),
    ensures
        clean_lines(a + b),
{
    let c = a + b;
    assert forall|k: int, i: int| 0 <= k < c.len() && 0 <= i < c[k].len() implies #[trigger] c[k][i] != '\n' by {
        if k < a.len() {
            assert(c[k] == a[k]);
            assert(a[k][i] != '\n');
        } else {
            assert(c[k] == b[k - a.len()]);
            assert(b[k - a.len()][i] != '\n');
        }
    }
    assert forall|k: int| 0 <= k < c.len() && (#[trigger] c[k]).len() > 0 implies c[k].last() != '\r' by {
        if k < a.len() {
            assert(c[k] == a[k]);
        } else {
            assert(c[k] == b[k - a.len()]);
        }
    }
}

proof fn lemma_clean_one(l: Seq<char>)
    requires
        forall|i: int| 0 <= i < l.len() ==> #[trigger] l[i] != '\n',
        l.len() > 0 ==> l.last() != '\r',
    ensures
        clean_lines(seq![l]),
{
    let s = seq![l];
    assert forall|k: int, i: int| 0 <= k < s.len() && 0 <= i < s[k].len() implies #[trigger] s[k][i] != '\n' by {
        assert(s[k] == l);
        assert(l[i] != '\n');
    }
}

proof fn lemma_quoted_clean(key: Seq<char>, v: Seq<char>)
    requires
        plain_key(key),
        value_stable(v),
    ensures
        clean_lines(seq![quoted_line(key, v)]),
{
    reveal_strlit(" = \"");
    reveal_strlit("\"");
    let line = quoted_line(key, v);
    let n = key.len() as int;
    assert forall|i: int| 0 <= i < line.len() implies #[trigger] line[i] != '\n' by {
        if i < n {
            assert(line[i] == key[i]);
            assert('a' <= key[i] <= 'z');
        } else if n + 4 <= i < n + 4 + v.len() {
            assert(line[i] == v[i - n - 4]);
        }
    }
    lemma_clean_one(line);
}

proof fn lemma_rule_lines_clean(r: RuleView)
    requires
        rule_stable(r),
    ensures
        clean_lines(rule_lines(r)),
{
    reveal_strlit("[[rules]]");
    lemma_keys_plain();
    lemma_decision_word(r.decision);
    let l0 = "[[rules]]"@;
    assert forall|i: int| 0 <= i < l0.len() implies #[trigger] l0[i] != '\n' by {
        assert(0 <= i < 9);
    }
    lemma_clean_one(l0);
    lemma_quoted_clean("command"@, r.command);
    lemma_quoted_clean("decision"@, decision_word(r.decision));
    lemma_clean_one(Seq::<char>::empty());
    let sl = opt_line("scope"@, r.scope);
    let jl = opt_line("justification"@, r.justification);
    match r.scope {
        Some(sc) => lemma_quoted_clean("scope"@, sc),
        None => {},
    }
    match r.justification {
        Some(j) => lemma_quoted_clean("justification"@, j),
        None => {},
    }
    let a = seq![l0];
    let b = seq![quoted_line("command"@, r.command)];
    let c = seq![quoted_line("decision"@, decision_word(r.decision))];
    lemma_clean_concat(a, b);
    lemma_clean_concat(a + b, c);
    assert(a + b + c =~= seq![l0, quoted_line("command"@, r.command), quoted_line("decision"@, decision_word(r.decision))]);
    lemma_clean_concat(a + b + c, sl);
    lemma_clean_concat(a + b + c + sl, jl);
    lemma_clean_concat(a + b + c + sl + jl, seq![Seq::<char>::empty()]);
    assert(rule_lines(r) =~= a + b + c + sl + jl + seq![Seq::<char>::empty()]);
}


proof fn lemma_all_lines_clean(rs: Seq<RuleView>)
    requires
        forall|i: int| 0 <= i < rs.len() ==> rule_stable(#[trigger] rs[i]),
    ensures
        clean_lines(all_rule_lines(rs)),
    decreases rs.len(),
{
    if rs.len() == 0 {
    } else {
        lemma_all_lines_clean(rs.drop_last());
        assert(rule_stable(rs[rs.len() - 1]));
        lemma_rule_lines_clean(rs.last());
        lemma_clean_concat(all_rule_lines(rs.drop_last()), rule_lines(rs.last()));
    }
}

proof fn lemma_scan_all(rs: Seq<RuleView>)
    requires
        forall|i: int| 0 <= i < rs.len() ==> rule_stable(#[trigger] rs[i]),
    ensures
        closed_rules(scan_from(scan_start(), all_rule_lines(rs))) == rs,
        rs.len() > 0 ==> scan_from(scan_start(), all_rule_lines(rs)) == reading(rs.drop_last(), rs.last()),
    decreases rs.len(),
{
    if rs.len() == 0 {
        assert(closed_rules(scan_start()) =~= rs);
    } else {
        let init = rs.drop_last();
        lemma_scan_all(init);
        assert(rule_stable(rs[rs.len() - 1]));
        lemma_scan_from_concat(scan_start(), all_rule_lines(init), rule_lines(rs.last()));
        lemma_scan_rule(scan_from(scan_start(), all_rule_lines(init)), rs.last());
        assert(init.push(rs.last()) =~= rs);
    }
}

/// Law: a policy written out as text (`ExecPolicy::to_text`, the text a
/// saved policy file holds) reads back (`ExecPolicy::parse`, what loading
/// that file does) as the same rules, with the same commands, decisions,
/// scopes and justifications, in order, provided every rule has a command
/// and each value is on one line and neither starts nor ends with a quote.
pub proof fn lemma_text_round_trip(rules: Seq<RuleView>)
    requires
        forall|i: int| 0 <= i < rules.len() ==> rule_stable(#[trigger] rules[i]),
    ensures
        parsed_rules(policy_text(rules)) == rules,
{
    let ls = all_rule_lines(rules);
    lemma_policy_text_lines(rules);
    lemma_all_lines_clean(rules);
    lemma_lines_round_trip(ls);
    lemma_scan_lines_from(ls, ls.len());
    assert(ls.subrange(0, ls.len() as int) =~= ls);
    lemma_scan_all(rules);
}

/// Law: a rule without a scope whose pattern, trimmed, is the first word of
/// a command applies to that command, whatever words follow; so `check`
/// decides at least as strictly as that rule (a `Forbidden` rule for `git`
/// forbids `git push`).
pub proof fn lemma_first_word_rule(r: RuleView, command: Seq<String>, ws: Option<Seq<char>>)
    requires
        command.len() > 0,
        r.scope is None,
        trim_ws(r.command) == command[0]@,
    ensures
        rule_applies(r, full_command(command), first_word(command), ws),
{
}

/// Law: the patterns a rule may have, and the commands each covers: `*`
/// covers every command, a pattern equal to the whole command or to its
/// first word covers it, `prefix *` covers the commands that start with
/// `prefix`, and `* suffix` those that end with `suffix`. A scope that is
/// not a `workspace:` scope does not restrict a rule; a `workspace:` scope
/// needs a workspace under its directory.
pub proof fn lemma_rule_patterns(r: RuleView, full: Seq<char>, first: Seq<char>, ws: Option<Seq<char>>, pre: Seq<char>, suf: Seq<char>)
    requires
        match r.scope {
            None => true,
            Some(sc) => !has_prefix(sc, "workspace:"@),
        },
    ensures
        trim_ws(r.command) == "*"@ ==> rule_applies(r, full, first, ws),
        trim_ws(r.command) == full ==> rule_applies(r, full, first, ws),
        trim_ws(r.command) == first ==> rule_applies(r, full, first, ws),
        trim_ws(r.command) == pre + " *"@ && has_prefix(full, pre) ==> rule_applies(r, full, first, ws),
        trim_ws(r.command) == "* "@ + suf && has_suffix(full, suf) ==> rule_applies(r, full, first, ws),
{
    reveal_strlit(" *");
    reveal_strlit("* ");
    let p = trim_ws(r.command);
    if p == pre + " *"@ {
        assert(p.subrange(0, p.len() - 2) =~= pre);
        assert(p.subrange(p.len() - 2, p.len() as int) =~= " *"@);
    }
    if p == "* "@ + suf {
        assert(p.subrange(2, p.len() as int) =~= suf);
        assert(p.subrange(0, 2) =~= "* "@);
    }
}

/// Law: a rule scoped to `workspace:dir` applies only with a workspace, and
/// then exactly when the workspace is under `dir` and the pattern covers
/// the command as it would without a scope.
pub proof fn lemma_workspace_scope(r: RuleView, full: Seq<char>, first: Seq<char>, ws: Option<Seq<char>>, dir: Seq<char>)
    requires
        r.scope == Some("workspace:"@ + dir),
    ensures
        rule_applies(r, full, first, ws) == (ws matches Some(w) && path_prefix(w, dir)
            && rule_applies(RuleView { scope: None, ..r }, full, first, ws)),
{
    reveal_strlit("workspace:");
    let sc = "workspace:"@ + dir;
    assert(sc.subrange(0, "workspace:"@.len() as int) =~= "workspace:"@);
    assert(sc.subrange("workspace:"@.len() as int, sc.len() as int) =~= dir);
}

/// Law: decisions rank from least to most restrictive as `Allow`, `Prompt`,
/// `Forbidden`; `check` keeps the most restrictive of the rules that apply.
pub proof fn lemma_decision_order()
    ensures
        rank(Decision::Allow) < rank(Decision::Prompt),
        rank(Decision::Prompt) < rank(Decision::Forbidden),
{
}

} // verus!
