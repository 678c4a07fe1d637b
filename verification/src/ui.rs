//! The terminal UI: the engine, text measuring and wrapping, the pager and
//! file search, and the small text helpers of the chat view.
pub mod diff_render;
pub mod engine;
pub mod file_search;
pub mod line_truncation;
pub mod markdown;
pub mod live_wrap;
pub mod pager_overlay;
pub mod width;

use vstd::prelude::*;
use std::marker::PhantomData;
use crate::text::{chars_of, push_char, push_str, push_chars, string_of, push_decimal, push_decimal_padded,
    dec, dec_padded, utf8_len, utf8_prefix_len, lemma_utf8_prefix, first_newline, lemma_first_newline,
    lemma_first_newline_at};
use engine::vt::{Line, Span, Style, Color, plain_style};
use engine::widgets::{split_lines, text_lines, line_views, span_views};
use crate::textops::{trim_ws, trim_str, contains_seq, contains_str, range_eq_str};
use crate::ui::file_search::lowered;
use engine::layout::Alignment;
use engine::widgets::{Paragraph, Wrap, texts_fit, clamp_usize, wrapped_total, lemma_wrapped_total_same_texts};
use engine::vt::spans_text;
use width::{width_of, display_width, greedy_end, greedy_prefix, lemma_greedy};

verus! {

/// Which pane has the keyboard.
#[derive(PartialEq)]
pub enum Focus {
    Sidebar,
    Messages,
    Input,
    Editor,
}

/// How the agent works: iterating with tools, or planning first and then
/// executing the approved steps.
#[derive(PartialEq, Clone, Copy)]
pub enum AgentMode {
    Agent,
    Plan,
}

/// A model offered in the selector.
#[derive(Debug, Clone)]
pub struct ModelEntry {
    pub provider: String,
    pub name: String,
}

/// One entry of the to-do panel.
#[derive(Debug, Clone)]
pub struct TodoItem {
    pub text: String,
    pub done: bool,
}

/// A collapsible section of the info panel.
#[derive(Debug, Clone)]
pub struct InfoPanelSection {
    pub title: &'static str,
    pub open: bool,
    pub lines: Vec<Span<'static>>,
}

impl InfoPanelSection {
    /// A closed, empty section.
    pub fn new(title: &'static str) -> (s: Self)
        ensures
            s.title == title,
            !s.open,
            s.lines@.len() == 0,
    {
        InfoPanelSection { title, open: false, lines: Vec::new() }
    }

    /// A closed, empty section.
    pub fn closed(title: &'static str) -> (s: Self)
        ensures
            s.title == title,
            !s.open,
            s.lines@.len() == 0,
    {
        Self::new(title)
    }

    /// An open section holding `lines`.
    pub fn open(title: &'static str, lines: Vec<Span<'static>>) -> (s: Self)
        ensures
            s.title == title,
            s.open,
            s.lines@ == lines@,
    {
        InfoPanelSection { title, open: true, lines }
    }
}

/// Byte offset of the `char_index`-th scalar of `s`, or the byte length of
/// `s` when the index is at or past its end.
pub fn char_index_to_byte_index(s: &str, char_index: usize) -> (b: usize)
    requires
        utf8_len(s@) <= usize::MAX,
    ensures
        b == (if char_index < s@.len() { utf8_len(s@.subrange(0, char_index as int)) } else { utf8_len(s@) }),
{
    let v = chars_of(s);
    if char_index < v.len() {
        utf8_prefix_len(v.as_slice(), char_index)
    } else {
        assert(v@.subrange(0, v@.len() as int) =~= v@);
        utf8_prefix_len(v.as_slice(), v.len())
    }
}

/// The label of a chat role: `User` and `Assistant` for the two chat roles,
/// the role itself otherwise.
pub fn display_role(role: &str) -> (r: String)
    ensures
        r@ == (if role@ == "user"@ { "User"@ } else if role@ == "assistant"@ { "Assistant"@ } else { role@ }),
{
    let v = chars_of(role);
    if same_chars(&v, "user") {
        crate::text::owned("User")
    } else if same_chars(&v, "assistant") {
        crate::text::owned("Assistant")
    } else {
        crate::text::owned(role)
    }
}

fn same_chars(a: &Vec<char>, b: &str) -> (r: bool)
    ensures
        r == (a@ == b@),
{
    let bv = chars_of(b);
    if a.len() != bv.len() {
        return false;
    }
    let mut i: usize = 0;
    while i < a.len()
        invariant
            a@.len() == bv@.len(),
            bv@ == b@,
            i <= a@.len(),
            forall|k: int| 0 <= k < i ==> a@[k] == bv@[k],
        decreases a@.len() - i,
    {
        if a[i] != bv[i] {
            assert(a@[i as int] != bv@[i as int]);
            return false;
        }
        i += 1;
    }
    assert(a@ =~= bv@);
    true
}

/// Whether a scalar has the Unicode control category (`char::is_control`).
pub open spec fn is_control(c: char) -> bool {
    c <= '\u{1f}' || ('\u{7f}' <= c && c <= '\u{9f}')
}

/// Whether a scalar is an ASCII letter.
pub open spec fn is_ascii_letter(c: char) -> bool {
    ('a' <= c && c <= 'z') || ('A' <= c && c <= 'Z')
}

/// Where a control sequence whose parameters start at `i` ends: just after
/// its final letter, `~` or `@`, or at the end of the text.
pub open spec fn csi_end(s: Seq<char>, i: int) -> int
    decreases s.len() - i,
{
    if i < 0 || i >= s.len() {
        i
    } else if is_ascii_letter(s[i]) || s[i] == '~' || s[i] == '@' {
        i + 1
    } else {
        csi_end(s, i + 1)
    }
}

/// Where an operating-system command whose text starts at `i` ends: just
/// after a bell, or after an escape and backslash, or at the end of the text.
pub open spec fn osc_end(s: Seq<char>, i: int) -> int
    decreases s.len() - i,
{
    if i < 0 || i >= s.len() {
        i
    } else if s[i] == '\x07' {
        i + 1
    } else if s[i] == '\x1b' && i + 1 < s.len() && s[i + 1] == '\\' {
        i + 2
    } else {
        osc_end(s, i + 1)
    }
}

/// The text from `i` on with escape sequences removed, a carriage return
/// not followed by a newline turned into a newline (one followed by a
/// newline dropped), tabs turned into four spaces and other control
/// characters but newlines dropped.
pub open spec fn stripped(s: Seq<char>, i: int) -> Seq<char>
    decreases s.len() - i, 1int,
{
    if i < 0 || i >= s.len() {
        Seq::empty()
    } else {
        let c = s[i];
        if c == '\x1b' {
            if i + 1 < s.len() && s[i + 1] == '[' {
                stripped_after(s, i, csi_end(s, i + 2))
            } else if i + 1 < s.len() && s[i + 1] == ']' {
                stripped_after(s, i, osc_end(s, i + 2))
            } else if i + 1 < s.len() && (s[i + 1] == '(' || s[i + 1] == ')') {
                stripped_after(s, i, if i + 2 < s.len() { i + 3 } else { i + 2 })
            } else {
                stripped(s, i + 1)
            }
        } else if c == '\r' {
            (if i + 1 < s.len() && s[i + 1] == '\n' { Seq::empty() } else { seq!['\n'] }) + stripped(s, i + 1)
        } else if c == '\t' {
            seq![' ', ' ', ' ', ' '] + stripped(s, i + 1)
        } else if c == '\n' || !is_control(c) {
            seq![c] + stripped(s, i + 1)
        } else {
            stripped(s, i + 1)
        }
    }
}

/// `stripped` resumed at `j`, for a sequence that began at `i`.
pub open spec fn stripped_after(s: Seq<char>, i: int, j: int) -> Seq<char>
    decreases s.len() - i, 0int,
{
    if i < j <= s.len() { stripped(s, j) } else { Seq::empty() }
}

proof fn lemma_csi_end(s: Seq<char>, i: int)
    requires
        0 <= i <= s.len(),
    ensures
        i <= csi_end(s, i) <= s.len(),
    decreases s.len() - i,
{
    if i < s.len() && !(is_ascii_letter(s[i]) || s[i] == '~' || s[i] == '@') {
        lemma_csi_end(s, i + 1);
    }
}

proof fn lemma_osc_end(s: Seq<char>, i: int)
    requires
        0 <= i <= s.len(),
    ensures
        i <= osc_end(s, i) <= s.len(),
    decreases s.len() - i,
{
    if i < s.len() && s[i] != '\x07' && !(s[i] == '\x1b' && i + 1 < s.len() && s[i + 1] == '\\') {
        lemma_osc_end(s, i + 1);
    }
}

/// A style with the foreground color `c`.
pub open spec fn fg_style(c: Color) -> Style {
    Style { fg: Some(c), ..plain_style() }
}

/// A bold style with the foreground color `c`.
pub open spec fn bold_fg_style(c: Color) -> Style {
    Style { fg: Some(c), bold: true, ..plain_style() }
}

/// The icon of a tool message: a roll-up, a search, a read, an edit, a
/// command, a check, a running tool, or a command by default.
pub open spec fn tool_icon(content: Seq<char>) -> Seq<char> {
    if contains_seq(content, "tool use"@) {
        "↳ "@
    } else if contains_seq(content, "list_dir"@) || contains_seq(content, "search"@) || contains_seq(content, "grep"@) {
        "🔍 "@
    } else if contains_seq(content, "read"@) {
        "📖 "@
    } else if contains_seq(content, "write"@) || contains_seq(content, "replace"@) || contains_seq(content, "edit"@) {
        "✏️ "@
    } else if contains_seq(content, "run"@) || contains_seq(content, "exec"@) || contains_seq(content, "cargo"@)
        || contains_seq(content, "command"@) {
        "⚡ "@
    } else if contains_seq(content, "verify"@) || contains_seq(content, "test"@) {
        "🧪 "@
    } else if content.len() > 0 && content[0] == 'Δ' {
        "⏳ "@
    } else {
        "⚡ "@
    }
}

/// The icon, the icon's style and the text's style of a status message by
/// its role (ASCII letters lowered) and text.
pub open spec fn status_head(role: Seq<char>, content: Seq<char>) -> (Seq<char>, Style, Style) {
    let active = content.len() > 0 && content[0] == 'Δ';
    if role == "error"@ {
        ("✗ "@, bold_fg_style(Color::LightRed), fg_style(Color::LightRed))
    } else if role == "plan"@ {
        ("📋 "@, bold_fg_style(Color::LightMagenta), fg_style(Color::LightMagenta))
    } else if role == "thinking"@ {
        ("💭 "@, fg_style(Color::DarkGray), Style { italic: true, ..fg_style(Color::DarkGray) })
    } else if role == "tool"@ {
        (tool_icon(content), if active { bold_fg_style(Color::Cyan) } else { fg_style(Color::LightCyan) },
            if active { fg_style(Color::Cyan) } else { fg_style(Color::Gray) })
    } else if role == "file"@ {
        ("↳ "@, fg_style(Color::Cyan), fg_style(Color::Cyan))
    } else if role == "verify"@ {
        ("🧪 "@, fg_style(Color::LightYellow), fg_style(Color::Gray))
    } else if role == "approval"@ {
        ("✓ "@, bold_fg_style(Color::Green), fg_style(Color::Green))
    } else if (role == "info"@ || role == "system"@) && content.len() > 0 && content[0] == '✓' {
        (Seq::empty(), fg_style(Color::Green), fg_style(Color::Green))
    } else if (role == "info"@ || role == "system"@) && content.len() > 0 && content[0] == '✗' {
        (Seq::empty(), fg_style(Color::LightRed), fg_style(Color::LightRed))
    } else {
        (Seq::empty(), plain_style(), fg_style(Color::Gray))
    }
}

/// `n` spaces.
pub open spec fn spaces(n: nat) -> Seq<char> {
    Seq::new(n, |i: int| ' ')
}

/// The rows of a status message from its lines on: blank lines are skipped;
/// the first row starts with the icon (if any), later ones with spaces as
/// wide as it; an icon with no text row stands alone.
pub open spec fn status_rows(lines: Seq<Seq<char>>, icon: Seq<char>, icon_style: Style, text_style: Style,
    first: bool) -> Seq<Seq<(Seq<char>, Style)>>
    decreases lines.len(),
{
    if lines.len() == 0 {
        if first && icon.len() > 0 { seq![seq![(icon, icon_style)]] } else { Seq::empty() }
    } else if trim_ws(lines[0]).len() == 0 {
        status_rows(lines.drop_first(), icon, icon_style, text_style, first)
    } else {
        let lead = if first {
            if icon.len() > 0 { seq![(icon, icon_style)] } else { Seq::empty() }
        } else {
            seq![(spaces(width_of(icon)), plain_style())]
        };
        seq![lead + seq![(lines[0], text_style)]] + status_rows(lines.drop_first(), icon, icon_style, text_style, false)
    }
}

/// The rows of a compact status message (see `status_head` and `status_rows`),
/// its text cleaned of escape sequences and control characters first.
pub open spec fn status_lines_spec(role: Seq<char>, content: Seq<char>) -> Seq<Seq<(Seq<char>, Style)>> {
    let h = status_head(lowered(role), content);
    status_rows(text_lines(stripped(content, 0)), h.0, h.1, h.2, true)
}

fn tool_icon_exec(cv: &Vec<char>) -> (r: &'static str)
    ensures
        r@ == tool_icon(cv@),
        r@.len() <= 4,
{
    proof {
        reveal_strlit("↳ "); reveal_strlit("🔍 "); reveal_strlit("📖 "); reveal_strlit("✏️ ");
        reveal_strlit("⚡ "); reveal_strlit("🧪 "); reveal_strlit("⏳ ");
    }
    let c = cv.as_slice();
    if contains_str(c, "tool use") {
        "↳ "
    } else if contains_str(c, "list_dir") || contains_str(c, "search") || contains_str(c, "grep") {
        "🔍 "
    } else if contains_str(c, "read") {
        "📖 "
    } else if contains_str(c, "write") || contains_str(c, "replace") || contains_str(c, "edit") {
        "✏️ "
    } else if contains_str(c, "run") || contains_str(c, "exec") || contains_str(c, "cargo") || contains_str(c, "command") {
        "⚡ "
    } else if contains_str(c, "verify") || contains_str(c, "test") {
        "🧪 "
    } else if cv.len() > 0 && cv[0] == 'Δ' {
        "⏳ "
    } else {
        "⚡ "
    }
}

fn status_head_exec(role: &str, content: &str) -> (r: (&'static str, Style, Style))
    ensures
        (r.0@, r.1, r.2) == status_head(lowered(role@), content@),
        r.0@.len() <= 4,
{
    proof {
        reveal_strlit("✗ "); reveal_strlit("📋 "); reveal_strlit("💭 "); reveal_strlit("↳ ");
        reveal_strlit("🧪 "); reveal_strlit("✓ "); reveal_strlit("");
    }
    let rv = chars_of(role);
    let mut lv: Vec<char> = Vec::new();
    let mut i: usize = 0;
    while i < rv.len()
        invariant
            i <= rv@.len(),
            lv@ == lowered(rv@).subrange(0, i as int),
        decreases rv@.len() - i,
    {
        lv.push(crate::ui::file_search::to_ascii_lower(rv[i]));
        assert(lv@ =~= lowered(rv@).subrange(0, i + 1));
        i += 1;
    }
    assert(lv@ =~= lowered(role@));
    let n = lv.len();
    assert(lv@.subrange(0, n as int) =~= lv@);
    let l = lv.as_slice();
    let cv = chars_of(content);
    let active = cv.len() > 0 && cv[0] == 'Δ';
    let plain = Style::new();
    if range_eq_str(l, 0, n, "error") {
        ("✗ ", Style { fg: Some(Color::LightRed), bold: true, ..plain }, Style { fg: Some(Color::LightRed), ..plain })
    } else if range_eq_str(l, 0, n, "plan") {
        ("📋 ", Style { fg: Some(Color::LightMagenta), bold: true, ..plain }, Style { fg: Some(Color::LightMagenta), ..plain })
    } else if range_eq_str(l, 0, n, "thinking") {
        ("💭 ", Style { fg: Some(Color::DarkGray), ..plain }, Style { fg: Some(Color::DarkGray), italic: true, ..plain })
    } else if range_eq_str(l, 0, n, "tool") {
        let icon = tool_icon_exec(&cv);
        if active {
            (icon, Style { fg: Some(Color::Cyan), bold: true, ..plain }, Style { fg: Some(Color::Cyan), ..plain })
        } else {
            (icon, Style { fg: Some(Color::LightCyan), ..plain }, Style { fg: Some(Color::Gray), ..plain })
        }
    } else if range_eq_str(l, 0, n, "file") {
        ("↳ ", Style { fg: Some(Color::Cyan), ..plain }, Style { fg: Some(Color::Cyan), ..plain })
    } else if range_eq_str(l, 0, n, "verify") {
        ("🧪 ", Style { fg: Some(Color::LightYellow), ..plain }, Style { fg: Some(Color::Gray), ..plain })
    } else if range_eq_str(l, 0, n, "approval") {
        ("✓ ", Style { fg: Some(Color::Green), bold: true, ..plain }, Style { fg: Some(Color::Green), ..plain })
    } else if (range_eq_str(l, 0, n, "info") || range_eq_str(l, 0, n, "system")) && cv.len() > 0 && cv[0] == '✓' {
        ("", Style { fg: Some(Color::Green), ..plain }, Style { fg: Some(Color::Green), ..plain })
    } else if (range_eq_str(l, 0, n, "info") || range_eq_str(l, 0, n, "system")) && cv.len() > 0 && cv[0] == '✗' {
        ("", Style { fg: Some(Color::LightRed), ..plain }, Style { fg: Some(Color::LightRed), ..plain })
    } else {
        ("", plain, Style { fg: Some(Color::Gray), ..plain })
    }
}

/// The rows of a compact, subdued status message of a role (error, plan,
/// thinking, tool, file, verify, workspace, approval, info, system, ...)
/// (see `status_lines_spec`).
pub fn status_message_lines(role: &str, content: &str) -> (lines: Vec<Line<'static>>)
    ensures
        line_views(lines@) == status_lines_spec(role@, content@),
{
    let (icon, icon_style, text_style) = status_head_exec(role, content);
    let clean = strip_ansi_and_controls(content);
    let texts = split_lines(clean.as_str());
    let ghost ls = text_lines(clean@);
    let indent_w = display_width(icon);
    let mut out: Vec<Line<'static>> = Vec::new();
    let mut first = true;
    let mut i: usize = 0;
    let ghost target = status_rows(ls, icon@, icon_style, text_style, true);
    assert(ls.skip(0) =~= ls);
    assert(line_views(out@) + target =~= target);
    while i < texts.len()
        invariant
            i <= texts@.len(),
            texts@.len() == ls.len(),
            forall|k: int| 0 <= k < texts@.len() ==> (#[trigger] texts@[k])@ == ls[k],
            indent_w == width_of(icon@),
            line_views(out@) + status_rows(ls.skip(i as int), icon@, icon_style, text_style, first) == target,
        decreases texts@.len() - i,
    {
        proof {
            assert(ls.skip(i as int)[0] == ls[i as int]);
            assert(ls.skip(i as int).drop_first() =~= ls.skip(i + 1));
        }
        let t = trim_str(texts[i].as_str());
        if t.as_str().unicode_len() == 0 {
            i += 1;
            continue;
        }
        let mut spans: Vec<Span<'static>> = Vec::new();
        if first {
            if icon.unicode_len() > 0 {
                spans.push(Span::styled(icon, icon_style));
            }
        } else {
            let mut pad = String::new();
            let mut k: usize = 0;
            while k < indent_w
                invariant
                    k <= indent_w,
                    pad@ == spaces(k as nat),
                decreases indent_w - k,
            {
                push_char(&mut pad, ' ');
                assert(pad@ =~= spaces((k + 1) as nat));
                k += 1;
            }
            spans.push(Span::styled(pad, Style::new()));
        }
        let ghost lead = span_views(spans@);
        spans.push(Span::styled(texts[i].clone(), text_style));
        let l = Line::from_spans(spans);
        proof {
            assert(span_views(l.spans@) =~= lead + seq![(ls[i as int], text_style)]);
            if first {
                if icon@.len() > 0 {
                    assert(lead =~= seq![(icon@, icon_style)]);
                } else {
                    assert(lead =~= Seq::<(Seq<char>, Style)>::empty());
                }
            } else {
                assert(lead =~= seq![(spaces(width_of(icon@)), plain_style())]);
            }
        }
        let ghost before = out@;
        out.push(l);
        proof {
            assert(line_views(out@) =~= line_views(before).push(span_views(l.spans@)));
            let rest = status_rows(ls.skip(i + 1), icon@, icon_style, text_style, false);
            assert(line_views(before).push(span_views(l.spans@)) + rest
                =~= line_views(before) + (seq![span_views(l.spans@)] + rest));
        }
        first = false;
        i += 1;
    }
    if first && icon.unicode_len() > 0 {
        let mut spans: Vec<Span<'static>> = Vec::new();
        spans.push(Span::styled(icon, icon_style));
        let l = Line::from_spans(spans);
        let ghost before = out@;
        out.push(l);
        assert(span_views(l.spans@) =~= seq![(icon@, icon_style)]);
        assert(line_views(out@) =~= line_views(before).push(span_views(l.spans@)));
    }
    proof {
        assert(ls.skip(i as int).len() == 0);
        assert(line_views(out@) =~= target);
    }
    out
}

/// Removes escape sequences and control characters from text shown in the
/// transcript (see `stripped`).
pub fn strip_ansi_and_controls(input: &str) -> (out: String)
    ensures
        out@ == stripped(input@, 0),
{
    let v = chars_of(input);
    let n = v.len();
    let mut out = String::new();
    let mut i: usize = 0;
    while i < n
        invariant
            n == v@.len(),
            v@ == input@,
            i <= n,
            out@ + stripped(v@, i as int) == stripped(input@, 0),
        decreases n - i,
    {
        let ghost before = out@;
        let c = v[i];
        if c == '\x1b' {
            if i + 1 < n && v[i + 1] == '[' {
                let mut j = i + 2;
                proof { lemma_csi_end(v@, j as int); }
                while j < n && !(('a' <= v[j] && v[j] <= 'z') || ('A' <= v[j] && v[j] <= 'Z') || v[j] == '~' || v[j] == '@')
                    invariant
                        i + 2 <= j <= n,
                        n == v@.len(),
                        csi_end(v@, j as int) == csi_end(v@, i + 2),
                    decreases n - j,
                {
                    j += 1;
                }
                if j < n {
                    j += 1;
                }
                assert(j == csi_end(v@, i + 2));
                assert(stripped(v@, i as int) == stripped_after(v@, i as int, j as int));
                assert(stripped(v@, i as int) == stripped(v@, j as int));
                assert(out@ + stripped(v@, j as int) =~= before + stripped(v@, i as int));
                i = j;
            } else if i + 1 < n && v[i + 1] == ']' {
                let mut j = i + 2;
                proof { lemma_osc_end(v@, j as int); }
                let mut done = false;
                while j < n && !done
                    invariant
                        i + 2 <= j <= n,
                        n == v@.len(),
                        done ==> j == osc_end(v@, i + 2),
                        !done ==> osc_end(v@, j as int) == osc_end(v@, i + 2),
                    decreases n - j, if done { 0int } else { 1int },
                {
                    if v[j] == '\x07' {
                        j += 1;
                        done = true;
                    } else if v[j] == '\x1b' && j + 1 < n && v[j + 1] == '\\' {
                        j += 2;
                        done = true;
                    } else {
                        j += 1;
                    }
                }
                assert(j == osc_end(v@, i + 2));
                assert(stripped(v@, i as int) == stripped_after(v@, i as int, j as int));
                assert(stripped(v@, i as int) == stripped(v@, j as int));
                assert(out@ + stripped(v@, j as int) =~= before + stripped(v@, i as int));
                i = j;
            } else if i + 1 < n && (v[i + 1] == '(' || v[i + 1] == ')') {
                let j = if i + 2 < n { i + 3 } else { i + 2 };
                assert(stripped(v@, i as int) == stripped_after(v@, i as int, j as int));
                assert(out@ + stripped(v@, j as int) =~= before + stripped(v@, i as int));
                i = j;
            } else {
                i += 1;
            }
        } else if c == '\r' {
            if !(i + 1 < n && v[i + 1] == '\n') {
                push_char(&mut out, '\n');
                assert(out@ + stripped(v@, i + 1) =~= before + (seq!['\n'] + stripped(v@, i + 1)));
            } else {
                assert(out@ + stripped(v@, i + 1) =~= before + (Seq::<char>::empty() + stripped(v@, i + 1)));
            }
            i += 1;
        } else if c == '\t' {
            push_str(&mut out, "    ");
            proof { reveal_strlit("    "); }
            assert(out@ + stripped(v@, i + 1) =~= before + (seq![' ', ' ', ' ', ' '] + stripped(v@, i + 1)));
            i += 1;
        } else if c == '\n' || !(c <= '\u{1f}' || ('\u{7f}' <= c && c <= '\u{9f}')) {
            push_char(&mut out, c);
            assert(out@ + stripped(v@, i + 1) =~= before + (seq![c] + stripped(v@, i + 1)));
            i += 1;
        } else {
            i += 1;
        }
    }
    assert(out@ + stripped(v@, n as int) =~= out@);
    out
}

/// The text from `i` on with each run of spaces, tabs, newlines and
/// carriage returns turned into one space (`prev_ws`: a run is already open).
pub open spec fn squeezed(s: Seq<char>, i: int, prev_ws: bool) -> Seq<char>
    decreases s.len() - i,
{
    if i < 0 || i >= s.len() {
        Seq::empty()
    } else {
        let c = s[i];
        if c == '\n' || c == '\r' || c == '\t' || c == ' ' {
            (if prev_ws { Seq::empty() } else { seq![' '] }) + squeezed(s, i + 1, true)
        } else {
            seq![c] + squeezed(s, i + 1, false)
        }
    }
}

/// A status message on one line: each run of blanks and line breaks
/// becomes one space.
pub fn sanitize_status(s: &str) -> (out: String)
    ensures
        out@ == squeezed(s@, 0, false),
{
    let v = chars_of(s);
    let mut out = String::new();
    let mut prev_ws = false;
    let mut i: usize = 0;
    while i < v.len()
        invariant
            v@ == s@,
            i <= v@.len(),
            out@ + squeezed(v@, i as int, prev_ws) == squeezed(s@, 0, false),
        decreases v@.len() - i,
    {
        let ghost before = out@;
        let ch = v[i];
        if ch == '\n' || ch == '\r' || ch == '\t' || ch == ' ' {
            if !prev_ws {
                push_char(&mut out, ' ');
                assert(out@ + squeezed(v@, i + 1, true) =~= before + (seq![' '] + squeezed(v@, i + 1, true)));
            } else {
                assert(out@ + squeezed(v@, i + 1, true) =~= before + (Seq::<char>::empty() + squeezed(v@, i + 1, true)));
            }
            prev_ws = true;
        } else {
            push_char(&mut out, ch);
            assert(out@ + squeezed(v@, i + 1, false) =~= before + (seq![ch] + squeezed(v@, i + 1, false)));
            prev_ws = false;
        }
        i += 1;
    }
    assert(out@ + squeezed(v@, i as int, prev_ws) =~= out@);
    out
}

/// Elapsed time as `42s`, `2m 05s` or `2h 00m`.
pub open spec fn elapsed_text(s: nat) -> Seq<char> {
    if s < 60 {
        dec(s) + "s"@
    } else if s < 3600 {
        dec(s / 60) + "m "@ + dec_padded(s % 60, 2) + "s"@
    } else {
        dec(s / 3600) + "h "@ + dec_padded((s % 3600) / 60, 2) + "m"@
    }
}

/// Formats a number of elapsed seconds (see `elapsed_text`).
pub fn format_elapsed_secs(s: u64) -> (out: String)
    ensures
        out@ == elapsed_text(s as nat),
{
    let mut out = String::new();
    proof {
        reveal_strlit("s");
        reveal_strlit("m ");
        reveal_strlit("h ");
        reveal_strlit("m");
    }
    if s < 60 {
        push_decimal(&mut out, s);
        push_str(&mut out, "s");
    } else if s < 3600 {
        push_decimal(&mut out, s / 60);
        push_str(&mut out, "m ");
        push_decimal_padded(&mut out, s % 60, 2);
        push_str(&mut out, "s");
    } else {
        push_decimal(&mut out, s / 3600);
        push_str(&mut out, "h ");
        push_decimal_padded(&mut out, (s % 3600) / 60, 2);
        push_str(&mut out, "m");
    }
    out
}

/// The whole seconds of a duration (`Duration::as_secs`).
pub uninterp spec fn duration_secs(d: std::time::Duration) -> u64;

/// `Duration::as_secs`: the whole seconds of a duration, named `duration_secs`.
#[verifier::external_body]
fn whole_seconds(d: std::time::Duration) -> (r: u64)
    ensures
        r == duration_secs(d),
{
    d.as_secs()
}

/// Formats an elapsed duration by its whole seconds (see `elapsed_text`).
pub fn format_elapsed(d: std::time::Duration) -> (out: String)
    ensures
        out@ == elapsed_text(duration_secs(d) as nat),
{
    let s = whole_seconds(d);
    format_elapsed_secs(s)
}

/// Keeps the head of `s` within `max` columns, ending it with `…` when it is
/// wider (see `truncated_text`).
pub open spec fn truncated_text(s: Seq<char>, max: int) -> Seq<char> {
    if max == 0 || width_of(s) <= max {
        s
    } else {
        s.subrange(0, greedy_end(s, 0, 0, max - 1, false)) + seq!['…']
    }
}

/// Truncates text to at most `max` display columns on grapheme boundaries,
/// ending it with `…` on overflow; `max` zero leaves the text as it is.
pub fn truncate_str(s: &str, max: usize) -> (out: String)
    requires
        s@.len() <= usize::MAX / 2,
    ensures
        out@ == truncated_text(s@, max as int),
{
    if max == 0 || display_width(s) <= max {
        return crate::text::owned(s);
    }
    let v = chars_of(s);
    let (end, _) = greedy_prefix(v.as_slice(), 0, 0, max - 1, false);
    proof { lemma_greedy(v@, 0, 0, (max - 1) as int, false); }
    let mut out = string_of(v.as_slice(), 0, end);
    push_char(&mut out, '…');
    out
}

/// The tool name in a tool-call line: after `Δ `, up to the first `[` or
/// space; otherwise up to the first space; otherwise the whole line.
pub open spec fn tool_name(c: Seq<char>) -> Seq<char> {
    if c.len() >= 2 && c[0] == 'Δ' && c[1] == ' ' {
        let rest = c.subrange(2, c.len() as int);
        rest.subrange(0, first_of2(rest, '[', ' ', 0))
    } else {
        c.subrange(0, first_of2(c, ' ', ' ', 0))
    }
}

/// The first index at or after `i` holding `a` or `b`, or the length.
pub open spec fn first_of2(s: Seq<char>, a: char, b: char, i: int) -> int
    decreases s.len() - i,
{
    if i < 0 || i >= s.len() { s.len() as int } else if s[i] == a || s[i] == b { i } else { first_of2(s, a, b, i + 1) }
}

proof fn lemma_first_of2(s: Seq<char>, a: char, b: char, i: int)
    requires
        0 <= i <= s.len(),
    ensures
        i <= first_of2(s, a, b, i) <= s.len(),
    decreases s.len() - i,
{
    if i < s.len() && s[i] != a && s[i] != b {
        lemma_first_of2(s, a, b, i + 1);
    }
}

fn find_first_of2(v: &[char], from: usize, a: char, b: char) -> (r: usize)
    requires
        from <= v@.len(),
    ensures
        r == first_of2(v@, a, b, from as int),
{
    let mut i = from;
    while i < v.len() && v[i] != a && v[i] != b
        invariant
            from <= i <= v@.len(),
            first_of2(v@, a, b, i as int) == first_of2(v@, a, b, from as int),
        decreases v@.len() - i,
    {
        i += 1;
    }
    i
}

/// The tool name of a tool-call line (see `tool_name`).
pub fn extract_tool_name(content: &str) -> (name: String)
    ensures
        name@ == tool_name(content@),
{
    let v = chars_of(content);
    if v.len() >= 2 && v[0] == 'Δ' && v[1] == ' ' {
        let ghost rest = v@.subrange(2, v@.len() as int);
        let e = find_first_of2(v.as_slice(), 2, '[', ' ');
        proof {
            lemma_first_of2(v@, '[', ' ', 2);
            lemma_first_of2_shift(v@, '[', ' ', 2, 2);
            assert(rest.subrange(0, e - 2) =~= v@.subrange(2, e as int));
        }
        string_of(v.as_slice(), 2, e)
    } else {
        let e = find_first_of2(v.as_slice(), 0, ' ', ' ');
        proof { lemma_first_of2(v@, ' ', ' ', 0); }
        string_of(v.as_slice(), 0, e)
    }
}

proof fn lemma_first_of2_shift(s: Seq<char>, a: char, b: char, k: int, i: int)
    requires
        0 <= k <= i <= s.len(),
    ensures
        first_of2(s.subrange(k, s.len() as int), a, b, i - k) == first_of2(s, a, b, i) - k,
    decreases s.len() - i,
{
    if i < s.len() {
        assert(s.subrange(k, s.len() as int)[i - k] == s[i]);
        if s[i] != a && s[i] != b {
            lemma_first_of2_shift(s, a, b, k, i + 1);
        }
    }
}

/// The pieces of a text between its newlines (`str::split('\n')`).
pub open spec fn newline_pieces(s: Seq<char>) -> Seq<Seq<char>>
    decreases s.len(),
{
    let i = first_newline(s, 0);
    if 0 <= i < s.len() {
        seq![s.subrange(0, i)] + newline_pieces(s.subrange(i + 1, s.len() as int))
    } else {
        seq![s]
    }
}

/// The spans after splitting those holding newlines into one span per
/// piece, each keeping the span's style.
pub open spec fn expanded<'a>(spans: Seq<Span<'a>>) -> Seq<(Seq<char>, Style)>
    decreases spans.len(),
{
    if spans.len() == 0 {
        Seq::empty()
    } else {
        let s = spans[0];
        newline_pieces(s.content@).map_values(|p: Seq<char>| (p, s.style)) + expanded(spans.drop_first())
    }
}

/// Splits every span that holds newlines into one span per line, so that
/// each span of the result takes exactly one row (see `expanded`).
pub fn expand_multiline_spans(spans: Vec<Span<'static>>) -> (out: Vec<Span<'static>>)
    ensures
        out@.map_values(|s: Span<'static>| (s.content@, s.style)) == expanded(spans@),
{
    let mut out: Vec<Span<'static>> = Vec::new();
    let mut k: usize = 0;
    assert(spans@.subrange(0, spans@.len() as int) =~= spans@);
    assert(out@.map_values(|s: Span<'static>| (s.content@, s.style)) + expanded(spans@) =~= expanded(spans@));
    while k < spans.len()
        invariant
            k <= spans@.len(),
            out@.map_values(|s: Span<'static>| (s.content@, s.style)) + expanded(spans@.subrange(k as int, spans@.len() as int))
                == expanded(spans@),
        decreases spans@.len() - k,
    {
        let ghost tail = spans@.subrange(k as int, spans@.len() as int);
        proof {
            assert(tail.drop_first() =~= spans@.subrange(k + 1, spans@.len() as int));
            assert(tail[0] == spans@[k as int]);
        }
        let style = spans[k].style;
        let v = chars_of(spans[k].content.as_str());
        let n = v.len();
        let mut start: usize = 0;
        let mut i: usize = 0;
        let ghost before = out@.map_values(|s: Span<'static>| (s.content@, s.style));
        assert(v@.subrange(0, n as int) =~= v@);
        while i < n
            invariant
                k < spans@.len(),
                n == v@.len(),
                v@ == spans@[k as int].content@,
                style == spans@[k as int].style,
                start <= i <= n,
                forall|j: int| start <= j < i ==> v@[j] != '\n',
                out@.map_values(|s: Span<'static>| (s.content@, s.style))
                    + newline_pieces(v@.subrange(start as int, n as int)).map_values(|p: Seq<char>| (p, style))
                    == before + newline_pieces(v@).map_values(|p: Seq<char>| (p, style)),
            decreases n - i,
        {
            if v[i] == '\n' {
                let ghost rest = v@.subrange(start as int, n as int);
                let ghost m0 = out@.map_values(|s: Span<'static>| (s.content@, s.style));
                proof {
                    assert forall|j: int| 0 <= j < i - start implies rest[j] != '\n' by {
                        assert(rest[j] == v@[start + j]);
                    }
                    lemma_first_newline_at(rest, 0, i - start);
                    assert(rest.subrange(0, i - start) =~= v@.subrange(start as int, i as int));
                    assert(rest.subrange(i - start + 1, rest.len() as int) =~= v@.subrange(i + 1, n as int));
                }
                out.push(Span::styled(string_of(v.as_slice(), start, i), style));
                proof {
                    let piece = v@.subrange(start as int, i as int);
                    let later = newline_pieces(v@.subrange(i + 1, n as int));
                    assert(newline_pieces(rest) == seq![piece] + later);
                    assert(out@.map_values(|s: Span<'static>| (s.content@, s.style)) =~= m0.push((piece, style)));
                    assert((seq![piece] + later).map_values(|p: Seq<char>| (p, style))
                        =~= seq![(piece, style)] + later.map_values(|p: Seq<char>| (p, style)));
                    assert(m0.push((piece, style)) + later.map_values(|p: Seq<char>| (p, style))
                        =~= m0 + (seq![(piece, style)] + later.map_values(|p: Seq<char>| (p, style))));
                }
                start = i + 1;
            }
            i += 1;
        }
        let ghost rest = v@.subrange(start as int, n as int);
        let ghost m0 = out@.map_values(|s: Span<'static>| (s.content@, s.style));
        proof {
            lemma_first_newline_at(rest, 0, rest.len() as int);
            assert(newline_pieces(rest) == seq![rest]);
        }
        out.push(Span::styled(string_of(v.as_slice(), start, n), style));
        proof {
            assert(out@.map_values(|s: Span<'static>| (s.content@, s.style)) =~= m0.push((rest, style)));
            assert(seq![rest].map_values(|p: Seq<char>| (p, style)) =~= seq![(rest, style)]);
            assert(m0.push((rest, style)) =~= m0 + seq![(rest, style)]);
            assert(expanded(tail) == newline_pieces(v@).map_values(|p: Seq<char>| (p, style))
                + expanded(spans@.subrange(k + 1, spans@.len() as int)));
        }
        k += 1;
    }
    assert(spans@.subrange(k as int, spans@.len() as int) =~= Seq::<Span<'static>>::empty());
    out
}

/// The number of rows `lines` take once word-wrapped at `width` (trimming
/// leading blanks of wrapped rows); one per line at width zero.
pub fn count_wrapped_lines(lines: &[Line<'static>], width: usize) -> (n: usize)
    requires
        forall|i: int| 0 <= i < lines@.len() ==> (#[trigger] lines@[i]).spans@.len() < usize::MAX,
    ensures
        width == 0 ==> n == lines@.len(),
        n >= lines@.len(),
        (width as u16) == 0 ==> n == lines@.len(),
        (width as u16) > 0 && texts_fit(lines@)
            ==> n == clamp_usize(wrapped_total(lines@, (width as u16) as nat, true)),
{
    if width == 0 {
        return lines.len();
    }
    let mut copies: Vec<Line<'static>> = Vec::new();
    let mut i: usize = 0;
    while i < lines.len()
        invariant
            i <= lines@.len(),
            copies@.len() == i,
            forall|k: int| 0 <= k < lines@.len() ==> (#[trigger] lines@[k]).spans@.len() < usize::MAX,
            forall|k: int| 0 <= k < i ==> (#[trigger] copies@[k]).spans@.len() == lines@[k].spans@.len()
                && spans_text(copies@[k].spans@) == spans_text(lines@[k].spans@),
        decreases lines@.len() - i,
    {
        copies.push(lines[i].duplicate());
        i += 1;
    }
    let p = Paragraph {
        lines: copies,
        block: None,
        style: Style::new(),
        scroll: (0, 0),
        alignment: Alignment::Left,
        wrap: Some(Wrap { trim: true }),
        _marker: PhantomData,
    };
    #[verifier::truncate]
    let w = width as u16;
    proof {
        lemma_wrapped_total_same_texts(p.lines@, lines@, w as nat, true);
    }
    p.line_count(w)
}

} // verus!
