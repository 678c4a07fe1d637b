//! Styling of unified diff text, line by line, for the diff pager.
use vstd::prelude::*;
use crate::text::{chars_of, has_prefix, starts_with};
use crate::ui::engine::vt::{Color, Line, Span, Style, plain_style};
use crate::ui::engine::widgets::{split_lines, text_lines};

verus! {

/// The style of a diff line, chosen by how it starts: hunk headers cyan and
/// bold, file headers blue, additions green, removals red, context plain and
/// anything else dim.
pub open spec fn diff_style(s: Seq<char>) -> Style {
    if has_prefix(s, "@@"@) {
        Style { fg: Some(Color::Cyan), bold: true, ..plain_style() }
    } else if has_prefix(s, "--- a/"@) || has_prefix(s, "+++ b/"@) {
        Style { fg: Some(Color::Blue), ..plain_style() }
    } else if has_prefix(s, "+"@) {
        Style { fg: Some(Color::Green), ..plain_style() }
    } else if has_prefix(s, "-"@) {
        Style { fg: Some(Color::Red), ..plain_style() }
    } else if has_prefix(s, " "@) {
        plain_style()
    } else {
        Style { dim: true, ..plain_style() }
    }
}

fn line_starts_with(v: &Vec<char>, p: &str) -> (b: bool)
    ensures
        b == has_prefix(v@, p@),
{
    let pv = chars_of(p);
    starts_with(v.as_slice(), pv.as_slice())
}

/// Styles one diff line (see `diff_style`).
pub fn style_diff_line<'a>(line: &str) -> (s: Span<'a>)
    ensures
        s.content@ == line@,
        s.style == diff_style(line@),
{
    let v = chars_of(line);
    let style = if line_starts_with(&v, "@@") {
        Style::new().fg(Color::Cyan).bold()
    } else if line_starts_with(&v, "--- a/") || line_starts_with(&v, "+++ b/") {
        Style::new().fg(Color::Blue)
    } else if line_starts_with(&v, "+") {
        Style::new().fg(Color::Green)
    } else if line_starts_with(&v, "-") {
        Style::new().fg(Color::Red)
    } else if line_starts_with(&v, " ") {
        Style::new()
    } else {
        Style::new().dim()
    };
    Span::styled(line, style)
}

/// One styled line per line of the diff text (as `str::lines` splits it).
pub fn diff_lines<'a>(diff_text: &str) -> (out: Vec<Line<'a>>)
    ensures
        out@.len() == text_lines(diff_text@).len(),
        forall|i: int| 0 <= i < out@.len() ==> {
            &&& (#[trigger] out@[i]).spans@.len() == 1
            &&& out@[i].spans@[0].content@ == text_lines(diff_text@)[i]
            &&& out@[i].spans@[0].style == diff_style(text_lines(diff_text@)[i])
        },
{
    let lines = split_lines(diff_text);
    let mut out: Vec<Line<'a>> = Vec::new();
    let mut i: usize = 0;
    while i < lines.len()
        invariant
            i <= lines@.len(),
            lines@.len() == text_lines(diff_text@).len(),
            forall|k: int| 0 <= k < lines@.len() ==> (#[trigger] lines@[k])@ == text_lines(diff_text@)[k],
            out@.len() == i,
            forall|k: int| 0 <= k < i ==> {
                &&& (#[trigger] out@[k]).spans@.len() == 1
                &&& out@[k].spans@[0].content@ == text_lines(diff_text@)[k]
                &&& out@[k].spans@[0].style == diff_style(text_lines(diff_text@)[k])
            },
        decreases lines@.len() - i,
    {
        let span = style_diff_line(lines[i].as_str());
        out.push(Line::from_span(span));
        i += 1;
    }
    out
}

} // verus!
