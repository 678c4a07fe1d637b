//! A terminal UI engine: styles and VT output, cell buffers, layouts,
//! widgets, events and terminals.
pub mod buffer;
pub mod event;
pub mod framebuffer;
pub mod layout;
pub mod sys;
pub mod terminal;
pub mod vt;
pub mod widgets;

use vstd::prelude::*;
use std::marker::PhantomData;
use vt::{Color, Line, Span, Style};
use widgets::{IntoParagraph, ParagraphContent, split_lines, text_lines, line_views};

verus! {

/// Shorthands that set colors and attributes.
pub trait Stylize: Sized {
    fn dim(self) -> Self;

    fn bold(self) -> Self;

    fn fg(self, color: Color) -> Self;

    fn bg(self, color: Color) -> Self;
}

impl Stylize for Style {
    fn dim(self) -> (s: Style)
        ensures
            s == (Style { dim: true, ..self }),
    {
        Style { dim: true, ..self }
    }

    fn bold(self) -> (s: Style)
        ensures
            s == (Style { bold: true, ..self }),
    {
        Style { bold: true, ..self }
    }

    fn fg(self, color: Color) -> (s: Style)
        ensures
            s == (Style { fg: Some(color), ..self }),
    {
        Style { fg: Some(color), ..self }
    }

    fn bg(self, color: Color) -> (s: Style)
        ensures
            s == (Style { bg: Some(color), ..self }),
    {
        Style { bg: Some(color), ..self }
    }
}

impl<'a> Stylize for Span<'a> {
    fn dim(self) -> (s: Span<'a>)
        ensures
            s.content == self.content,
            s.style == (Style { dim: true, ..self.style }),
    {
        Span { style: Style { dim: true, ..self.style }, ..self }
    }

    fn bold(self) -> (s: Span<'a>)
        ensures
            s.content == self.content,
            s.style == (Style { bold: true, ..self.style }),
    {
        Span { style: Style { bold: true, ..self.style }, ..self }
    }

    fn fg(self, color: Color) -> (s: Span<'a>)
        ensures
            s.content == self.content,
            s.style == (Style { fg: Some(color), ..self.style }),
    {
        Span { style: Style { fg: Some(color), ..self.style }, ..self }
    }

    fn bg(self, color: Color) -> (s: Span<'a>)
        ensures
            s.content == self.content,
            s.style == (Style { bg: Some(color), ..self.style }),
    {
        Span { style: Style { bg: Some(color), ..self.style }, ..self }
    }
}

/// Applies a style change to every span of a line.
fn restyle_line<'a>(line: Line<'a>, dim: bool, bold: bool, fg: Option<Color>, bg: Option<Color>) -> (l: Line<'a>)
    ensures
        l.spans@.len() == line.spans@.len(),
        forall|i: int| 0 <= i < l.spans@.len() ==> (#[trigger] l.spans@[i]).content == line.spans@[i].content
            && l.spans@[i].style == (Style {
                dim: line.spans@[i].style.dim || dim,
                bold: line.spans@[i].style.bold || bold,
                fg: if fg.is_some() { fg } else { line.spans@[i].style.fg },
                bg: if bg.is_some() { bg } else { line.spans@[i].style.bg },
                ..line.spans@[i].style
            }),
{
    let mut out: Vec<Span<'a>> = Vec::new();
    let mut spans = line.spans;
    let ghost orig = spans@;
    let mut i: usize = 0;
    let n = spans.len();
    while i < n
        invariant
            n == orig.len(),
            i <= n,
            spans@ == orig.subrange(i as int, n as int),
            out@.len() == i,
            forall|k: int| 0 <= k < i ==> (#[trigger] out@[k]).content == orig[k].content
                && out@[k].style == (Style {
                    dim: orig[k].style.dim || dim,
                    bold: orig[k].style.bold || bold,
                    fg: if fg.is_some() { fg } else { orig[k].style.fg },
                    bg: if bg.is_some() { bg } else { orig[k].style.bg },
                    ..orig[k].style
                }),
        decreases n - i,
    {
        let s = spans.remove(0);
        assert(orig.subrange(i as int, n as int).subrange(1, (n - i) as int) =~= orig.subrange(i + 1, n as int));
        let st = s.style;
        let style = Style {
            dim: st.dim || dim,
            bold: st.bold || bold,
            fg: if fg.is_some() { fg } else { st.fg },
            bg: if bg.is_some() { bg } else { st.bg },
            ..st
        };
        out.push(Span { style, ..s });
        i += 1;
    }
    Line { spans: out, _marker: PhantomData }
}

impl<'a> Stylize for Line<'a> {
    fn dim(self) -> (l: Line<'a>)
        ensures
            l.spans@.len() == self.spans@.len(),
            forall|i: int| 0 <= i < l.spans@.len() ==> (#[trigger] l.spans@[i]).content == self.spans@[i].content
                && l.spans@[i].style == (Style { dim: true, ..self.spans@[i].style }),
    {
        restyle_line(self, true, false, None, None)
    }

    fn bold(self) -> (l: Line<'a>)
        ensures
            l.spans@.len() == self.spans@.len(),
            forall|i: int| 0 <= i < l.spans@.len() ==> (#[trigger] l.spans@[i]).content == self.spans@[i].content
                && l.spans@[i].style == (Style { bold: true, ..self.spans@[i].style }),
    {
        restyle_line(self, false, true, None, None)
    }

    fn fg(self, color: Color) -> (l: Line<'a>)
        ensures
            l.spans@.len() == self.spans@.len(),
            forall|i: int| 0 <= i < l.spans@.len() ==> (#[trigger] l.spans@[i]).content == self.spans@[i].content
                && l.spans@[i].style == (Style { fg: Some(color), ..self.spans@[i].style }),
    {
        restyle_line(self, false, false, Some(color), None)
    }

    fn bg(self, color: Color) -> (l: Line<'a>)
        ensures
            l.spans@.len() == self.spans@.len(),
            forall|i: int| 0 <= i < l.spans@.len() ==> (#[trigger] l.spans@[i]).content == self.spans@[i].content
                && l.spans@[i].style == (Style { bg: Some(color), ..self.spans@[i].style }),
    {
        restyle_line(self, false, false, None, Some(color))
    }
}

/// Several lines of styled text.
#[derive(Debug)]
pub struct Text<'a> {
    pub lines: Vec<Line<'a>>,
    pub _marker: PhantomData<&'a ()>,
}

impl<'a> Text<'a> {
    /// One unstyled line per line of `content`.
    pub fn raw(content: &str) -> (t: Text<'a>)
        ensures
            t.lines@.len() == text_lines(content@).len(),
            forall|i: int| 0 <= i < t.lines@.len() ==> (#[trigger] t.lines@[i]).spans@.len() == 1
                && t.lines@[i].spans@[0].content@ == text_lines(content@)[i],
    {
        let texts = split_lines(content);
        let mut lines: Vec<Line<'a>> = Vec::new();
        let mut i: usize = 0;
        while i < texts.len()
            invariant
                texts@.len() == text_lines(content@).len(),
                forall|k: int| 0 <= k < texts@.len() ==> (#[trigger] texts@[k])@ == text_lines(content@)[k],
                i <= texts@.len(),
                lines@.len() == i,
                forall|k: int| 0 <= k < i ==> (#[trigger] lines@[k]).spans@.len() == 1
                    && lines@[k].spans@[0].content@ == text_lines(content@)[k],
            decreases texts@.len() - i,
        {
            lines.push(Line::from(texts[i].clone()));
            i += 1;
        }
        Text { lines, _marker: PhantomData }
    }
}

impl<'a> IntoParagraph<'a> for Text<'a> {
    open spec fn paragraph_views(&self) -> Seq<Seq<(Seq<char>, Style)>> {
        line_views(self.lines@)
    }

    fn into_paragraph(self) -> (c: ParagraphContent<'a>) {
        ParagraphContent { lines: self.lines, _marker: PhantomData }
    }
}

} // verus!
