//! Blocks, paragraphs, lists and the other widgets drawn into a buffer.
use vstd::prelude::*;
use std::marker::PhantomData;
use super::buffer::{Buffer, Cell, CellView, cell_index, styled_cell, written, fitting_chars};
use super::vt::Color;
use super::layout::{Alignment, Rect, sat_add16, sat_sub};
use super::vt::{Line, Span, Style, IntoContent, spans_text, plain_style};
use crate::text::{chars_of, is_ws, is_whitespace, push_char, owned, first_newline, lemma_first_newline, lemma_first_newline_at};
use vstd::string::StrSliceExecFns;

verus! {

/// Something that draws itself into an area of a buffer.
pub trait Widget: Sized {
    fn render(self, area: Rect, buf: &mut Buffer)
        requires
            old(buf).content@.len() > 0,
        ensures
            final(buf).area == old(buf).area,
            final(buf).content@.len() == old(buf).content@.len(),
    ;
}

/// A widget whose drawing reads and may update a state.
pub trait StatefulWidget: Sized {
    type State;

    fn render(self, area: Rect, buf: &mut Buffer, state: &mut Self::State)
        requires
            old(buf).content@.len() > 0,
        ensures
            final(buf).area == old(buf).area,
            final(buf).content@.len() == old(buf).content@.len(),
    ;
}

/// Which sides of a block carry a border, as bit flags.
#[derive(Clone, Copy, Debug, PartialEq, Eq, Structural)]
pub struct Borders(pub u8);

impl Borders {
    #[allow(non_snake_case)]
    pub fn NONE() -> (b: Borders)
        ensures
            b.0 == 0,
    {
        Borders(0)
    }

    #[allow(non_snake_case)]
    pub fn TOP() -> (b: Borders)
        ensures
            b.0 == 1,
    {
        Borders(1)
    }

    #[allow(non_snake_case)]
    pub fn RIGHT() -> (b: Borders)
        ensures
            b.0 == 2,
    {
        Borders(2)
    }

    #[allow(non_snake_case)]
    pub fn BOTTOM() -> (b: Borders)
        ensures
            b.0 == 4,
    {
        Borders(4)
    }

    #[allow(non_snake_case)]
    pub fn LEFT() -> (b: Borders)
        ensures
            b.0 == 8,
    {
        Borders(8)
    }

    #[allow(non_snake_case)]
    pub fn ALL() -> (b: Borders)
        ensures
            b.0 == 15,
    {
        Borders(15)
    }

    /// Whether every side of `other` is set.
    pub fn contains(&self, other: Borders) -> (b: bool)
        ensures
            b == (self.0 & other.0 == other.0),
    {
        (self.0 & other.0) == other.0
    }

    /// The union of two sets of sides.
    pub fn union(self, rhs: Borders) -> (b: Borders)
        ensures
            b.0 == self.0 | rhs.0,
    {
        Borders(self.0 | rhs.0)
    }

    /// Whether side flag `bit` is set.
    pub open spec fn has(self, bit: u8) -> bool {
        self.0 & bit == bit
    }
}

/// Values that can become a line.
pub trait IntoLine<'a> {
    spec fn line_text(&self) -> Seq<char>;

    fn into_line(self) -> (l: Line<'a>)
        ensures
            spans_text(l.spans@) == self.line_text(),
    ;
}

impl<'a> IntoLine<'a> for Line<'a> {
    open spec fn line_text(&self) -> Seq<char> { spans_text(self.spans@) }
    fn into_line(self) -> (l: Line<'a>) { self }
}

impl<'a> IntoLine<'a> for Span<'a> {
    open spec fn line_text(&self) -> Seq<char> { self.content@ }
    fn into_line(self) -> (l: Line<'a>) {
        let l = Line::from_span(self);
        proof { super::vt::lemma_spans_text_one(l.spans@); }
        l
    }
}

impl<'a> IntoLine<'a> for String {
    open spec fn line_text(&self) -> Seq<char> { self@ }
    fn into_line(self) -> (l: Line<'a>) {
        let l = Line::from(self);
        proof { super::vt::lemma_spans_text_one(l.spans@); }
        l
    }
}

impl<'a, 'b> IntoLine<'a> for &'b str {
    open spec fn line_text(&self) -> Seq<char> { (*self)@ }
    fn into_line(self) -> (l: Line<'a>) {
        let l = Line::from(self);
        proof { super::vt::lemma_spans_text_one(l.spans@); }
        l
    }
}

/// A frame with optional borders and title around an area.
#[derive(Debug)]
pub struct Block<'a> {
    pub title: Option<Line<'a>>,
    pub borders: Option<Borders>,
    pub style: Style,
    pub border_style: Style,
    pub _marker: PhantomData<&'a ()>,
}

/// The area inside the borders of a block.
pub open spec fn block_inner(borders: Option<Borders>, area: Rect) -> Rect {
    let b = match borders { Some(b) => b, None => Borders(0) };
    let x1 = if b.has(8) { sat_add16(area.x as int, 1) } else { area.x as int };
    let w1 = if b.has(8) { sat_sub(area.width as int, 1) } else { area.width as int };
    let w2 = if b.has(2) { sat_sub(w1, 1) } else { w1 };
    let y1 = if b.has(1) { sat_add16(area.y as int, 1) } else { area.y as int };
    let h1 = if b.has(1) { sat_sub(area.height as int, 1) } else { area.height as int };
    let h2 = if b.has(4) { sat_sub(h1, 1) } else { h1 };
    Rect { x: x1 as u16, y: y1 as u16, width: w2 as u16, height: h2 as u16 }
}

impl<'a> Block<'a> {
    /// A block with no border and no title.
    pub fn default() -> (b: Block<'a>)
        ensures
            b.title.is_none(),
            b.borders.is_none(),
            b.style == plain_style(),
            b.border_style == plain_style(),
    {
        Block { title: None, borders: None, style: Style::new(), border_style: Style::new(), _marker: PhantomData }
    }

    pub fn title<T: IntoLine<'a>>(self, title: T) -> (b: Block<'a>)
        ensures
            b.title matches Some(l) && spans_text(l.spans@) == title.line_text(),
            b.borders == self.borders,
            b.style == self.style,
            b.border_style == self.border_style,
    {
        Block { title: Some(title.into_line()), ..self }
    }

    pub fn borders(self, borders: Borders) -> (b: Block<'a>)
        ensures
            b.borders == Some(borders),
            b.title == self.title,
            b.style == self.style,
            b.border_style == self.border_style,
    {
        Block { borders: Some(borders), ..self }
    }

    pub fn style(self, style: Style) -> (b: Block<'a>)
        ensures
            b.style == style,
            b.title == self.title,
            b.borders == self.borders,
            b.border_style == self.border_style,
    {
        Block { style, ..self }
    }

    pub fn border_style(self, style: Style) -> (b: Block<'a>)
        ensures
            b.border_style == style,
            b.title == self.title,
            b.borders == self.borders,
            b.style == self.style,
    {
        Block { border_style: style, ..self }
    }

    /// The area left inside the borders (each present side takes one cell).
    pub fn inner(&self, area: Rect) -> (r: Rect)
        ensures
            r == block_inner(self.borders, area),
    {
        let borders = match self.borders { Some(b) => b, None => Borders(0) };
        let mut inner = area;
        if borders.contains(Borders(8)) {
            inner.x = inner.x.saturating_add(1);
            inner.width = inner.width.saturating_sub(1);
        }
        if borders.contains(Borders(2)) {
            inner.width = inner.width.saturating_sub(1);
        }
        if borders.contains(Borders(1)) {
            inner.y = inner.y.saturating_add(1);
            inner.height = inner.height.saturating_sub(1);
        }
        if borders.contains(Borders(4)) {
            inner.height = inner.height.saturating_sub(1);
        }
        inner
    }

    /// An independent copy of this block.
    pub fn duplicate(&self) -> (b: Block<'a>)
        ensures
            b.borders == self.borders,
            b.style == self.style,
            b.border_style == self.border_style,
            b.title.is_some() == self.title.is_some(),
            b.title matches Some(t) ==> self.title matches Some(u) && span_views(t.spans@) == span_views(u.spans@),
    {
        let title = match &self.title {
            Some(l) => {
                let d = l.duplicate();
                assert(span_views(d.spans@) =~= span_views(l.spans@));
                Some(d)
            },
            None => None,
        };
        Block { title, borders: self.borders, style: self.style, border_style: self.border_style, _marker: PhantomData }
    }
}

impl<'a> Clone for Block<'a> {
    fn clone(&self) -> Self {
        self.duplicate()
    }
}

/// The cells after drawing `ch` with `style` into cell `(x, y)` of a buffer over `barea`.
pub open spec fn put_cell(barea: Rect, content: Seq<CellView>, x: int, y: int, ch: char, style: Style) -> Seq<CellView> {
    let i = cell_index(barea, content.len(), x, y);
    content.update(i, styled_cell(CellView { symbol: seq![ch], ..content[i] }, style))
}

/// The cells after drawing `ch` into columns `x0..x1` of row `y`, left to right.
pub open spec fn hline(barea: Rect, content: Seq<CellView>, x0: int, x1: int, y: int, ch: char, style: Style) -> Seq<CellView>
    decreases x1 - x0,
{
    if x1 <= x0 {
        content
    } else {
        put_cell(barea, hline(barea, content, x0, x1 - 1, y, ch, style), x1 - 1, y, ch, style)
    }
}

/// The cells after drawing `ch` into rows `y0..y1` of column `x`, top to bottom.
pub open spec fn vline(barea: Rect, content: Seq<CellView>, y0: int, y1: int, x: int, ch: char, style: Style) -> Seq<CellView>
    decreases y1 - y0,
{
    if y1 <= y0 {
        content
    } else {
        put_cell(barea, vline(barea, content, y0, y1 - 1, x, ch, style), x, y1 - 1, ch, style)
    }
}

/// The text and style of each span.
pub open spec fn span_views<'a>(spans: Seq<Span<'a>>) -> Seq<(Seq<char>, Style)> {
    spans.map_values(|s: Span<'a>| (s.content@, s.style))
}

/// The cells after drawing spans from column `x` of row `y`: each span is
/// written (in `style_override` if given, else its own style) where the
/// previous one's characters ended, until the column reaches `stop_at`.
pub open spec fn drawn_spans(barea: Rect, content: Seq<CellView>, x: int, y: int, spans: Seq<(Seq<char>, Style)>,
    style_override: Option<Style>, stop_at: int) -> Seq<CellView>
    decreases spans.len(),
{
    if spans.len() == 0 || x >= stop_at {
        content
    } else {
        let text = spans[0].0;
        let style = match style_override { Some(s) => s, None => spans[0].1 };
        let next = written(barea, content, x, y, text, style, fitting_chars(barea, x, y, text.len()));
        drawn_spans(barea, next, sat_add16(x, (text.len() % 65536) as int), y, spans.drop_first(), style_override, stop_at)
    }
}

/// Draws `ch` styled into cell `(x, y)` of the buffer.
fn put(buf: &mut Buffer, x: u16, y: u16, ch: char, style: Style)
    requires
        old(buf).content@.len() > 0,
    ensures
        final(buf).area == old(buf).area,
        final(buf).content@.len() == old(buf).content@.len(),
        final(buf).cells() == put_cell(old(buf).area, old(buf).cells(), x as int, y as int, ch, style),
{
    let idx = buf.index_of(x, y);
    let mut cell = buf.content[idx].clone();
    cell.set_char(ch);
    cell.set_style(style);
    let ghost before = buf.cells();
    buf.content.set(idx, cell);
    assert(buf.cells() =~= before.update(idx as int, cell@));
}

/// Draws the spans of a line from `(x, y)`, each after the previous one's characters.
fn draw_spans(buf: &mut Buffer, x: u16, y: u16, spans: &Vec<Span>, style_override: Option<Style>, stop_at: u16)
    requires
        old(buf).content@.len() > 0,
    ensures
        final(buf).area == old(buf).area,
        final(buf).content@.len() == old(buf).content@.len(),
        final(buf).cells() == drawn_spans(old(buf).area, old(buf).cells(), x as int, y as int, span_views(spans@),
            style_override, stop_at as int),
{
    let mut cur_x = x;
    let mut i: usize = 0;
    let ghost views = span_views(spans@);
    let ghost target = drawn_spans(old(buf).area, old(buf).cells(), x as int, y as int, views, style_override, stop_at as int);
    assert(views.skip(0) =~= views);
    while i < spans.len()
        invariant
            buf.area == old(buf).area,
            buf.content@.len() == old(buf).content@.len(),
            old(buf).content@.len() > 0,
            i <= spans@.len(),
            views == span_views(spans@),
            target == drawn_spans(buf.area, buf.cells(), cur_x as int, y as int, views.skip(i as int), style_override, stop_at as int),
        ensures
            buf.area == old(buf).area,
            buf.content@.len() == old(buf).content@.len(),
            target == buf.cells(),
        decreases spans@.len() - i,
    {
        if cur_x >= stop_at {
            break;
        }
        let style = match style_override { Some(s) => s, None => spans[i].style };
        buf.set_string(cur_x, y, spans[i].content.as_str(), style);
        let n = char_count(spans[i].content.as_str());
        proof {
            assert(views.skip(i as int)[0] == views[i as int]);
            assert(views.skip(i as int).drop_first() =~= views.skip(i + 1));
        }
        cur_x = cur_x.saturating_add(n);
        i += 1;
    }
}

/// The number of characters of `s` as a `u16` (wrapping like `as u16`).
fn char_count(s: &str) -> (n: u16)
    ensures
        n == s@.len() % 65536,
{
    let v = chars_of(s);
    (v.len() % 65536) as u16
}

/// The cells after a block is drawn over `area` into a buffer over `barea`:
/// the top and bottom borders with `─`, then the left and right borders with
/// `│`, all in the border style, then the title from one cell right of the
/// top-left corner. An empty area draws nothing.
pub open spec fn block_drawn<'a>(b: Block<'a>, area: Rect, barea: Rect, content: Seq<CellView>) -> Seq<CellView> {
    if area.width == 0 || area.height == 0 {
        content
    } else {
        let borders = match b.borders { Some(x) => x, None => Borders(0) };
        let right = area.spec_right();
        let bottom = area.spec_bottom();
        let c1 = if borders.has(1) { hline(barea, content, area.x as int, right, area.y as int, '─', b.border_style) } else { content };
        let c2 = if borders.has(4) && area.height > 1 {
            hline(barea, c1, area.x as int, right, sat_sub(bottom, 1), '─', b.border_style)
        } else { c1 };
        let c3 = if borders.has(8) { vline(barea, c2, area.y as int, bottom, area.x as int, '│', b.border_style) } else { c2 };
        let c4 = if borders.has(2) && area.width > 1 {
            vline(barea, c3, area.y as int, bottom, sat_sub(right, 1), '│', b.border_style)
        } else { c3 };
        match b.title {
            Some(t) => drawn_spans(barea, c4, sat_add16(area.x as int, 1), area.y as int, span_views(t.spans@), None, u16::MAX as int),
            None => c4,
        }
    }
}

/// Draws `ch` into columns `from..to` of row `y`.
fn draw_hline(buf: &mut Buffer, from: u16, to: u16, y: u16, ch: char, style: Style)
    requires
        old(buf).content@.len() > 0,
    ensures
        final(buf).area == old(buf).area,
        final(buf).content@.len() == old(buf).content@.len(),
        final(buf).cells() == hline(old(buf).area, old(buf).cells(), from as int, to as int, y as int, ch, style),
{
    let mut x = from;
    if to <= from {
        return;
    }
    while x < to
        invariant
            buf.area == old(buf).area,
            buf.content@.len() == old(buf).content@.len(),
            old(buf).content@.len() > 0,
            from <= x <= to,
            buf.cells() == hline(buf.area, old(buf).cells(), from as int, x as int, y as int, ch, style),
        decreases to - x,
    {
        put(buf, x, y, ch, style);
        x = x + 1;
    }
}

/// Draws `ch` into rows `from..to` of column `x`.
fn draw_vline(buf: &mut Buffer, from: u16, to: u16, x: u16, ch: char, style: Style)
    requires
        old(buf).content@.len() > 0,
    ensures
        final(buf).area == old(buf).area,
        final(buf).content@.len() == old(buf).content@.len(),
        final(buf).cells() == vline(old(buf).area, old(buf).cells(), from as int, to as int, x as int, ch, style),
{
    let mut y = from;
    if to <= from {
        return;
    }
    while y < to
        invariant
            buf.area == old(buf).area,
            buf.content@.len() == old(buf).content@.len(),
            old(buf).content@.len() > 0,
            from <= y <= to,
            buf.cells() == vline(buf.area, old(buf).cells(), from as int, y as int, x as int, ch, style),
        decreases to - y,
    {
        put(buf, x, y, ch, style);
        y = y + 1;
    }
}

impl<'a> Widget for Block<'a> {
    /// Draws the borders with `─`/`│` in the border style, then the title
    /// from one cell right of the top-left corner.
    fn render(self, area: Rect, buf: &mut Buffer)
        ensures
            final(buf).cells() == block_drawn(self, area, old(buf).area, old(buf).cells()),
    {
        if area.is_empty() {
            return;
        }
        let borders = match self.borders { Some(b) => b, None => Borders(0) };
        let right = area.right();
        let bottom = area.bottom();
        if borders.contains(Borders(1)) {
            draw_hline(buf, area.x, right, area.y, '─', self.border_style);
        }
        if borders.contains(Borders(4)) && area.height > 1 {
            draw_hline(buf, area.x, right, bottom.saturating_sub(1), '─', self.border_style);
        }
        if borders.contains(Borders(8)) {
            draw_vline(buf, area.y, bottom, area.x, '│', self.border_style);
        }
        if borders.contains(Borders(2)) && area.width > 1 {
            draw_vline(buf, area.y, bottom, right.saturating_sub(1), '│', self.border_style);
        }
        match self.title {
            Some(title) => {
                draw_spans(buf, area.x.saturating_add(1), area.y, &title.spans, None, u16::MAX);
            },
            None => {},
        }
    }
}

/// Word wrapping options.
#[derive(Clone, Copy, Debug, PartialEq, Eq, Structural)]
pub struct Wrap {
    pub trim: bool,
}

impl Default for Wrap {
    fn default() -> (w: Wrap)
        ensures
            w == (Wrap { trim: false }),
    {
        Wrap { trim: false }
    }
}

/// The lines a paragraph can be made from.
pub struct ParagraphContent<'a> {
    pub lines: Vec<Line<'a>>,
    pub _marker: PhantomData<&'a ()>,
}

/// Values that can become paragraph content.
pub trait IntoParagraph<'a> {
    /// The text and style of each span of each line of the content.
    spec fn paragraph_views(&self) -> Seq<Seq<(Seq<char>, Style)>>;

    fn into_paragraph(self) -> (c: ParagraphContent<'a>)
        ensures
            line_views(c.lines@) == self.paragraph_views(),
    ;
}

/// Each text as a line of one unstyled span.
pub open spec fn plain_lines(texts: Seq<Seq<char>>) -> Seq<Seq<(Seq<char>, Style)>> {
    texts.map_values(|t: Seq<char>| seq![(t, plain_style())])
}

/// The lines of `s` as `str::lines` splits them: on `\n`, dropping a final empty
/// piece and one `\r` before each `\n`.
pub open spec fn text_lines(s: Seq<char>) -> Seq<Seq<char>>
    decreases s.len(),
{
    if s.len() == 0 {
        Seq::empty()
    } else {
        let i = first_newline(s, 0);
        proof { lemma_first_newline(s, 0); }
        if i == s.len() {
            seq![s]
        } else {
            let piece = s.subrange(0, i);
            let line = if piece.len() > 0 && piece.last() == '\r' { piece.drop_last() } else { piece };
            seq![line] + text_lines(s.subrange(i + 1, s.len() as int))
        }
    }
}

/// The lines of a text, as `str::lines` would yield them.
pub fn split_lines(text: &str) -> (lines: Vec<String>)
    ensures
        lines@.len() == text_lines(text@).len(),
        forall|i: int| 0 <= i < lines@.len() ==> (#[trigger] lines@[i])@ == text_lines(text@)[i],
{
    let v = chars_of(text);
    let mut lines: Vec<String> = Vec::new();
    let mut start: usize = 0;
    let ghost s = text@;
    assert(s.subrange(0, s.len() as int) =~= s);
    assert(lines@.map_values(|l: String| l@) =~= Seq::<Seq<char>>::empty());
    while start < v.len()
        invariant
            v@ == s,
            start <= v@.len(),
            text_lines(s) == lines@.map_values(|l: String| l@) + text_lines(s.subrange(start as int, s.len() as int)),
        decreases v@.len() - start,
    {
        let ghost rest = s.subrange(start as int, s.len() as int);
        let mut j = start;
        while j < v.len() && v[j] != '\n'
            invariant
                start <= j <= v@.len(),
                v@ == s,
                forall|k: int| start <= k < j ==> s[k] != '\n',
            decreases v@.len() - j,
        {
            j += 1;
        }
        proof {
            lemma_first_newline(rest, 0);
            assert(first_newline(rest, 0) == j - start) by {
                lemma_first_newline_at(rest, 0, j - start);
            }
        }
        let mut end = j;
        if end > start && v[end - 1] == '\r' && j < v.len() {
            end = end - 1;
        }
        let line = crate::text::string_of(v.as_slice(), start, end);
        let ghost before = lines@.map_values(|l: String| l@);
        lines.push(line);
        assert(lines@.map_values(|l: String| l@) =~= before.push(line@));
        if j == v.len() {
            assert(rest.subrange(0, j - start) =~= rest);
            assert(text_lines(rest) == seq![rest]);
            assert(s.subrange(v@.len() as int, s.len() as int) =~= Seq::<char>::empty());
            assert(text_lines(s) =~= lines@.map_values(|l: String| l@));
            start = j;
            assert(text_lines(s.subrange(start as int, s.len() as int)) =~= Seq::<Seq<char>>::empty());
            assert(text_lines(s) =~= lines@.map_values(|l: String| l@) + Seq::<Seq<char>>::empty());
        } else {
            assert(rest.subrange(0, j - start) =~= s.subrange(start as int, j as int));
            assert(rest.subrange(j - start + 1, rest.len() as int) =~= s.subrange(j + 1, s.len() as int));
            if end < j {
                assert(s.subrange(start as int, j as int).drop_last() =~= s.subrange(start as int, end as int));
            }
            assert(line@ == (if s.subrange(start as int, j as int).len() > 0 && s.subrange(start as int, j as int).last() == '\r' {
                s.subrange(start as int, j as int).drop_last() } else { s.subrange(start as int, j as int) }));
            start = j + 1;
            assert(text_lines(s) =~= lines@.map_values(|l: String| l@) + text_lines(s.subrange(start as int, s.len() as int)));
        }
    }
    assert(s.subrange(start as int, s.len() as int) =~= Seq::<char>::empty());
    assert(lines@.map_values(|l: String| l@) + Seq::<Seq<char>>::empty() =~= lines@.map_values(|l: String| l@));
    lines
}


/// The number of characters of a line's text.
pub open spec fn line_len<'a>(l: Line<'a>) -> nat {
    spans_text(l.spans@).len()
}

/// A run of whitespace or non-whitespace text, kept as styled parts.
struct Token<'a> {
    parts: Vec<Span<'a>>,
    len: usize,
    ws: bool,
}

/// A text with every character given the style `st`.
pub open spec fn with_style(t: Seq<char>, st: Style) -> Seq<(char, Style)> {
    t.map_values(|c: char| (c, st))
}

/// Each character of spans, paired with the style of its span.
pub open spec fn styled_chars<'a>(spans: Seq<Span<'a>>) -> Seq<(char, Style)>
    decreases spans.len(),
{
    if spans.len() == 0 {
        Seq::empty()
    } else {
        styled_chars(spans.drop_last()) + with_style(spans.last().content@, spans.last().style)
    }
}

proof fn lemma_styled_push<'a>(spans: Seq<Span<'a>>, s: Span<'a>)
    ensures
        styled_chars(spans.push(s)) == styled_chars(spans) + with_style(s.content@, s.style),
{
    assert(spans.push(s).drop_last() =~= spans);
}

proof fn lemma_styled_concat<'a>(a: Seq<Span<'a>>, b: Seq<Span<'a>>)
    ensures
        styled_chars(a + b) == styled_chars(a) + styled_chars(b),
    decreases b.len(),
{
    if b.len() == 0 {
        assert(a + b =~= a);
        assert(styled_chars(a) + styled_chars(b) =~= styled_chars(a));
    } else {
        lemma_styled_concat(a, b.drop_last());
        assert((a + b).drop_last() =~= a + b.drop_last());
        assert((a + b).last() == b.last());
        let z = with_style(b.last().content@, b.last().style);
        assert(styled_chars(a) + styled_chars(b.drop_last()) + z =~= styled_chars(a) + (styled_chars(b.drop_last()) + z));
    }
}

/// The styled characters of spans are their text's characters.
proof fn lemma_styled_text<'a>(s: Seq<Span<'a>>)
    ensures
        styled_chars(s).len() == spans_text(s).len(),
        forall|k: int| 0 <= k < styled_chars(s).len() ==> (#[trigger] styled_chars(s)[k]).0 == spans_text(s)[k],
    decreases s.len(),
{
    if s.len() > 0 {
        lemma_styled_text(s.drop_last());
        let a = styled_chars(s.drop_last());
        let w = with_style(s.last().content@, s.last().style);
        assert forall|k: int| 0 <= k < styled_chars(s).len() implies (#[trigger] styled_chars(s)[k]).0 == spans_text(s)[k] by {
            if k < a.len() {
                assert(styled_chars(s)[k] == a[k]);
                assert(spans_text(s)[k] == spans_text(s.drop_last())[k]);
            } else {
                assert(styled_chars(s)[k] == w[k - a.len()]);
                assert(spans_text(s)[k] == s.last().content@[k - a.len()]);
            }
        }
    }
}

/// Spans with the same texts and styles pair the same styled characters.
proof fn lemma_styled_views<'a>(a: Seq<Span<'a>>, b: Seq<Span<'a>>)
    requires
        span_views(a) == span_views(b),
    ensures
        styled_chars(a) == styled_chars(b),
    decreases a.len(),
{
    assert(a.len() == span_views(a).len());
    assert(b.len() == span_views(b).len());
    if a.len() > 0 {
        assert(span_views(a.drop_last()) =~= span_views(b.drop_last())) by {
            assert forall|k: int| 0 <= k < a.len() - 1 implies span_views(a.drop_last())[k] == span_views(b.drop_last())[k] by {
                assert(span_views(a)[k] == span_views(b)[k]);
            }
        }
        lemma_styled_views(a.drop_last(), b.drop_last());
        assert(span_views(a)[a.len() - 1] == span_views(b)[b.len() - 1]);
    }
}

/// The styled characters whose character is not whitespace, in order.
pub open spec fn non_ws_styled(s: Seq<(char, Style)>) -> Seq<(char, Style)>
    decreases s.len(),
{
    if s.len() == 0 {
        Seq::empty()
    } else {
        non_ws_styled(s.drop_last()) + (if is_ws(s.last().0) { Seq::<(char, Style)>::empty() } else { seq![s.last()] })
    }
}

proof fn lemma_non_ws_styled_concat(a: Seq<(char, Style)>, b: Seq<(char, Style)>)
    ensures
        non_ws_styled(a + b) == non_ws_styled(a) + non_ws_styled(b),
    decreases b.len(),
{
    if b.len() == 0 {
        assert(a + b =~= a);
        assert(non_ws_styled(a) + non_ws_styled(b) =~= non_ws_styled(a));
    } else {
        lemma_non_ws_styled_concat(a, b.drop_last());
        assert((a + b).drop_last() =~= a + b.drop_last());
        assert((a + b).last() == b.last());
        let tail = if is_ws(b.last().0) { Seq::<(char, Style)>::empty() } else { seq![b.last()] };
        assert(non_ws_styled(a) + non_ws_styled(b.drop_last()) + tail =~= non_ws_styled(a) + (non_ws_styled(b.drop_last()) + tail));
    }
}

proof fn lemma_non_ws_styled_blank(s: Seq<(char, Style)>)
    requires
        forall|k: int| 0 <= k < s.len() ==> is_ws(#[trigger] s[k].0),
    ensures
        non_ws_styled(s) == Seq::<(char, Style)>::empty(),
    decreases s.len(),
{
    if s.len() > 0 {
        assert forall|k: int| 0 <= k < s.drop_last().len() implies is_ws(#[trigger] s.drop_last()[k].0) by {
            assert(s.drop_last()[k] == s[k]);
        }
        lemma_non_ws_styled_blank(s.drop_last());
        assert(is_ws(s[s.len() - 1].0));
        assert(non_ws_styled(s) =~= Seq::<(char, Style)>::empty());
    }
}

/// A whitespace token's styled characters are all whitespace.
proof fn lemma_blank_token_styled<'a>(parts: Seq<Span<'a>>)
    requires
        uniform(spans_text(parts), true),
    ensures
        non_ws_styled(styled_chars(parts)) == Seq::<(char, Style)>::empty(),
{
    lemma_styled_text(parts);
    assert forall|k: int| 0 <= k < styled_chars(parts).len() implies is_ws(#[trigger] styled_chars(parts)[k].0) by {
        assert(is_ws(spans_text(parts)[k]));
    }
    lemma_non_ws_styled_blank(styled_chars(parts));
}

/// The styled characters of lines, one after the other.
pub open spec fn lines_styled<'a>(lines: Seq<Line<'a>>) -> Seq<(char, Style)>
    decreases lines.len(),
{
    if lines.len() == 0 {
        Seq::empty()
    } else {
        lines_styled(lines.drop_last()) + styled_chars(lines.last().spans@)
    }
}

proof fn lemma_lines_styled_push<'a>(lines: Seq<Line<'a>>, l: Line<'a>)
    ensures
        lines_styled(lines.push(l)) == lines_styled(lines) + styled_chars(l.spans@),
{
    assert(lines.push(l).drop_last() =~= lines);
}

/// The styled characters of tokens, one after the other.
spec fn tokens_styled<'a>(tokens: Seq<Token<'a>>) -> Seq<(char, Style)>
    decreases tokens.len(),
{
    if tokens.len() == 0 {
        Seq::empty()
    } else {
        tokens_styled(tokens.drop_last()) + styled_chars(tokens.last().parts@)
    }
}

proof fn lemma_tokens_styled_first<'a>(t: Seq<Token<'a>>)
    requires
        t.len() > 0,
    ensures
        tokens_styled(t) == styled_chars(t[0].parts@) + tokens_styled(t.drop_first()),
    decreases t.len(),
{
    if t.len() == 1 {
        assert(t.drop_last().len() == 0);
        assert(t.drop_first().len() == 0);
        assert(tokens_styled(t.drop_last()) == Seq::<(char, Style)>::empty());
        assert(tokens_styled(t.drop_first()) == Seq::<(char, Style)>::empty());
        assert(t.last() == t[0]);
        assert(tokens_styled(t) =~= styled_chars(t[0].parts@) + tokens_styled(t.drop_first()));
    } else {
        lemma_tokens_styled_first(t.drop_last());
        assert(t.drop_last().drop_first() =~= t.drop_first().drop_last());
        assert(t.drop_first().last() == t.last());
        assert(t.drop_last()[0] == t[0]);
        let x = tokens_styled(t.drop_first().drop_last());
        let a = styled_chars(t[0].parts@);
        let z = styled_chars(t.last().parts@);
        assert(tokens_styled(t.drop_first()) == x + z);
        assert(tokens_styled(t.drop_last()) == a + x);
        assert(tokens_styled(t) == (a + x) + z);
        assert((a + x) + z =~= a + (x + z));
    }
}

proof fn lemma_wrap_step_styled(e: Seq<(char, Style)>, e2: Seq<(char, Style)>, tt: Seq<(char, Style)>,
    rest: Seq<(char, Style)>, total: Seq<(char, Style)>)
    requires
        non_ws_styled(e) + non_ws_styled(tt + rest) == non_ws_styled(total),
        non_ws_styled(e2) == non_ws_styled(e) + non_ws_styled(tt),
    ensures
        non_ws_styled(e2) + non_ws_styled(rest) == non_ws_styled(total),
{
    lemma_non_ws_styled_concat(tt, rest);
    assert(non_ws_styled(e) + non_ws_styled(tt) + non_ws_styled(rest) =~= non_ws_styled(e) + (non_ws_styled(tt) + non_ws_styled(rest)));
}

/// Pushes a part onto a span list and returns its new character count.
fn push_part<'a>(parts: &mut Vec<Span<'a>>, part: Span<'a>)
    ensures
        final(parts)@ == old(parts)@.push(part),
        spans_text(final(parts)@) == spans_text(old(parts)@) + part.content@,
        styled_chars(final(parts)@) == styled_chars(old(parts)@) + with_style(part.content@, part.style),
{
    proof {
        super::vt::lemma_spans_text_push(parts@, part);
        lemma_styled_push(parts@, part);
    }
    parts.push(part);
}

/// Moves all spans of `src` to the end of `dst`.
fn extend_spans<'a>(dst: &mut Vec<Span<'a>>, src: Vec<Span<'a>>)
    ensures
        final(dst)@ == old(dst)@ + src@,
        spans_text(final(dst)@) == spans_text(old(dst)@) + spans_text(src@),
        styled_chars(final(dst)@) == styled_chars(old(dst)@) + styled_chars(src@),
{
    let mut src = src;
    proof {
        super::vt::lemma_spans_text_concat(dst@, src@);
        lemma_styled_concat(dst@, src@);
    }
    dst.append(&mut src);
}

/// The text of tokens, one after the other.
spec fn tokens_text<'a>(tokens: Seq<Token<'a>>) -> Seq<char>
    decreases tokens.len(),
{
    if tokens.len() == 0 {
        Seq::empty()
    } else {
        tokens_text(tokens.drop_last()) + spans_text(tokens.last().parts@)
    }
}

/// Every character of `text` is whitespace exactly when `ws` holds.
spec fn uniform(text: Seq<char>, ws: bool) -> bool {
    forall|k: int| 0 <= k < text.len() ==> is_ws(#[trigger] text[k]) == ws
}

/// The runs of a text: each longest stretch of whitespace, or of other
/// characters, as whether it is whitespace and its length, in order.
pub open spec fn ws_runs(s: Seq<char>) -> Seq<(bool, nat)>
    decreases s.len(),
{
    if s.len() == 0 {
        Seq::empty()
    } else {
        let r = ws_runs(s.drop_last());
        let w = is_ws(s.last());
        if r.len() > 0 && r.last().0 == w {
            r.update(r.len() - 1, (w, r.last().1 + 1))
        } else {
            r.push((w, 1))
        }
    }
}

/// `runs` with a stretch of `n` characters of kind `w` appended.
pub open spec fn runs_extend(r: Seq<(bool, nat)>, w: bool, n: nat) -> Seq<(bool, nat)> {
    if r.len() > 0 && r.last().0 == w {
        r.update(r.len() - 1, (w, r.last().1 + n))
    } else {
        r.push((w, n))
    }
}

proof fn lemma_runs_extend(s: Seq<char>, c: Seq<char>, w: bool)
    requires
        c.len() > 0,
        uniform(c, w),
    ensures
        ws_runs(s + c) == runs_extend(ws_runs(s), w, c.len()),
    decreases c.len(),
{
    let sc = s + c;
    assert(sc.last() == c.last());
    assert(is_ws(c[c.len() - 1]) == w);
    if c.len() == 1 {
        assert(sc.drop_last() =~= s);
    } else {
        let c1 = c.drop_last();
        assert forall|k: int| 0 <= k < c1.len() implies is_ws(#[trigger] c1[k]) == w by {
            assert(c1[k] == c[k]);
        }
        lemma_runs_extend(s, c1, w);
        assert(sc.drop_last() =~= s + c1);
        let r1 = ws_runs(s + c1);
        assert(r1.len() > 0 && r1.last().0 == w);
        assert(ws_runs(sc) =~= runs_extend(ws_runs(s), w, c.len()));
    }
}

/// The styled runs of a styled text: each longest stretch of whitespace, or
/// of other characters, with the styles of its characters, in order.
pub open spec fn styled_runs(s: Seq<(char, Style)>) -> Seq<Seq<(char, Style)>>
    decreases s.len(),
{
    if s.len() == 0 {
        Seq::empty()
    } else {
        let r = styled_runs(s.drop_last());
        let c = s.last();
        if r.len() > 0 && is_ws(r.last()[0].0) == is_ws(c.0) {
            r.update(r.len() - 1, r.last().push(c))
        } else {
            r.push(seq![c])
        }
    }
}

/// Styled runs `r` with a stretch `c` of characters of kind `w` appended.
pub open spec fn sruns_extend(r: Seq<Seq<(char, Style)>>, c: Seq<(char, Style)>, w: bool) -> Seq<Seq<(char, Style)>> {
    if r.len() > 0 && is_ws(r.last()[0].0) == w {
        r.update(r.len() - 1, r.last() + c)
    } else {
        r.push(c)
    }
}

proof fn lemma_sruns_extend(s: Seq<(char, Style)>, c: Seq<(char, Style)>, w: bool)
    requires
        c.len() > 0,
        forall|k: int| 0 <= k < c.len() ==> is_ws((#[trigger] c[k]).0) == w,
    ensures
        styled_runs(s + c) == sruns_extend(styled_runs(s), c, w),
    decreases c.len(),
{
    let sc = s + c;
    assert(sc.last() == c.last());
    assert(is_ws(c[c.len() - 1].0) == w);
    let r = styled_runs(s);
    if c.len() == 1 {
        assert(sc.drop_last() =~= s);
        assert(seq![c.last()] =~= c);
        if r.len() > 0 && is_ws(r.last()[0].0) == w {
            assert(r.last().push(c.last()) =~= r.last() + c);
        }
    } else {
        let c1 = c.drop_last();
        assert forall|k: int| 0 <= k < c1.len() implies is_ws((#[trigger] c1[k]).0) == w by {
            assert(c1[k] == c[k]);
        }
        lemma_sruns_extend(s, c1, w);
        assert(sc.drop_last() =~= s + c1);
        let r1 = styled_runs(s + c1);
        assert(is_ws(c1[0].0) == w);
        if r.len() > 0 && is_ws(r.last()[0].0) == w {
            assert(r1.last() == r.last() + c1);
            if r.last().len() > 0 {
                assert(r1.last()[0] == r.last()[0]);
            } else {
                assert(r1.last()[0] == c1[0]);
            }
            assert(r1.last().push(c.last()) =~= r.last() + c);
        } else {
            assert(r1.last() == c1);
            assert(r1.last().push(c.last()) =~= c);
        }
        assert(styled_runs(sc) =~= sruns_extend(r, c, w));
    }
}

/// The styled characters of each token.
spec fn token_sruns<'a>(tokens: Seq<Token<'a>>) -> Seq<Seq<(char, Style)>> {
    tokens.map_values(|t: Token<'a>| styled_chars(t.parts@))
}

/// The run (kind and length) of each token.
spec fn token_runs<'a>(tokens: Seq<Token<'a>>) -> Seq<(bool, nat)> {
    tokens.map_values(|t: Token<'a>| (t.ws, t.len as nat))
}

/// Splits the spans of a line into alternating whitespace and word tokens.
#[verifier::spinoff_prover]
#[verifier::rlimit(40)]
fn tokenize<'a>(line: &Line<'a>) -> (tokens: Vec<Token<'a>>)
    requires
        line.spans@.len() < usize::MAX,
    ensures
        tokens_text(tokens@) == spans_text(line.spans@),
        tokens_styled(tokens@) == styled_chars(line.spans@),
        forall|t: int| 0 <= t < tokens@.len() ==> (#[trigger] tokens@[t]).len == spans_text(tokens@[t].parts@).len()
            && tokens@[t].len > 0 && uniform(spans_text(tokens@[t].parts@), tokens@[t].ws),
        spans_text(line.spans@).len() < usize::MAX ==> token_runs(tokens@) == ws_runs(spans_text(line.spans@)),
        spans_text(line.spans@).len() < usize::MAX ==> token_sruns(tokens@) == styled_runs(styled_chars(line.spans@)),
{
    let mut tokens: Vec<Token<'a>> = Vec::new();
    let mut si: usize = 0;
    assert(line.spans@.take(0) =~= Seq::<Span<'a>>::empty());
    while si < line.spans.len()
        invariant
            si <= line.spans@.len(),
            tokens_text(tokens@) == spans_text(line.spans@.take(si as int)),
            tokens_styled(tokens@) == styled_chars(line.spans@.take(si as int)),
            forall|t: int| 0 <= t < tokens@.len() ==> (#[trigger] tokens@[t]).len == spans_text(tokens@[t].parts@).len()
                && tokens@[t].len > 0 && uniform(spans_text(tokens@[t].parts@), tokens@[t].ws),
            tokens_text(tokens@).len() < usize::MAX ==> token_runs(tokens@) == ws_runs(tokens_text(tokens@)),
            tokens_text(tokens@).len() < usize::MAX ==> token_sruns(tokens@) == styled_runs(tokens_styled(tokens@)),
        decreases line.spans@.len() - si,
    {
        let span = &line.spans[si];
        let chars = chars_of(span.content.as_str());
        let n = chars.len();
        let mut i: usize = 0;
        let ghost base = tokens_text(tokens@);
        let ghost sbase = tokens_styled(tokens@);
        let ghost st = span.style;
        assert(chars@.take(0) =~= Seq::<char>::empty());
        assert(base + chars@.take(0) =~= base);
        assert(sbase + with_style(chars@.take(0), st) =~= sbase);
        while i < n
            invariant
                n == chars@.len(),
                i <= n,
                st == span.style,
                tokens_text(tokens@) == base + chars@.take(i as int),
                tokens_styled(tokens@) == sbase + with_style(chars@.take(i as int), st),
                forall|t: int| 0 <= t < tokens@.len() ==> (#[trigger] tokens@[t]).len == spans_text(tokens@[t].parts@).len()
                    && tokens@[t].len > 0 && uniform(spans_text(tokens@[t].parts@), tokens@[t].ws),
                tokens_text(tokens@).len() < usize::MAX ==> token_runs(tokens@) == ws_runs(tokens_text(tokens@)),
                tokens_text(tokens@).len() < usize::MAX ==> token_sruns(tokens@) == styled_runs(tokens_styled(tokens@)),
            decreases n - i,
        {
            let ws_run = is_whitespace(chars[i]);
            let mut j: usize = i;
            while j < n && is_whitespace(chars[j]) == ws_run
                invariant
                    i <= j <= n,
                    n == chars@.len(),
                    forall|k: int| i <= k < j ==> is_ws(#[trigger] chars@[k]) == ws_run,
                decreases n - j,
            {
                j += 1;
            }
            if j == i {
                j = i + 1;
            }
            let chunk = crate::text::string_of(chars.as_slice(), i, j);
            let chunk_len = j - i;
            let part = Span::styled(chunk, span.style);
            assert(uniform(part.content@, ws_run));
            assert(chars@.take(j as int) =~= chars@.take(i as int) + part.content@);
            assert(with_style(chars@.take(j as int), st) =~= with_style(chars@.take(i as int), st) + with_style(part.content@, part.style));
            let tl = tokens.len();
            let ghost before = tokens@;
            proof {
                if tokens_text(before).len() + part.content@.len() < usize::MAX {
                    lemma_runs_extend(tokens_text(before), part.content@, ws_run);
                    assert forall|k: int| 0 <= k < with_style(part.content@, part.style).len() implies
                        is_ws((#[trigger] with_style(part.content@, part.style)[k]).0) == ws_run by {
                        assert(with_style(part.content@, part.style)[k].0 == part.content@[k]);
                    }
                    lemma_sruns_extend(tokens_styled(before), with_style(part.content@, part.style), ws_run);
                }
                if before.len() > 0 {
                    lemma_styled_text(before.last().parts@);
                    assert(styled_chars(before.last().parts@)[0].0 == spans_text(before.last().parts@)[0]);
                    assert(token_sruns(before).last() == styled_chars(before.last().parts@));
                    assert(tokens_text(before) == tokens_text(before.drop_last()) + spans_text(before.last().parts@));
                    assert(before.last().len <= tokens_text(before).len());
                    assert(token_runs(before).last() == (before.last().ws, before.last().len as nat));
                }
            }
            if tl > 0 && tokens[tl - 1].ws == ws_run && tokens[tl - 1].len < usize::MAX - chunk_len {
                let mut last = tokens.pop().unwrap();
                let ghost old_text = spans_text(last.parts@);
                let ghost old_styled = styled_chars(last.parts@);
                push_part(&mut last.parts, part);
                last.len = last.len + chunk_len;
                tokens.push(last);
                proof {
                    assert(tokens@.drop_last() =~= before.drop_last());
                    assert(tokens_text(tokens@) =~= tokens_text(before.drop_last()) + (old_text + part.content@));
                    assert(tokens_text(before) == tokens_text(before.drop_last()) + old_text);
                    assert(tokens_text(tokens@) =~= tokens_text(before) + part.content@);
                    assert(tokens_styled(tokens@) =~= tokens_styled(before.drop_last()) + (old_styled + with_style(part.content@, part.style)));
                    assert(tokens_styled(before) == tokens_styled(before.drop_last()) + old_styled);
                    assert(tokens_styled(tokens@) =~= tokens_styled(before) + with_style(part.content@, part.style));
                    if tokens_text(tokens@).len() < usize::MAX {
                        assert(token_runs(tokens@) =~= runs_extend(token_runs(before), ws_run, part.content@.len()));
                        assert(token_sruns(tokens@) =~= sruns_extend(token_sruns(before), with_style(part.content@, part.style), ws_run));
                    }
                    assert(uniform(spans_text(last.parts@), ws_run)) by {
                        assert(uniform(old_text, ws_run));
                        assert forall|k: int| 0 <= k < spans_text(last.parts@).len() implies
                            is_ws(#[trigger] spans_text(last.parts@)[k]) == ws_run by {
                            if k >= old_text.len() {
                                assert(spans_text(last.parts@)[k] == part.content@[k - old_text.len()]);
                            } else {
                                assert(spans_text(last.parts@)[k] == old_text[k]);
                            }
                        }
                    }
                    assert forall|t: int| 0 <= t < tokens@.len() implies (#[trigger] tokens@[t]).len == spans_text(tokens@[t].parts@).len()
                        && tokens@[t].len > 0 && uniform(spans_text(tokens@[t].parts@), tokens@[t].ws) by {
                        if t < tokens@.len() - 1 {
                            assert(tokens@[t] == before[t]);
                        }
                    }
                }
            } else {
                let mut parts = Vec::new();
                push_part(&mut parts, part);
                assert(spans_text(Seq::<Span<'a>>::empty()) =~= Seq::<char>::empty());
                assert(spans_text(parts@) =~= part.content@);
                assert(styled_chars(Seq::<Span<'a>>::empty()) =~= Seq::<(char, Style)>::empty());
                assert(styled_chars(parts@) =~= with_style(part.content@, part.style));
                tokens.push(Token { parts, len: chunk_len, ws: ws_run });
                proof {
                    assert(tokens@.drop_last() =~= before);
                    assert(tokens_text(tokens@) == tokens_text(before) + part.content@);
                    assert(tokens_styled(tokens@) == tokens_styled(before) + with_style(part.content@, part.style));
                    if tokens_text(tokens@).len() < usize::MAX {
                        assert(token_runs(tokens@) =~= runs_extend(token_runs(before), ws_run, part.content@.len()));
                        assert(token_sruns(tokens@) =~= sruns_extend(token_sruns(before), with_style(part.content@, part.style), ws_run));
                    }
                    assert forall|t: int| 0 <= t < tokens@.len() implies (#[trigger] tokens@[t]).len == spans_text(tokens@[t].parts@).len()
                        && tokens@[t].len > 0 && uniform(spans_text(tokens@[t].parts@), tokens@[t].ws) by {
                        if t < tokens@.len() - 1 {
                            assert(tokens@[t] == before[t]);
                        }
                    }
                }
            }
            assert(tokens_text(tokens@) =~= base + chars@.take(j as int));
            assert(tokens_styled(tokens@) =~= sbase + with_style(chars@.take(j as int), st));
            i = j;
        }
        proof {
            assert(chars@.take(n as int) =~= chars@);
            assert(line.spans@.take(si + 1).drop_last() =~= line.spans@.take(si as int));
            assert(line.spans@.take(si + 1).last() == line.spans@[si as int]);
            assert(with_style(chars@.take(n as int), st) == with_style(line.spans@[si as int].content@, line.spans@[si as int].style));
        }
        si += 1;
    }
    assert(line.spans@.take(line.spans@.len() as int) =~= line.spans@);
    tokens
}

/// The characters of `s` that are not whitespace, in order.
pub open spec fn non_ws(s: Seq<char>) -> Seq<char>
    decreases s.len(),
{
    if s.len() == 0 {
        Seq::empty()
    } else {
        non_ws(s.drop_last()) + (if is_ws(s.last()) { Seq::<char>::empty() } else { seq![s.last()] })
    }
}

/// The texts of lines, one after the other.
pub open spec fn lines_text<'a>(lines: Seq<Line<'a>>) -> Seq<char>
    decreases lines.len(),
{
    if lines.len() == 0 {
        Seq::empty()
    } else {
        lines_text(lines.drop_last()) + spans_text(lines.last().spans@)
    }
}

proof fn lemma_non_ws_concat(a: Seq<char>, b: Seq<char>)
    ensures
        non_ws(a + b) == non_ws(a) + non_ws(b),
    decreases b.len(),
{
    if b.len() == 0 {
        assert(a + b =~= a);
        assert(non_ws(a) + non_ws(b) =~= non_ws(a));
    } else {
        lemma_non_ws_concat(a, b.drop_last());
        assert((a + b).drop_last() =~= a + b.drop_last());
        assert((a + b).last() == b.last());
        let tail = if is_ws(b.last()) { Seq::<char>::empty() } else { seq![b.last()] };
        assert(non_ws(a) + non_ws(b.drop_last()) + tail =~= non_ws(a) + (non_ws(b.drop_last()) + tail));
    }
}

proof fn lemma_non_ws_blank(s: Seq<char>)
    requires
        uniform(s, true),
    ensures
        non_ws(s) == Seq::<char>::empty(),
    decreases s.len(),
{
    if s.len() > 0 {
        assert(uniform(s.drop_last(), true)) by {
            assert forall|k: int| 0 <= k < s.drop_last().len() implies is_ws(#[trigger] s.drop_last()[k]) == true by {
                assert(s.drop_last()[k] == s[k]);
            }
        }
        lemma_non_ws_blank(s.drop_last());
        assert(is_ws(s[s.len() - 1]));
        assert(non_ws(s) =~= Seq::<char>::empty());
    }
}

proof fn lemma_tokens_text_first<'a>(t: Seq<Token<'a>>)
    requires
        t.len() > 0,
    ensures
        tokens_text(t) == spans_text(t[0].parts@) + tokens_text(t.drop_first()),
    decreases t.len(),
{
    if t.len() == 1 {
        assert(t.drop_last().len() == 0);
        assert(t.drop_first().len() == 0);
        assert(tokens_text(t.drop_last()) == Seq::<char>::empty());
        assert(tokens_text(t.drop_first()) == Seq::<char>::empty());
        assert(t.last() == t[0]);
        assert(tokens_text(t) =~= spans_text(t[0].parts@) + tokens_text(t.drop_first()));
    } else {
        lemma_tokens_text_first(t.drop_last());
        assert(t.drop_last().drop_first() =~= t.drop_first().drop_last());
        assert(t.drop_first().last() == t.last());
        assert(t.drop_last()[0] == t[0]);
        let x = tokens_text(t.drop_first().drop_last());
        let a = spans_text(t[0].parts@);
        let z = spans_text(t.last().parts@);
        assert(tokens_text(t.drop_first()) == x + z);
        assert(tokens_text(t.drop_last()) == a + x);
        assert(tokens_text(t) == (a + x) + z);
        assert((a + x) + z =~= a + (x + z));
    }
}

proof fn lemma_lines_text_push<'a>(lines: Seq<Line<'a>>, l: Line<'a>)
    ensures
        lines_text(lines.push(l)) == lines_text(lines) + spans_text(l.spans@),
{
    assert(lines.push(l).drop_last() =~= lines);
}

/// One token taken off the front: what was emitted grew by `grown`, whose
/// non-whitespace characters are those of the token.
proof fn lemma_wrap_step(e: Seq<char>, e2: Seq<char>, tt: Seq<char>, rest: Seq<char>, total: Seq<char>)
    requires
        non_ws(e) + non_ws(tt + rest) == non_ws(total),
        non_ws(e2) == non_ws(e) + non_ws(tt),
    ensures
        non_ws(e2) + non_ws(rest) == non_ws(total),
{
    lemma_non_ws_concat(tt, rest);
    assert(non_ws(e) + non_ws(tt) + non_ws(rest) =~= non_ws(e) + (non_ws(tt) + non_ws(rest)));
}

/// Wrapping state `(rows done, width of the row being filled)` after one
/// more run of `len` characters (whitespace when `ws`) at width `max`: a run
/// that fits joins the row; whitespace that does not fit ends the row (and,
/// with `trim`, is skipped at the start of a row); a word that does not fit
/// starts a new row, cut into rows of `max` characters when longer than that.
pub open spec fn wrap_step(st: (nat, nat), run: (bool, nat), max: nat, trim: bool) -> (nat, nat) {
    let c = st.0;
    let w = st.1;
    let len = run.1;
    if run.0 {
        if trim && w == 0 {
            st
        } else if w + len <= max {
            (c, w + len)
        } else {
            (c + 1, 0)
        }
    } else if w + len <= max {
        (c, w + len)
    } else {
        let c1: nat = if w > 0 { c + 1 } else { c };
        if len <= max {
            (c1, len)
        } else {
            (c1 + len / max, len % max)
        }
    }
}

/// The wrapping state after the runs `runs`, one after the other.
pub open spec fn wrap_fold(runs: Seq<(bool, nat)>, max: nat, trim: bool) -> (nat, nat)
    decreases runs.len(),
{
    if runs.len() == 0 {
        (0, 0)
    } else {
        wrap_step(wrap_fold(runs.drop_last(), max, trim), runs.last(), max, trim)
    }
}

/// The number of rows a text wraps into at width `max`: the rows ended,
/// and the last one if it holds something or nothing else came out.
pub open spec fn wrap_rows(text: Seq<char>, max: nat, trim: bool) -> nat {
    let st = wrap_fold(ws_runs(text), max, trim);
    if st.1 > 0 || st.0 == 0 { st.0 + 1 } else { st.0 }
}

/// Cuts a word into rows, character by character: each character joins the
/// row being filled, and a row that reaches `max` characters is done.
pub open spec fn cut_chars(
    st: (Seq<Seq<(char, Style)>>, Seq<(char, Style)>),
    cs: Seq<(char, Style)>,
    max: nat,
) -> (Seq<Seq<(char, Style)>>, Seq<(char, Style)>)
    decreases cs.len(),
{
    if cs.len() == 0 {
        st
    } else {
        let p = cut_chars(st, cs.drop_last(), max);
        let cur = p.1.push(cs.last());
        if cur.len() == max {
            (p.0.push(cur), Seq::empty())
        } else {
            (p.0, cur)
        }
    }
}

/// Rows done and the row being filled, as styled characters, after one more
/// styled run at width `max` (the same decisions as `wrap_step`).
pub open spec fn wrap_step_styled(
    st: (Seq<Seq<(char, Style)>>, Seq<(char, Style)>),
    run: Seq<(char, Style)>,
    max: nat,
    trim: bool,
) -> (Seq<Seq<(char, Style)>>, Seq<(char, Style)>) {
    let w = st.1.len();
    let len = run.len();
    if is_ws(run[0].0) {
        if trim && w == 0 {
            st
        } else if w + len <= max {
            (st.0, st.1 + run)
        } else {
            (st.0.push(st.1), Seq::empty())
        }
    } else if w + len <= max {
        (st.0, st.1 + run)
    } else {
        let rows1 = if w > 0 { st.0.push(st.1) } else { st.0 };
        if len <= max {
            (rows1, run)
        } else {
            cut_chars((rows1, Seq::empty()), run, max)
        }
    }
}

/// The wrapping state after the styled runs `runs`, one after the other.
pub open spec fn wrap_fold_styled(runs: Seq<Seq<(char, Style)>>, max: nat, trim: bool)
    -> (Seq<Seq<(char, Style)>>, Seq<(char, Style)>)
    decreases runs.len(),
{
    if runs.len() == 0 {
        (Seq::empty(), Seq::empty())
    } else {
        wrap_step_styled(wrap_fold_styled(runs.drop_last(), max, trim), runs.last(), max, trim)
    }
}

/// The rows, as styled characters, that a styled text wraps into at width
/// `max`: the rows done, and the last one if it holds something or nothing
/// else came out.
pub open spec fn wrap_model(s: Seq<(char, Style)>, max: nat, trim: bool) -> Seq<Seq<(char, Style)>> {
    let st = wrap_fold_styled(styled_runs(s), max, trim);
    if st.1.len() > 0 || st.0.len() == 0 { st.0.push(st.1) } else { st.0 }
}

/// The styled characters of each line.
pub open spec fn row_styles<'a>(lines: Seq<Line<'a>>) -> Seq<Seq<(char, Style)>> {
    lines.map_values(|l: Line<'a>| styled_chars(l.spans@))
}

proof fn lemma_row_styles_push<'a>(lines: Seq<Line<'a>>, l: Line<'a>)
    ensures
        row_styles(lines.push(l)) == row_styles(lines).push(styled_chars(l.spans@)),
{
    assert(row_styles(lines.push(l)) =~= row_styles(lines).push(styled_chars(l.spans@)));
}

/// The rows lines wrap into at width `max`, one after the other (see
/// `wrap_rows`).
pub open spec fn wrapped_total<'a>(lines: Seq<Line<'a>>, max: nat, trim: bool) -> nat
    decreases lines.len(),
{
    if lines.len() == 0 {
        0
    } else {
        wrapped_total(lines.drop_last(), max, trim) + wrap_rows(spans_text(lines.last().spans@), max, trim)
    }
}

/// Lines with the same texts wrap into the same number of rows.
pub proof fn lemma_wrapped_total_same_texts<'a, 'b>(a: Seq<Line<'a>>, b: Seq<Line<'b>>, max: nat, trim: bool)
    requires
        a.len() == b.len(),
        forall|i: int| 0 <= i < a.len() ==> spans_text((#[trigger] a[i]).spans@) == spans_text(b[i].spans@),
    ensures
        wrapped_total(a, max, trim) == wrapped_total(b, max, trim),
    decreases a.len(),
{
    if a.len() > 0 {
        assert forall|i: int| 0 <= i < a.len() - 1 implies
            spans_text((#[trigger] a.drop_last()[i]).spans@) == spans_text(b.drop_last()[i].spans@) by {
            assert(a.drop_last()[i] == a[i]);
            assert(b.drop_last()[i] == b[i]);
        }
        lemma_wrapped_total_same_texts(a.drop_last(), b.drop_last(), max, trim);
        assert(spans_text(a.last().spans@) == spans_text(b.last().spans@));
    }
}

/// No line's text is as long as `usize::MAX` characters.
pub open spec fn texts_fit<'a>(lines: Seq<Line<'a>>) -> bool {
    forall|i: int| 0 <= i < lines.len() ==> spans_text((#[trigger] lines[i]).spans@).len() < usize::MAX
}

/// `x`, or `usize::MAX` where it is larger.
pub open spec fn clamp_usize(x: nat) -> nat {
    if x < usize::MAX { x } else { usize::MAX as nat }
}

/// Wraps a line into lines of at most `max_width` characters, breaking
/// between words; whitespace that does not fit at a break is dropped (and with
/// `trim`, whitespace at the start of a line too), and a word longer than the
/// width is cut into pieces of exactly `max_width` characters. Only
/// whitespace is ever dropped: the other characters come out in order, each
/// in the style of the span it came from. Row by row, the styled characters
/// are exactly those of `wrap_model`.
#[verifier::rlimit(80)]
pub fn wrap_line<'a>(line: &Line<'a>, max_width: usize, trim: bool) -> (lines: Vec<Line<'a>>)
    requires
        line.spans@.len() < usize::MAX,
    ensures
        lines@.len() >= 1,
        (max_width == 0 || line.spans@.len() == 0) ==> lines@.len() == 1
            && spans_text(lines@[0].spans@) == spans_text(line.spans@),
        max_width > 0 && line.spans@.len() > 0 ==> forall|i: int| 0 <= i < lines@.len() ==> line_len(#[trigger] lines@[i]) <= max_width,
        non_ws(lines_text(lines@)) == non_ws(spans_text(line.spans@)),
        non_ws_styled(lines_styled(lines@)) == non_ws_styled(styled_chars(line.spans@)),
        max_width > 0 && spans_text(line.spans@).len() < usize::MAX
            ==> lines@.len() == wrap_rows(spans_text(line.spans@), max_width as nat, trim),
        max_width == 0 ==> row_styles(lines@) == seq![styled_chars(line.spans@)],
        max_width > 0 && spans_text(line.spans@).len() < usize::MAX
            ==> row_styles(lines@) == wrap_model(styled_chars(line.spans@), max_width as nat, trim),
{
    let ghost total = spans_text(line.spans@);
    let ghost stotal = styled_chars(line.spans@);
    if max_width == 0 || line.spans.len() == 0 {
        let mut v = Vec::new();
        v.push(line.duplicate());
        proof {
            lemma_lines_text_push(Seq::<Line<'a>>::empty(), v@[0]);
            assert(Seq::<char>::empty() + spans_text(v@[0].spans@) =~= spans_text(v@[0].spans@));
            lemma_lines_styled_push(Seq::<Line<'a>>::empty(), v@[0]);
            assert(span_views(v@[0].spans@) =~= span_views(line.spans@));
            lemma_styled_views(v@[0].spans@, line.spans@);
            assert(Seq::<(char, Style)>::empty() + styled_chars(v@[0].spans@) =~= styled_chars(v@[0].spans@));
            if line.spans@.len() == 0 {
                assert(total =~= Seq::<char>::empty());
                assert(ws_runs(total) =~= Seq::<(bool, nat)>::empty());
                assert(stotal =~= Seq::<(char, Style)>::empty());
                assert(styled_runs(stotal) =~= Seq::<Seq<(char, Style)>>::empty());
            }
            assert(row_styles(v@) =~= seq![styled_chars(line.spans@)]);
        }
        return v;
    }
    let tokens = tokenize(line);
    if tokens.len() == 0 {
        let mut v = Vec::new();
        let l = Line::new();
        assert(spans_text(l.spans@) =~= Seq::<char>::empty());
        v.push(l);
        proof {
            lemma_lines_text_push(Seq::<Line<'a>>::empty(), l);
            assert(lines_text(v@) =~= Seq::<char>::empty());
            lemma_lines_styled_push(Seq::<Line<'a>>::empty(), l);
            assert(styled_chars(l.spans@) =~= Seq::<(char, Style)>::empty());
            assert(lines_styled(v@) =~= Seq::<(char, Style)>::empty());
            assert(token_runs(tokens@) =~= Seq::<(bool, nat)>::empty());
            assert(token_sruns(tokens@) =~= Seq::<Seq<(char, Style)>>::empty());
            assert(row_styles(v@) =~= seq![Seq::<(char, Style)>::empty()]);
        }
        return v;
    }
    let ghost orig = tokens@;
    let ghost runs = token_runs(tokens@);
    let ghost sruns = token_sruns(tokens@);
    assert(sruns.take(0) =~= Seq::<Seq<(char, Style)>>::empty());
    let ghost mut m: int = 0;
    assert(runs.take(0) =~= Seq::<(bool, nat)>::empty());
    assert(orig.subrange(0, orig.len() as int) =~= orig);
    let mut lines: Vec<Line<'a>> = Vec::new();
    let mut current: Vec<Span<'a>> = Vec::new();
    let mut width: usize = 0;
    let mut tokens = tokens;
    assert(spans_text(current@) =~= Seq::<char>::empty());
    assert(lines_text(lines@) + spans_text(current@) =~= Seq::<char>::empty());
    assert(non_ws(Seq::<char>::empty()) + non_ws(tokens_text(tokens@)) =~= non_ws(total));
    assert(styled_chars(current@) =~= Seq::<(char, Style)>::empty());
    assert(lines_styled(lines@) + styled_chars(current@) =~= Seq::<(char, Style)>::empty());
    assert(non_ws_styled(Seq::<(char, Style)>::empty()) + non_ws_styled(tokens_styled(tokens@)) =~= non_ws_styled(stotal));
    while tokens.len() > 0
        invariant
            max_width > 0,
            width == spans_text(current@).len(),
            width <= max_width,
            forall|i: int| 0 <= i < lines@.len() ==> line_len(#[trigger] lines@[i]) <= max_width,
            forall|t: int| 0 <= t < tokens@.len() ==> (#[trigger] tokens@[t]).len == spans_text(tokens@[t].parts@).len()
                && tokens@[t].len > 0 && uniform(spans_text(tokens@[t].parts@), tokens@[t].ws),
            non_ws(lines_text(lines@) + spans_text(current@)) + non_ws(tokens_text(tokens@)) == non_ws(total),
            non_ws_styled(lines_styled(lines@) + styled_chars(current@)) + non_ws_styled(tokens_styled(tokens@)) == non_ws_styled(stotal),
            0 <= m <= orig.len(),
            runs == token_runs(orig),
            tokens@ == orig.subrange(m, orig.len() as int),
            wrap_fold(runs.take(m), max_width as nat, trim) == (lines@.len() as nat, width as nat),
            (current@.len() > 0) == (width > 0),
            sruns == token_sruns(orig),
            wrap_fold_styled(sruns.take(m), max_width as nat, trim) == (row_styles(lines@), styled_chars(current@)),
        decreases tokens@.len(),
    {
        let ghost old_tokens = tokens@;
        let ghost e = lines_text(lines@) + spans_text(current@);
        let ghost se = lines_styled(lines@) + styled_chars(current@);
        let token = tokens.remove(0);
        proof {
            assert(orig[m] == old_tokens[0]);
            assert(runs.take(m + 1).drop_last() =~= runs.take(m));
            assert(runs.take(m + 1).last() == (token.ws, token.len as nat));
            assert(sruns.take(m + 1).drop_last() =~= sruns.take(m));
            assert(sruns.take(m + 1).last() == styled_chars(token.parts@));
            lemma_styled_text(token.parts@);
            lemma_styled_text(current@);
            assert(styled_chars(token.parts@)[0].0 == spans_text(token.parts@)[0]);
            m = m + 1;
            assert(tokens@ =~= orig.subrange(m, orig.len() as int));
            if token.parts@.len() == 0 {
                assert(spans_text(token.parts@) =~= Seq::<char>::empty());
            }
        }
        let ghost tt = spans_text(token.parts@);
        let ghost stt = styled_chars(token.parts@);
        proof {
            lemma_tokens_text_first(old_tokens);
            lemma_tokens_styled_first(old_tokens);
            assert(old_tokens.drop_first() =~= tokens@);
            assert(old_tokens[0] == token);
            assert forall|t: int| 0 <= t < tokens@.len() implies (#[trigger] tokens@[t]).len == spans_text(tokens@[t].parts@).len()
                && tokens@[t].len > 0 && uniform(spans_text(tokens@[t].parts@), tokens@[t].ws) by {
                assert(tokens@[t] == old_tokens[t + 1]);
            }
        }
        assert(token.len == spans_text(token.parts@).len());
        if token.ws {
            proof {
                lemma_non_ws_blank(tt);
                lemma_blank_token_styled(token.parts@);
            }
            if trim && width == 0 {
                proof {
                    assert(non_ws(e) + non_ws(tt) =~= non_ws(e));
                    lemma_wrap_step(e, e, tt, tokens_text(tokens@), total);
                    assert(non_ws_styled(se) + non_ws_styled(stt) =~= non_ws_styled(se));
                    lemma_wrap_step_styled(se, se, stt, tokens_styled(tokens@), stotal);
                }
                continue;
            }
            if token.len <= max_width - width {
                extend_spans(&mut current, token.parts);
                width = width + token.len;
                proof {
                    assert(lines_text(lines@) + spans_text(current@) =~= e + tt);
                    lemma_non_ws_concat(e, tt);
                    assert(lines_styled(lines@) + styled_chars(current@) =~= se + stt);
                    lemma_non_ws_styled_concat(se, stt);
                }
            } else {
                let l = Line::from_spans(current);
                proof {
                    lemma_lines_text_push(lines@, l);
                    lemma_lines_styled_push(lines@, l);
            lemma_row_styles_push(lines@, l);
                }
                lines.push(l);
                current = Vec::new();
                assert(spans_text(current@) =~= Seq::<char>::empty());
                assert(styled_chars(current@) =~= Seq::<(char, Style)>::empty());
                width = 0;
                proof {
                    assert(lines_text(lines@) + spans_text(current@) =~= e);
                    assert(non_ws(e) + non_ws(tt) =~= non_ws(e));
                    assert(lines_styled(lines@) + styled_chars(current@) =~= se);
                    assert(non_ws_styled(se) + non_ws_styled(stt) =~= non_ws_styled(se));
                }
            }
            proof {
                lemma_wrap_step(e, lines_text(lines@) + spans_text(current@), tt, tokens_text(tokens@), total);
                lemma_wrap_step_styled(se, lines_styled(lines@) + styled_chars(current@), stt, tokens_styled(tokens@), stotal);
            }
        } else {
            if token.len <= max_width - width {
                extend_spans(&mut current, token.parts);
                width = width + token.len;
                proof {
                    assert(lines_text(lines@) + spans_text(current@) =~= e + tt);
                    lemma_non_ws_concat(e, tt);
                    assert(lines_styled(lines@) + styled_chars(current@) =~= se + stt);
                    lemma_non_ws_styled_concat(se, stt);
                }
            } else {
                if width > 0 {
                    let l = Line::from_spans(current);
                    proof {
                        lemma_lines_text_push(lines@, l);
                        lemma_lines_styled_push(lines@, l);
            lemma_row_styles_push(lines@, l);
                    }
                    lines.push(l);
                    current = Vec::new();
                    assert(spans_text(current@) =~= Seq::<char>::empty());
                    assert(styled_chars(current@) =~= Seq::<(char, Style)>::empty());
                    width = 0;
                    assert(lines_text(lines@) + spans_text(current@) =~= e);
                    assert(lines_styled(lines@) + styled_chars(current@) =~= se);
                }
                if token.len <= max_width {
                    extend_spans(&mut current, token.parts);
                    width = width + token.len;
                    proof {
                        assert(lines_text(lines@) + spans_text(current@) =~= e + tt);
                        lemma_non_ws_concat(e, tt);
                        assert(lines_styled(lines@) + styled_chars(current@) =~= se + stt);
                        lemma_non_ws_styled_concat(se, stt);
                    }
                } else {
                    let parts = token.parts;
                    let mut pi: usize = 0;
                    let ghost l0 = lines@.len();
                    let ghost r1 = row_styles(lines@);
                    assert(current@.len() == 0);
                    assert(styled_chars(current@) =~= Seq::<(char, Style)>::empty());
                    assert(parts@.take(0) =~= Seq::<Span<'a>>::empty());
                    assert(e + spans_text(parts@.take(0)) =~= e);
                    assert(styled_chars(parts@.take(0)) =~= Seq::<(char, Style)>::empty());
                    assert(se + styled_chars(parts@.take(0)) =~= se);
                    while pi < parts.len()
                        invariant
                            max_width > 0,
                            width == spans_text(current@).len(),
                            width < max_width,
                            forall|i: int| 0 <= i < lines@.len() ==> line_len(#[trigger] lines@[i]) <= max_width,
                            pi <= parts@.len(),
                            lines_text(lines@) + spans_text(current@) == e + spans_text(parts@.take(pi as int)),
                            lines_styled(lines@) + styled_chars(current@) == se + styled_chars(parts@.take(pi as int)),
                            lines@.len() >= l0,
                            (lines@.len() - l0) * max_width + width == spans_text(parts@.take(pi as int)).len(),
                            (current@.len() > 0) == (width > 0),
                            cut_chars((r1, Seq::empty()), styled_chars(parts@.take(pi as int)), max_width as nat)
                                == (row_styles(lines@), styled_chars(current@)),
                        decreases parts@.len() - pi,
                    {
                        let style = parts[pi].style;
                        let chars = chars_of(parts[pi].content.as_str());
                        let mut chunk = String::new();
                        let mut k: usize = 0;
                        let ghost base = e + spans_text(parts@.take(pi as int));
                        let ghost sbase = se + styled_chars(parts@.take(pi as int));
                        assert(chars@.take(0) =~= Seq::<char>::empty());
                        assert(base + chars@.take(0) =~= base);
                        assert(with_style(chunk@, style) =~= Seq::<(char, Style)>::empty());
                        assert(lines_styled(lines@) + styled_chars(current@) + with_style(chunk@, style)
                            =~= sbase + with_style(chars@.take(0), style));
                        assert(styled_chars(parts@.take(pi as int)) + with_style(chars@.take(0), style)
                            =~= styled_chars(parts@.take(pi as int)));
                        assert(styled_chars(current@) + with_style(chunk@, style) =~= styled_chars(current@));
                        while k < chars.len()
                            invariant
                                max_width > 0,
                                width == spans_text(current@).len() + chunk@.len(),
                                width < max_width,
                                forall|i: int| 0 <= i < lines@.len() ==> line_len(#[trigger] lines@[i]) <= max_width,
                                k <= chars@.len(),
                                lines_text(lines@) + spans_text(current@) + chunk@ == base + chars@.take(k as int),
                                lines_styled(lines@) + styled_chars(current@) + with_style(chunk@, style)
                                    == sbase + with_style(chars@.take(k as int), style),
                                lines@.len() >= l0,
                                (lines@.len() - l0) * max_width + width == spans_text(parts@.take(pi as int)).len() + k,
                                (current@.len() > 0 || chunk@.len() > 0) == (width > 0),
                                cut_chars((r1, Seq::empty()), styled_chars(parts@.take(pi as int)) + with_style(chars@.take(k as int), style),
                                    max_width as nat) == (row_styles(lines@), styled_chars(current@) + with_style(chunk@, style)),
                            decreases chars@.len() - k,
                        {
                            let ghost before_chunk = chunk@;
                            push_char(&mut chunk, chars[k]);
                            assert(chars@.take(k + 1) =~= chars@.take(k as int).push(chars@[k as int]));
                            assert(lines_text(lines@) + spans_text(current@) + chunk@
                                =~= (lines_text(lines@) + spans_text(current@) + before_chunk).push(chars@[k as int]));
                            assert(lines_styled(lines@) + styled_chars(current@) + with_style(chunk@, style)
                                =~= (lines_styled(lines@) + styled_chars(current@) + with_style(before_chunk, style)).push((chars@[k as int], style)));
                            assert(with_style(chars@.take(k + 1), style) =~= with_style(chars@.take(k as int), style).push((chars@[k as int], style)));
                            proof {
                                let pre = styled_chars(parts@.take(pi as int));
                                let pk = pre + with_style(chars@.take(k + 1), style);
                                assert(pk.drop_last() =~= pre + with_style(chars@.take(k as int), style));
                                assert(pk.last() == (chars@[k as int], style));
                                assert(with_style(chunk@, style) =~= with_style(before_chunk, style).push((chars@[k as int], style)));
                                assert(styled_chars(current@) + with_style(chunk@, style)
                                    =~= (styled_chars(current@) + with_style(before_chunk, style)).push((chars@[k as int], style)));
                                lemma_styled_text(current@);
                            }
                            width = width + 1;
                            if width == max_width {
                                let ghost ln = lines@.len();
                                assert((ln + 1 - l0) * max_width == (ln - l0) * max_width + max_width) by (nonlinear_arith);
                                let part = Span::styled(chunk, style);
                                push_part(&mut current, part);
                                let l = Line::from_spans(current);
                                proof {
                                    lemma_lines_text_push(lines@, l);
                                    lemma_lines_styled_push(lines@, l);
            lemma_row_styles_push(lines@, l);
                                }
                                lines.push(l);
                                current = Vec::new();
                                assert(spans_text(current@) =~= Seq::<char>::empty());
                                assert(styled_chars(current@) =~= Seq::<(char, Style)>::empty());
                                chunk = String::new();
                                width = 0;
                                assert(with_style(chunk@, style) =~= Seq::<(char, Style)>::empty());
                                assert(styled_chars(current@) + with_style(chunk@, style) =~= Seq::<(char, Style)>::empty());
                                assert(lines_text(lines@) + spans_text(current@) + chunk@ =~= base + chars@.take(k + 1));
                                assert(lines_styled(lines@) + styled_chars(current@) + with_style(chunk@, style)
                                    =~= sbase + with_style(chars@.take(k + 1), style));
                            }
                            k += 1;
                        }
                        assert(chars@.take(chars@.len() as int) =~= chars@);
                        if chunk.as_str().unicode_len() > 0 {
                            let part = Span::styled(chunk, style);
                            push_part(&mut current, part);
                            assert(lines_text(lines@) + spans_text(current@) =~= base + chars@);
                            assert(lines_styled(lines@) + styled_chars(current@) =~= sbase + with_style(chars@, style));
                        } else {
                            assert(chunk@.len() == 0);
                            assert(lines_text(lines@) + spans_text(current@) =~= base + chars@);
                            assert(lines_styled(lines@) + styled_chars(current@) =~= sbase + with_style(chars@, style));
                        }
                        proof {
                            assert(parts@.take(pi + 1) =~= parts@.take(pi as int).push(parts@[pi as int]));
                            super::vt::lemma_spans_text_push(parts@.take(pi as int), parts@[pi as int]);
                            assert(e + spans_text(parts@.take(pi + 1)) =~= base + chars@);
                            lemma_styled_push(parts@.take(pi as int), parts@[pi as int]);
                            assert(se + styled_chars(parts@.take(pi + 1)) =~= sbase + with_style(chars@, style));
                            assert(styled_chars(parts@.take(pi + 1)) == styled_chars(parts@.take(pi as int)) + with_style(chars@, style));
                        }
                        pi += 1;
                    }
                    proof {
                        assert(parts@.take(parts@.len() as int) =~= parts@);
                        vstd::arithmetic::div_mod::lemma_fundamental_div_mod_converse(
                            token.len as int, max_width as int, (lines@.len() - l0) as int, width as int);
                        lemma_non_ws_concat(e, tt);
                        lemma_non_ws_styled_concat(se, stt);
                    }
                }
            }
            proof {
                lemma_wrap_step(e, lines_text(lines@) + spans_text(current@), tt, tokens_text(tokens@), total);
                lemma_wrap_step_styled(se, lines_styled(lines@) + styled_chars(current@), stt, tokens_styled(tokens@), stotal);
            }
        }
    }
    assert(tokens_text(tokens@) =~= Seq::<char>::empty());
    assert(m == orig.len());
    assert(runs.take(m) =~= runs);
    assert(sruns.take(m) =~= sruns);
    proof { lemma_styled_text(current@); }
    assert(non_ws(lines_text(lines@) + spans_text(current@)) + non_ws(Seq::<char>::empty())
        =~= non_ws(lines_text(lines@) + spans_text(current@)));
    assert(tokens_styled(tokens@) =~= Seq::<(char, Style)>::empty());
    assert(non_ws_styled(lines_styled(lines@) + styled_chars(current@)) + non_ws_styled(Seq::<(char, Style)>::empty())
        =~= non_ws_styled(lines_styled(lines@) + styled_chars(current@)));
    if current.len() > 0 || lines.len() == 0 {
        let l = Line::from_spans(current);
        proof {
            lemma_lines_text_push(lines@, l);
            lemma_lines_styled_push(lines@, l);
            lemma_row_styles_push(lines@, l);
        }
        lines.push(l);
    } else {
        assert(spans_text(current@) =~= Seq::<char>::empty());
        assert(lines_text(lines@) + spans_text(current@) =~= lines_text(lines@));
        assert(styled_chars(current@) =~= Seq::<(char, Style)>::empty());
        assert(lines_styled(lines@) + styled_chars(current@) =~= lines_styled(lines@));
    }
    lines
}

impl<'a, 'b> IntoParagraph<'a> for &'b str {
    /// One unstyled line per line of the text, as `str::lines` splits it.
    open spec fn paragraph_views(&self) -> Seq<Seq<(Seq<char>, Style)>> {
        plain_lines(text_lines((*self)@))
    }

    fn into_paragraph(self) -> (c: ParagraphContent<'a>) {
        let texts = split_lines(self);
        let mut lines: Vec<Line<'a>> = Vec::new();
        let mut i: usize = 0;
        let ghost tl = text_lines(self@);
        assert(line_views(lines@) =~= plain_lines(tl.take(0)));
        while i < texts.len()
            invariant
                i <= texts@.len(),
                texts@.len() == tl.len(),
                tl == text_lines(self@),
                forall|k: int| 0 <= k < texts@.len() ==> (#[trigger] texts@[k])@ == tl[k],
                lines@.len() == i,
                line_views(lines@) == plain_lines(tl.take(i as int)),
            decreases texts@.len() - i,
        {
            let t = texts[i].clone();
            let l = Line::from(t);
            assert(span_views(l.spans@) =~= seq![(tl[i as int], plain_style())]);
            let ghost before = lines@;
            lines.push(l);
            assert(tl.take(i + 1) =~= tl.take(i as int).push(tl[i as int]));
            assert forall|k: int| 0 <= k < i + 1 implies
                #[trigger] line_views(lines@)[k] == plain_lines(tl.take(i + 1))[k] by {
                if k < i {
                    assert(line_views(before)[k] == plain_lines(tl.take(i as int))[k]);
                    assert(lines@[k] == before[k]);
                }
            }
            assert(line_views(lines@) =~= plain_lines(tl.take(i + 1)));
            i += 1;
        }
        assert(tl.take(tl.len() as int) =~= tl);
        ParagraphContent { lines, _marker: PhantomData }
    }
}

impl<'a> IntoParagraph<'a> for String {
    open spec fn paragraph_views(&self) -> Seq<Seq<(Seq<char>, Style)>> {
        plain_lines(text_lines(self@))
    }

    fn into_paragraph(self) -> (c: ParagraphContent<'a>) {
        self.as_str().into_paragraph()
    }
}

impl<'a> IntoParagraph<'a> for Line<'a> {
    open spec fn paragraph_views(&self) -> Seq<Seq<(Seq<char>, Style)>> {
        seq![span_views(self.spans@)]
    }

    fn into_paragraph(self) -> (c: ParagraphContent<'a>) {
        let ghost v = span_views(self.spans@);
        let mut lines = Vec::new();
        lines.push(self);
        assert(line_views(lines@) =~= seq![v]);
        ParagraphContent { lines, _marker: PhantomData }
    }
}

impl<'a> IntoParagraph<'a> for Vec<Line<'a>> {
    open spec fn paragraph_views(&self) -> Seq<Seq<(Seq<char>, Style)>> {
        line_views(self@)
    }

    fn into_paragraph(self) -> (c: ParagraphContent<'a>) {
        ParagraphContent { lines: self, _marker: PhantomData }
    }
}

/// Styled text drawn line by line into an area, optionally wrapped and scrolled.
#[derive(Debug)]
pub struct Paragraph<'a> {
    pub lines: Vec<Line<'a>>,
    pub block: Option<Block<'a>>,
    pub style: Style,
    pub scroll: (u16, u16),
    pub alignment: Alignment,
    pub wrap: Option<Wrap>,
    pub _marker: PhantomData<&'a ()>,
}

impl<'a> Paragraph<'a> {
    pub fn new<T: IntoParagraph<'a>>(content: T) -> (p: Paragraph<'a>)
        ensures
            line_views(p.lines@) == content.paragraph_views(),
            p.block.is_none(),
            p.style == plain_style(),
            p.scroll == (0u16, 0u16),
            p.alignment == Alignment::Left,
            p.wrap.is_none(),
    {
        let content = content.into_paragraph();
        Paragraph {
            lines: content.lines,
            block: None,
            style: Style::new(),
            scroll: (0, 0),
            alignment: Alignment::Left,
            wrap: None,
            _marker: PhantomData,
        }
    }

    pub fn block(self, block: Block<'a>) -> (p: Paragraph<'a>)
        ensures
            p.block == Some(block),
            p.lines == self.lines, p.style == self.style, p.scroll == self.scroll,
            p.alignment == self.alignment, p.wrap == self.wrap,
    {
        Paragraph { block: Some(block), ..self }
    }

    pub fn style(self, style: Style) -> (p: Paragraph<'a>)
        ensures
            p.style == style,
            p.lines == self.lines, p.block == self.block, p.scroll == self.scroll,
            p.alignment == self.alignment, p.wrap == self.wrap,
    {
        Paragraph { style, ..self }
    }

    pub fn wrap(self, wrap: Wrap) -> (p: Paragraph<'a>)
        ensures
            p.wrap == Some(wrap),
            p.lines == self.lines, p.block == self.block, p.scroll == self.scroll,
            p.alignment == self.alignment, p.style == self.style,
    {
        Paragraph { wrap: Some(wrap), ..self }
    }

    pub fn scroll(self, scroll: (u16, u16)) -> (p: Paragraph<'a>)
        ensures
            p.scroll == scroll,
            p.lines == self.lines, p.block == self.block, p.wrap == self.wrap,
            p.alignment == self.alignment, p.style == self.style,
    {
        Paragraph { scroll, ..self }
    }

    pub fn alignment(self, alignment: Alignment) -> (p: Paragraph<'a>)
        ensures
            p.alignment == alignment,
            p.lines == self.lines, p.block == self.block, p.wrap == self.wrap,
            p.scroll == self.scroll, p.style == self.style,
    {
        Paragraph { alignment, ..self }
    }

    /// The number of rows the paragraph takes at `width`: one per line, or the
    /// number of wrapped lines when wrapping is on (never fewer than the lines).
    pub fn line_count(&self, width: u16) -> (n: usize)
        requires
            forall|i: int| 0 <= i < self.lines@.len() ==> (#[trigger] self.lines@[i]).spans@.len() < usize::MAX,
        ensures
            n >= self.lines@.len(),
            (width == 0 || self.wrap.is_none()) ==> n == self.lines@.len(),
            width > 0 && self.wrap is Some && texts_fit(self.lines@)
                ==> n == clamp_usize(wrapped_total(self.lines@, width as nat, self.wrap.unwrap().trim)),
    {
        if width == 0 {
            return self.lines.len();
        }
        let trim = match self.wrap { Some(w) => w.trim, None => false };
        let mut count: usize = 0;
        let mut i: usize = 0;
        while i < self.lines.len()
            invariant
                i <= self.lines@.len(),
                forall|k: int| 0 <= k < self.lines@.len() ==> (#[trigger] self.lines@[k]).spans@.len() < usize::MAX,
                self.wrap.is_none() ==> count == i,
                count >= i,
                width > 0,
                self.wrap is Some ==> trim == self.wrap.unwrap().trim,
                self.wrap is Some && texts_fit(self.lines@)
                    ==> count == clamp_usize(wrapped_total(self.lines@.take(i as int), width as nat, trim)),
            decreases self.lines@.len() - i,
        {
            proof {
                assert(self.lines@.take(i + 1).drop_last() =~= self.lines@.take(i as int));
                assert(self.lines@.take(i + 1).last() == self.lines@[i as int]);
            }
            if self.wrap.is_some() {
                let wrapped = wrap_line(&self.lines[i], width as usize, trim);
                count = count.saturating_add(wrapped.len());
            } else {
                count = count + 1;
            }
            i += 1;
        }
        assert(self.lines@.take(i as int) =~= self.lines@);
        if count < self.lines.len() { self.lines.len() } else { count }
    }
}

/// The text and style of each span of each line.
pub open spec fn line_views<'a>(lines: Seq<Line<'a>>) -> Seq<Seq<(Seq<char>, Style)>> {
    lines.map_values(|l: Line<'a>| span_views(l.spans@))
}

/// The text of a row of span views.
pub open spec fn row_text(row: Seq<(Seq<char>, Style)>) -> Seq<char>
    decreases row.len(),
{
    if row.len() == 0 {
        Seq::empty()
    } else {
        row_text(row.drop_last()) + row.last().0
    }
}

/// The texts of rows, one after the other.
pub open spec fn rows_text(rows: Seq<Seq<(Seq<char>, Style)>>) -> Seq<char>
    decreases rows.len(),
{
    if rows.len() == 0 {
        Seq::empty()
    } else {
        rows_text(rows.drop_last()) + row_text(rows.last())
    }
}

proof fn lemma_row_text<'a>(spans: Seq<Span<'a>>)
    ensures
        row_text(span_views(spans)) == spans_text(spans),
    decreases spans.len(),
{
    if spans.len() > 0 {
        lemma_row_text(spans.drop_last());
        assert(span_views(spans).drop_last() =~= span_views(spans.drop_last()));
    }
}

proof fn lemma_rows_text<'a>(lines: Seq<Line<'a>>)
    ensures
        rows_text(line_views(lines)) == lines_text(lines),
    decreases lines.len(),
{
    if lines.len() > 0 {
        lemma_rows_text(lines.drop_last());
        assert(line_views(lines).drop_last() =~= line_views(lines.drop_last()));
        lemma_row_text(lines.last().spans@);
    }
}

proof fn lemma_lines_text_concat<'a>(a: Seq<Line<'a>>, b: Seq<Line<'a>>)
    ensures
        lines_text(a + b) == lines_text(a) + lines_text(b),
    decreases b.len(),
{
    if b.len() == 0 {
        assert(a + b =~= a);
        assert(lines_text(a) + lines_text(b) =~= lines_text(a));
    } else {
        lemma_lines_text_concat(a, b.drop_last());
        assert((a + b).drop_last() =~= a + b.drop_last());
        assert((a + b).last() == b.last());
        let z = spans_text(b.last().spans@);
        assert(lines_text(a) + lines_text(b.drop_last()) + z =~= lines_text(a) + (lines_text(b.drop_last()) + z));
    }
}

/// The cells after drawing lines one per row of `ca` from row `y` on, each
/// placed by `alignment` and cut at the right edge of `ca`.
pub open spec fn paragraph_rows(barea: Rect, content: Seq<CellView>, lines: Seq<Seq<(Seq<char>, Style)>>, ca: Rect, y: int,
    alignment: Alignment) -> Seq<CellView>
    decreases lines.len(),
{
    if lines.len() == 0 || y >= ca.spec_bottom() {
        content
    } else {
        let w = spans_width16(lines[0]);
        let x = match alignment {
            Alignment::Left => ca.x as int,
            Alignment::Center => sat_add16(ca.x as int, sat_sub(ca.width as int, w) / 2),
            Alignment::Right => sat_sub(ca.spec_right(), w),
        };
        let c = drawn_spans(barea, content, x, y, lines[0], None, ca.spec_right());
        paragraph_rows(barea, c, lines.drop_first(), ca, sat_add16(y, 1), alignment)
    }
}

/// The cells after a paragraph whose rows are `lines` is drawn over `area`:
/// its block if it has one, then the rows from `scroll.0` on inside the block.
pub open spec fn paragraph_drawn<'a>(p: Paragraph<'a>, area: Rect, barea: Rect, content: Seq<CellView>,
    lines: Seq<Seq<(Seq<char>, Style)>>) -> Seq<CellView> {
    let c0 = match p.block { Some(b) => block_drawn(b, area, barea, content), None => content };
    let ca = match p.block { Some(b) => block_inner(b.borders, area), None => area };
    let skip = p.scroll.0 as int;
    if ca.width == 0 || ca.height == 0 {
        c0
    } else {
        paragraph_rows(barea, c0, if skip < lines.len() { lines.skip(skip) } else { Seq::empty() }, ca, ca.y as int, p.alignment)
    }
}

impl<'a> Widget for Paragraph<'a> {
    /// Draws the block (if any), then the lines — wrapped to the inner width
    /// when wrapping is on — skipping `scroll.0` rows and aligning each row.
    fn render(self, area: Rect, buf: &mut Buffer)
        ensures
            self.wrap.is_none() ==> final(buf).cells() == paragraph_drawn(self, area, old(buf).area, old(buf).cells(),
                line_views(self.lines@)),
            self.wrap.is_some() ==> exists|rows: Seq<Seq<(Seq<char>, Style)>>|
                final(buf).cells() == #[trigger] paragraph_drawn(self, area, old(buf).area, old(buf).cells(), rows)
                && non_ws(rows_text(rows)) == non_ws(lines_text(self.lines@)),
    {
        let content_area = match &self.block {
            Some(block) => {
                let inner = block.inner(area);
                block.duplicate().render(area, buf);
                inner
            },
            None => area,
        };
        if content_area.is_empty() {
            proof { lemma_rows_text(self.lines@); }
            assert(buf.cells() == paragraph_drawn(self, area, old(buf).area, old(buf).cells(), line_views(self.lines@)));
            return;
        }
        let trim = match self.wrap { Some(w) => w.trim, None => false };
        let mut lines: Vec<Line<'a>> = Vec::new();
        let mut i: usize = 0;
        assert(line_views(lines@) =~= line_views(self.lines@.take(0)));
        assert(lines_text(lines@) =~= lines_text(self.lines@.take(0)));
        while i < self.lines.len()
            invariant
                buf.area == old(buf).area,
                buf.content@.len() == old(buf).content@.len(),
                old(buf).content@.len() > 0,
                i <= self.lines@.len(),
                self.wrap.is_none() ==> line_views(lines@) == line_views(self.lines@.take(i as int)),
                non_ws(lines_text(lines@)) == non_ws(lines_text(self.lines@.take(i as int))),
            decreases self.lines@.len() - i,
        {
            let ghost before = lines@;
            proof {
                assert(self.lines@.take(i + 1) =~= self.lines@.take(i as int).push(self.lines@[i as int]));
                lemma_lines_text_push(self.lines@.take(i as int), self.lines@[i as int]);
                lemma_non_ws_concat(lines_text(self.lines@.take(i as int)), spans_text(self.lines@[i as int].spans@));
            }
            if self.wrap.is_some() && self.lines[i].spans.len() < usize::MAX {
                let mut wrapped = wrap_line(&self.lines[i], content_area.width as usize, trim);
                let ghost w = wrapped@;
                lines.append(&mut wrapped);
                proof {
                    lemma_lines_text_concat(before, w);
                    lemma_non_ws_concat(lines_text(before), lines_text(w));
                }
            } else {
                let d = self.lines[i].duplicate();
                assert(span_views(d.spans@) =~= span_views(self.lines@[i as int].spans@));
                lines.push(d);
                assert(lines@ == before.push(d));
                proof {
                    lemma_lines_text_push(before, d);
                    lemma_non_ws_concat(lines_text(before), spans_text(d.spans@));
                }
                proof {
                    if self.wrap.is_none() {
                        assert(self.lines@.take(i + 1) =~= self.lines@.take(i as int).push(self.lines@[i as int]));
                        assert forall|k: int| 0 <= k < i + 1 implies
                            #[trigger] line_views(lines@)[k] == line_views(self.lines@.take(i + 1))[k] by {
                            if k < i {
                                assert(line_views(before)[k] == line_views(self.lines@.take(i as int))[k]);
                                assert(lines@[k] == before[k]);
                            }
                        }
                        assert(line_views(lines@) =~= line_views(self.lines@.take(i + 1)));
                    }
                }
            }
            i += 1;
        }
        assert(self.lines@.take(self.lines@.len() as int) =~= self.lines@);
        let ghost lv = line_views(lines@);
        proof { lemma_rows_text(lines@); }
        let skip = self.scroll.0 as usize;
        let mut y = content_area.y;
        let bottom = content_area.bottom();
        let right = content_area.right();
        let mut li: usize = skip;
        let ghost rest = if (skip as int) < lv.len() { lv.skip(skip as int) } else { Seq::empty() };
        let ghost target = paragraph_rows(buf.area, buf.cells(), rest, content_area, y as int, self.alignment);
        proof {
            if skip >= lines@.len() {
                assert(rest.len() == 0);
            }
        }
        while li < lines.len()
            invariant
                buf.area == old(buf).area,
                buf.content@.len() == old(buf).content@.len(),
                old(buf).content@.len() > 0,
                skip <= li,
                li <= lines@.len() || li == skip,
                lv == line_views(lines@),
                bottom == content_area.spec_bottom(),
                right == content_area.spec_right(),
                li < lines@.len() ==> target == paragraph_rows(buf.area, buf.cells(), lv.skip(li as int), content_area, y as int, self.alignment),
                li >= lines@.len() ==> target == buf.cells(),
            ensures
                buf.area == old(buf).area,
                buf.content@.len() == old(buf).content@.len(),
                target == buf.cells(),
            decreases lines@.len() - li,
        {
            if y >= bottom {
                break;
            }
            let w = line_char_count(&lines[li]);
            let x = match self.alignment {
                Alignment::Left => content_area.x,
                Alignment::Center => content_area.x.saturating_add(content_area.width.saturating_sub(w) / 2),
                Alignment::Right => right.saturating_sub(w),
            };
            draw_spans(buf, x, y, &lines[li].spans, None, right);
            proof {
                assert(lv.skip(li as int)[0] == lv[li as int]);
                assert(lv.skip(li as int).drop_first() =~= lv.skip(li + 1));
            }
            y = y.saturating_add(1);
            li += 1;
            proof {
                assert(target == paragraph_rows(buf.area, buf.cells(), lv.skip(li as int), content_area, y as int, self.alignment));
                if li >= lines@.len() {
                    assert(lv.skip(li as int).len() == 0);
                }
            }
        }
        assert(buf.cells() == paragraph_drawn(self, area, old(buf).area, old(buf).cells(), lv));
    }
}

/// The summed character counts of spans, each taken as `u16`, with `u16` wrapping.
pub open spec fn spans_width16(spans: Seq<(Seq<char>, Style)>) -> int
    decreases spans.len(),
{
    if spans.len() == 0 {
        0
    } else {
        (spans_width16(spans.drop_last()) + spans.last().0.len() % 65536) % 65536
    }
}

/// The summed character counts of a line's spans, each as `u16` (wrapping).
fn line_char_count(line: &Line) -> (total: u16)
    ensures
        total == spans_width16(span_views(line.spans@)),
{
    let mut total: u16 = 0;
    let mut i: usize = 0;
    let ghost views = span_views(line.spans@);
    assert(views.take(0) =~= Seq::<(Seq<char>, Style)>::empty());
    while i < line.spans.len()
        invariant
            i <= line.spans@.len(),
            views == span_views(line.spans@),
            total == spans_width16(views.take(i as int)),
        decreases line.spans@.len() - i,
    {
        let n = char_count(line.spans[i].content.as_str());
        assert(views.take(i + 1).drop_last() =~= views.take(i as int));
        assert(views.take(i + 1).last() == views[i as int]);
        total = total.wrapping_add(n);
        i += 1;
    }
    assert(views.take(line.spans@.len() as int) =~= views);
    total
}

/// Blanks every cell of the area.
pub struct Clear;

/// A cell holding a space in the default colors, without attributes.
pub open spec fn space_cell() -> CellView {
    CellView { symbol: seq![' '], fg: Color::Reset, bg: Color::Reset, modifier: 0 }
}

/// The cells after blanking columns `x0..x1` of row `y`, left to right.
pub open spec fn cleared_row(barea: Rect, content: Seq<CellView>, x0: int, x1: int, y: int) -> Seq<CellView>
    decreases x1 - x0,
{
    if x1 <= x0 {
        content
    } else {
        let c = cleared_row(barea, content, x0, x1 - 1, y);
        c.update(cell_index(barea, c.len(), x1 - 1, y), space_cell())
    }
}

/// The cells after blanking the rows of `area` above row `y1`, top to bottom.
pub open spec fn cleared_rows(barea: Rect, content: Seq<CellView>, area: Rect, y1: int) -> Seq<CellView>
    decreases y1 - area.y,
{
    if y1 <= area.y {
        content
    } else {
        cleared_row(barea, cleared_rows(barea, content, area, y1 - 1), area.x as int, area.spec_right(), y1 - 1)
    }
}

impl Widget for Clear {
    fn render(self, area: Rect, buf: &mut Buffer)
        ensures
            final(buf).cells() == cleared_rows(old(buf).area, old(buf).cells(), area, area.spec_bottom()),
    {
        let bottom = area.bottom();
        let right = area.right();
        let mut y = area.y;
        while y < bottom
            invariant
                buf.area == old(buf).area,
                buf.content@.len() == old(buf).content@.len(),
                old(buf).content@.len() > 0,
                area.y <= y <= bottom,
                bottom == area.spec_bottom(),
                right == area.spec_right(),
                buf.cells() == cleared_rows(buf.area, old(buf).cells(), area, y as int),
            decreases bottom - y,
        {
            let mut x = area.x;
            let ghost row_start = buf.cells();
            while x < right
                invariant
                    buf.area == old(buf).area,
                    buf.content@.len() == old(buf).content@.len(),
                    old(buf).content@.len() > 0,
                    area.x <= x <= right,
                    row_start.len() == buf.content@.len(),
                    buf.cells() == cleared_row(buf.area, row_start, area.x as int, x as int, y as int),
                decreases right - x,
            {
                let ghost before = buf.cells();
                let cell = Cell::from_char(' ');
                buf.set_cell(x, y, cell);
                assert(buf.cells() =~= before.update(cell_index(buf.area, before.len(), x as int, y as int), space_cell()));
                x = x + 1;
            }
            y = y + 1;
        }
    }
}

/// The selection of a list.
#[derive(Clone, Copy, Debug)]
pub struct ListState {
    pub selected: Option<usize>,
}

impl Default for ListState {
    fn default() -> (s: ListState)
        ensures
            s.selected.is_none(),
    {
        ListState { selected: None }
    }
}

impl ListState {
    pub fn select(&mut self, index: Option<usize>)
        ensures
            final(self).selected == index,
    {
        self.selected = index;
    }

    pub fn selected(&self) -> (s: Option<usize>)
        ensures
            s == self.selected,
    {
        self.selected
    }
}

/// One entry of a list.
#[derive(Debug)]
pub struct ListItem<'a> {
    pub content: Line<'a>,
    pub _marker: PhantomData<&'a ()>,
}

impl<'a> ListItem<'a> {
    pub fn new<T: IntoLine<'a>>(content: T) -> (item: ListItem<'a>)
        ensures
            spans_text(item.content.spans@) == content.line_text(),
    {
        ListItem { content: content.into_line(), _marker: PhantomData }
    }
}

/// A list of items, one per row, with a highlighted selection.
#[derive(Debug)]
pub struct List<'a> {
    pub items: Vec<ListItem<'a>>,
    pub block: Option<Block<'a>>,
    pub highlight_style: Style,
    pub highlight_symbol: Option<&'static str>,
    pub _marker: PhantomData<&'a ()>,
}

impl<'a> List<'a> {
    pub fn new(items: Vec<ListItem<'a>>) -> (l: List<'a>)
        ensures
            l.items@ == items@,
            l.block.is_none(),
            l.highlight_style == plain_style(),
            l.highlight_symbol.is_none(),
    {
        List { items, block: None, highlight_style: Style::new(), highlight_symbol: None, _marker: PhantomData }
    }

    pub fn block(self, block: Block<'a>) -> (l: List<'a>)
        ensures
            l.block == Some(block),
            l.items == self.items, l.highlight_style == self.highlight_style, l.highlight_symbol == self.highlight_symbol,
    {
        List { block: Some(block), ..self }
    }

    pub fn highlight_style(self, style: Style) -> (l: List<'a>)
        ensures
            l.highlight_style == style,
            l.items == self.items, l.block == self.block, l.highlight_symbol == self.highlight_symbol,
    {
        List { highlight_style: style, ..self }
    }

    pub fn highlight_symbol(self, symbol: &'static str) -> (l: List<'a>)
        ensures
            l.highlight_symbol == Some(symbol),
            l.items == self.items, l.block == self.block, l.highlight_style == self.highlight_style,
    {
        List { highlight_symbol: Some(symbol), ..self }
    }
}

/// The text and style of each span of each item.
pub open spec fn item_views<'a>(items: Seq<ListItem<'a>>) -> Seq<Seq<(Seq<char>, Style)>> {
    items.map_values(|it: ListItem<'a>| span_views(it.content.spans@))
}

/// The cells after drawing list items one per row from row `y` (item number
/// `idx` first) until row `bottom`: the selected item gets the highlight
/// symbol, if any, and is drawn in the highlight style; the others in the
/// plain style.
pub open spec fn list_rows(barea: Rect, content: Seq<CellView>, items: Seq<Seq<(Seq<char>, Style)>>, x: int, y: int,
    bottom: int, idx: int, selected: Option<usize>, highlight: Style, symbol: Option<Seq<char>>) -> Seq<CellView>
    decreases items.len(),
{
    if items.len() == 0 || y >= bottom {
        content
    } else {
        let is_selected = selected matches Some(s) && s == idx;
        let c1 = if is_selected && symbol is Some {
            written(barea, content, x, y, symbol->0, highlight, fitting_chars(barea, x, y, symbol->0.len()))
        } else { content };
        let x1 = if is_selected && symbol is Some { sat_add16(x, (symbol->0.len() % 65536) as int) } else { x };
        let style = if is_selected { highlight } else { plain_style() };
        let c2 = drawn_spans(barea, c1, x1, y, items[0], Some(style), u16::MAX as int);
        list_rows(barea, c2, items.drop_first(), x, sat_add16(y, 1), bottom, idx + 1, selected, highlight, symbol)
    }
}

/// The cells after a list is drawn over `area`: its block if it has one,
/// then its items inside the block.
pub open spec fn list_drawn<'a>(l: List<'a>, area: Rect, barea: Rect, content: Seq<CellView>, selected: Option<usize>) -> Seq<CellView> {
    let c0 = match l.block { Some(b) => block_drawn(b, area, barea, content), None => content };
    let ca = match l.block { Some(b) => block_inner(b.borders, area), None => area };
    let symbol = match l.highlight_symbol { Some(s) => Some(s@), None => None };
    if ca.width == 0 || ca.height == 0 {
        c0
    } else {
        list_rows(barea, c0, item_views(l.items@), ca.x as int, ca.y as int, ca.spec_bottom(), 0, selected, l.highlight_style, symbol)
    }
}

impl<'a> StatefulWidget for List<'a> {
    type State = ListState;

    /// Draws one item per row; the selected one gets the highlight symbol and style.
    fn render(self, area: Rect, buf: &mut Buffer, state: &mut ListState)
        ensures
            *final(state) == *old(state),
            final(buf).cells() == list_drawn(self, area, old(buf).area, old(buf).cells(), old(state).selected),
    {
        let content_area = match &self.block {
            Some(block) => {
                let inner = block.inner(area);
                block.duplicate().render(area, buf);
                inner
            },
            None => area,
        };
        if content_area.is_empty() {
            return;
        }
        let bottom = content_area.bottom();
        let mut y = content_area.y;
        let mut idx: usize = 0;
        let ghost views = item_views(self.items@);
        let ghost symbol = match self.highlight_symbol { Some(s) => Some(s@), None => None };
        let ghost target = list_rows(buf.area, buf.cells(), views, content_area.x as int, y as int, bottom as int, 0,
            state.selected, self.highlight_style, symbol);
        assert(views.skip(0) =~= views);
        while idx < self.items.len()
            invariant
                buf.area == old(buf).area,
                buf.content@.len() == old(buf).content@.len(),
                old(buf).content@.len() > 0,
                idx <= self.items@.len(),
                views == item_views(self.items@),
                symbol == (match self.highlight_symbol { Some(s) => Some(s@), None => None::<Seq<char>> }),
                bottom == content_area.spec_bottom(),
                target == list_rows(buf.area, buf.cells(), views.skip(idx as int), content_area.x as int, y as int,
                    bottom as int, idx as int, state.selected, self.highlight_style, symbol),
            ensures
                buf.area == old(buf).area,
                buf.content@.len() == old(buf).content@.len(),
                target == buf.cells(),
            decreases self.items@.len() - idx,
        {
            if y >= bottom {
                break;
            }
            let is_selected = match state.selected { Some(s) => s == idx, None => false };
            let mut x = content_area.x;
            if is_selected {
                match self.highlight_symbol {
                    Some(sym) => {
                        buf.set_string(x, y, sym, self.highlight_style);
                        x = x.saturating_add(char_count(sym));
                    },
                    None => {},
                }
            }
            let style = if is_selected { self.highlight_style } else { Style::new() };
            draw_spans(buf, x, y, &self.items[idx].content.spans, Some(style), u16::MAX);
            proof {
                assert(views.skip(idx as int)[0] == views[idx as int]);
                assert(views.skip(idx as int).drop_first() =~= views.skip(idx + 1));
            }
            y = y.saturating_add(1);
            idx += 1;
        }
    }
}

impl<'a> Widget for Span<'a> {
    fn render(self, area: Rect, buf: &mut Buffer)
        ensures
            final(buf).cells() == (if area.width == 0 || area.height == 0 {
                old(buf).cells()
            } else {
                written(old(buf).area, old(buf).cells(), area.x as int, area.y as int, self.content@, self.style,
                    fitting_chars(old(buf).area, area.x as int, area.y as int, self.content@.len()))
            }),
    {
        if area.is_empty() {
            return;
        }
        buf.set_string(area.x, area.y, self.content.as_str(), self.style);
    }
}

impl<'a> Widget for Line<'a> {
    fn render(self, area: Rect, buf: &mut Buffer)
        ensures
            final(buf).cells() == (if area.width == 0 || area.height == 0 {
                old(buf).cells()
            } else {
                drawn_spans(old(buf).area, old(buf).cells(), area.x as int, area.y as int, span_views(self.spans@),
                    None, area.spec_right())
            }),
    {
        if area.is_empty() {
            return;
        }
        draw_spans(buf, area.x, area.y, &self.spans, None, area.right());
    }
}

} // verus!
