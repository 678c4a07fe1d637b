//! Styles, styled text and the ANSI / VT100 escape sequences that render them.
use vstd::prelude::*;
use std::marker::PhantomData;
use crate::text::{push_char, push_str, push_decimal, owned, dec};

verus! {

/// A set of text attributes as bit flags.
#[derive(Clone, Copy, Debug, PartialEq, Eq, Structural)]
pub struct Modifier(pub u16);

impl Modifier {
    #[allow(non_snake_case)]
    pub fn BOLD() -> (m: Modifier)
        ensures
            m.0 == 1,
    {
        Modifier(1)
    }
    #[allow(non_snake_case)]
    pub fn DIM() -> (m: Modifier)
        ensures
            m.0 == 2,
    {
        Modifier(2)
    }
    #[allow(non_snake_case)]
    pub fn ITALIC() -> (m: Modifier)
        ensures
            m.0 == 4,
    {
        Modifier(4)
    }
    #[allow(non_snake_case)]
    pub fn UNDERLINED() -> (m: Modifier)
        ensures
            m.0 == 8,
    {
        Modifier(8)
    }
    #[allow(non_snake_case)]
    pub fn REVERSED() -> (m: Modifier)
        ensures
            m.0 == 16,
    {
        Modifier(16)
    }
    #[allow(non_snake_case)]
    pub fn CROSSED_OUT() -> (m: Modifier)
        ensures
            m.0 == 32,
    {
        Modifier(32)
    }
    #[allow(non_snake_case)]
    pub fn EMPTY() -> (m: Modifier)
        ensures
            m.0 == 0,
    {
        Modifier(0)
    }

    /// The union of two modifier sets.
    pub fn union(self, rhs: Modifier) -> (r: Modifier)
        ensures
            r.0 == self.0 | rhs.0,
    {
        Modifier(self.0 | rhs.0)
    }

    /// Whether the flag `bit` is set.
    pub open spec fn has(self, bit: u16) -> bool {
        self.0 & bit != 0
    }
}

/// A terminal color.
#[derive(Clone, Copy, Debug, PartialEq, Eq, Structural)]
pub enum Color {
    Reset,
    Black,
    Red,
    Green,
    Yellow,
    Blue,
    Magenta,
    Cyan,
    White,
    Gray,
    DarkGray,
    LightRed,
    LightGreen,
    LightYellow,
    LightBlue,
    LightMagenta,
    LightCyan,
    BrightBlack,
    BrightRed,
    BrightGreen,
    BrightYellow,
    BrightBlue,
    BrightMagenta,
    BrightCyan,
    BrightWhite,
    Rgb(u8, u8, u8),
    Indexed(u8),
}

/// Foreground/background colors and text attributes.
#[derive(Clone, Copy, Debug, PartialEq, Eq, Structural)]
pub struct Style {
    pub fg: Option<Color>,
    pub bg: Option<Color>,
    pub bold: bool,
    pub dim: bool,
    pub italic: bool,
    pub underline: bool,
    pub reverse: bool,
}

impl Style {
    /// The style with no color and no attribute.
    pub open spec fn default_spec() -> Style {
        plain_style()
    }
}

/// The style with no color and no attribute.
pub open spec fn plain_style() -> Style {
    Style { fg: None, bg: None, bold: false, dim: false, italic: false, underline: false, reverse: false }
}

impl Default for Style {
    fn default() -> (s: Style)
        ensures
            s == plain_style(),
    {
        Style::new()
    }
}

impl Style {
    pub fn new() -> (s: Style)
        ensures
            s == plain_style(),
    {
        Style { fg: None, bg: None, bold: false, dim: false, italic: false, underline: false, reverse: false }
    }

    pub fn fg(self, color: Color) -> (s: Style)
        ensures
            s == (Style { fg: Some(color), ..self }),
    {
        Style { fg: Some(color), ..self }
    }

    pub fn bg(self, color: Color) -> (s: Style)
        ensures
            s == (Style { bg: Some(color), ..self }),
    {
        Style { bg: Some(color), ..self }
    }

    pub fn bold(self) -> (s: Style)
        ensures
            s == (Style { bold: true, ..self }),
    {
        Style { bold: true, ..self }
    }

    pub fn dim(self) -> (s: Style)
        ensures
            s == (Style { dim: true, ..self }),
    {
        Style { dim: true, ..self }
    }

    pub fn italic(self) -> (s: Style)
        ensures
            s == (Style { italic: true, ..self }),
    {
        Style { italic: true, ..self }
    }

    pub fn underline(self) -> (s: Style)
        ensures
            s == (Style { underline: true, ..self }),
    {
        Style { underline: true, ..self }
    }

    pub fn reverse(self) -> (s: Style)
        ensures
            s == (Style { reverse: true, ..self }),
    {
        Style { reverse: true, ..self }
    }

    /// Turns on every attribute whose flag is in `m`; other fields are kept.
    pub fn add_modifier(self, m: Modifier) -> (s: Style)
        ensures
            s == (Style {
                bold: self.bold || m.has(1),
                dim: self.dim || m.has(2),
                italic: self.italic || m.has(4),
                underline: self.underline || m.has(8),
                reverse: self.reverse || m.has(16),
                ..self
            }),
    {
        let mut s = self;
        if (m.0 & 1) != 0 { s.bold = true; }
        if (m.0 & 2) != 0 { s.dim = true; }
        if (m.0 & 4) != 0 { s.italic = true; }
        if (m.0 & 8) != 0 { s.underline = true; }
        if (m.0 & 16) != 0 { s.reverse = true; }
        s
    }

    /// Turns off every attribute whose flag is in `m`; other fields are kept.
    pub fn remove_modifier(self, m: Modifier) -> (s: Style)
        ensures
            s == (Style {
                bold: self.bold && !m.has(1),
                dim: self.dim && !m.has(2),
                italic: self.italic && !m.has(4),
                underline: self.underline && !m.has(8),
                reverse: self.reverse && !m.has(16),
                ..self
            }),
    {
        let mut s = self;
        if (m.0 & 1) != 0 { s.bold = false; }
        if (m.0 & 2) != 0 { s.dim = false; }
        if (m.0 & 4) != 0 { s.italic = false; }
        if (m.0 & 8) != 0 { s.underline = false; }
        if (m.0 & 16) != 0 { s.reverse = false; }
        s
    }
}

/// SGR parameters selecting a foreground color (after the leading `;`).
pub open spec fn fg_code(c: Color) -> Seq<char> {
    match c {
        Color::Reset => ";39"@,
        Color::Black => ";30"@,
        Color::Red => ";31"@,
        Color::Green => ";32"@,
        Color::Yellow => ";33"@,
        Color::Blue => ";34"@,
        Color::Magenta => ";35"@,
        Color::Cyan => ";36"@,
        Color::White => ";37"@,
        Color::Gray => ";37"@,
        Color::DarkGray | Color::BrightBlack => ";90"@,
        Color::LightRed | Color::BrightRed => ";91"@,
        Color::LightGreen | Color::BrightGreen => ";92"@,
        Color::LightYellow | Color::BrightYellow => ";93"@,
        Color::LightBlue | Color::BrightBlue => ";94"@,
        Color::LightMagenta | Color::BrightMagenta => ";95"@,
        Color::LightCyan | Color::BrightCyan => ";96"@,
        Color::BrightWhite => ";97"@,
        Color::Indexed(i) => ";38;5;"@ + dec(i as nat),
        Color::Rgb(r, g, b) => ";38;2;"@ + dec(r as nat) + ";"@ + dec(g as nat) + ";"@ + dec(b as nat),
    }
}

/// SGR parameters selecting a background color (after the leading `;`).
pub open spec fn bg_code(c: Color) -> Seq<char> {
    match c {
        Color::Reset => ";49"@,
        Color::Black => ";40"@,
        Color::Red => ";41"@,
        Color::Green => ";42"@,
        Color::Yellow => ";43"@,
        Color::Blue => ";44"@,
        Color::Magenta => ";45"@,
        Color::Cyan => ";46"@,
        Color::White | Color::Gray => ";47"@,
        Color::DarkGray | Color::BrightBlack => ";100"@,
        Color::LightRed | Color::BrightRed => ";101"@,
        Color::LightGreen | Color::BrightGreen => ";102"@,
        Color::LightYellow | Color::BrightYellow => ";103"@,
        Color::LightBlue | Color::BrightBlue => ";104"@,
        Color::LightMagenta | Color::BrightMagenta => ";105"@,
        Color::LightCyan | Color::BrightCyan => ";106"@,
        Color::BrightWhite => ";107"@,
        Color::Indexed(i) => ";48;5;"@ + dec(i as nat),
        Color::Rgb(r, g, b) => ";48;2;"@ + dec(r as nat) + ";"@ + dec(g as nat) + ";"@ + dec(b as nat),
    }
}

/// `s` when `b` holds, nothing otherwise.
pub open spec fn when(b: bool, s: Seq<char>) -> Seq<char> {
    if b { s } else { Seq::empty() }
}

/// The attribute parameters of a style.
pub open spec fn flag_codes(style: Style) -> Seq<char> {
    when(style.bold, ";1"@) + when(style.dim, ";2"@) + when(style.italic, ";3"@)
        + when(style.underline, ";4"@) + when(style.reverse, ";7"@)
}

/// The foreground parameters of a style, if it sets one.
pub open spec fn fg_part(style: Style) -> Seq<char> {
    match style.fg { Some(c) => fg_code(c), None => Seq::empty() }
}

/// The background parameters of a style, if it sets one.
pub open spec fn bg_part(style: Style) -> Seq<char> {
    match style.bg { Some(c) => bg_code(c), None => Seq::empty() }
}

/// The escape sequence that resets attributes and then selects `style`.
pub open spec fn sgr(style: Style) -> Seq<char> {
    "\x1b[0"@ + flag_codes(style) + fg_part(style) + bg_part(style) + seq!['m']
}

/// The cursor-positioning sequence for a zero-based column and row.
pub open spec fn cursor_to(col: nat, row: nat) -> Seq<char> {
    "\x1b["@ + dec(row + 1) + ";"@ + dec(col + 1) + "H"@
}

fn push_rgb(out: &mut String, r: u8, g: u8, b: u8)
    ensures
        final(out)@ == old(out)@ + dec(r as nat) + ";"@ + dec(g as nat) + ";"@ + dec(b as nat),
{
    push_decimal(out, r as u64);
    push_str(out, ";");
    push_decimal(out, g as u64);
    push_str(out, ";");
    push_decimal(out, b as u64);
}

fn push_fg(out: &mut String, c: Color)
    ensures
        final(out)@ == old(out)@ + fg_code(c),
{
    match c {
        Color::Reset => push_str(out, ";39"),
        Color::Black => push_str(out, ";30"),
        Color::Red => push_str(out, ";31"),
        Color::Green => push_str(out, ";32"),
        Color::Yellow => push_str(out, ";33"),
        Color::Blue => push_str(out, ";34"),
        Color::Magenta => push_str(out, ";35"),
        Color::Cyan => push_str(out, ";36"),
        Color::White => push_str(out, ";37"),
        Color::Gray => push_str(out, ";37"),
        Color::DarkGray | Color::BrightBlack => push_str(out, ";90"),
        Color::LightRed | Color::BrightRed => push_str(out, ";91"),
        Color::LightGreen | Color::BrightGreen => push_str(out, ";92"),
        Color::LightYellow | Color::BrightYellow => push_str(out, ";93"),
        Color::LightBlue | Color::BrightBlue => push_str(out, ";94"),
        Color::LightMagenta | Color::BrightMagenta => push_str(out, ";95"),
        Color::LightCyan | Color::BrightCyan => push_str(out, ";96"),
        Color::BrightWhite => push_str(out, ";97"),
        Color::Indexed(i) => {
            let ghost start = out@;
            push_str(out, ";38;5;");
            push_decimal(out, i as u64);
            assert(out@ == start + (";38;5;"@ + dec(i as nat)));
        },
        Color::Rgb(r, g, b) => {
            let ghost start = out@;
            push_str(out, ";38;2;");
            push_rgb(out, r, g, b);
            assert(out@ == start + (";38;2;"@ + dec(r as nat) + ";"@ + dec(g as nat) + ";"@ + dec(b as nat)));
        },
    }
}

fn push_bg(out: &mut String, c: Color)
    ensures
        final(out)@ == old(out)@ + bg_code(c),
{
    match c {
        Color::Reset => push_str(out, ";49"),
        Color::Black => push_str(out, ";40"),
        Color::Red => push_str(out, ";41"),
        Color::Green => push_str(out, ";42"),
        Color::Yellow => push_str(out, ";43"),
        Color::Blue => push_str(out, ";44"),
        Color::Magenta => push_str(out, ";45"),
        Color::Cyan => push_str(out, ";46"),
        Color::White | Color::Gray => push_str(out, ";47"),
        Color::DarkGray | Color::BrightBlack => push_str(out, ";100"),
        Color::LightRed | Color::BrightRed => push_str(out, ";101"),
        Color::LightGreen | Color::BrightGreen => push_str(out, ";102"),
        Color::LightYellow | Color::BrightYellow => push_str(out, ";103"),
        Color::LightBlue | Color::BrightBlue => push_str(out, ";104"),
        Color::LightMagenta | Color::BrightMagenta => push_str(out, ";105"),
        Color::LightCyan | Color::BrightCyan => push_str(out, ";106"),
        Color::BrightWhite => push_str(out, ";107"),
        Color::Indexed(i) => {
            let ghost start = out@;
            push_str(out, ";48;5;");
            push_decimal(out, i as u64);
            assert(out@ == start + (";48;5;"@ + dec(i as nat)));
        },
        Color::Rgb(r, g, b) => {
            let ghost start = out@;
            push_str(out, ";48;2;");
            push_rgb(out, r, g, b);
            assert(out@ == start + (";48;2;"@ + dec(r as nat) + ";"@ + dec(g as nat) + ";"@ + dec(b as nat)));
        },
    }
}

fn push_when(out: &mut String, b: bool, s: &str)
    ensures
        final(out)@ == old(out)@ + when(b, s@),
{
    if b {
        push_str(out, s);
    } else {
        assert(old(out)@ + Seq::<char>::empty() =~= old(out)@);
    }
}

/// Writers of VT100 control sequences.
pub struct Vt;

impl Vt {
    pub fn enter_alternate_screen(out: &mut String)
        ensures
            final(out)@ == old(out)@ + "\x1b[?1049h"@,
    {
        push_str(out, "\x1b[?1049h");
    }

    pub fn leave_alternate_screen(out: &mut String)
        ensures
            final(out)@ == old(out)@ + "\x1b[?1049l"@,
    {
        push_str(out, "\x1b[?1049l");
    }

    pub fn hide_cursor(out: &mut String)
        ensures
            final(out)@ == old(out)@ + "\x1b[?25l"@,
    {
        push_str(out, "\x1b[?25l");
    }

    pub fn show_cursor(out: &mut String)
        ensures
            final(out)@ == old(out)@ + "\x1b[?25h"@,
    {
        push_str(out, "\x1b[?25h");
    }

    /// Moves the cursor to a zero-based column and row (the sequence is one-based).
    pub fn move_cursor(out: &mut String, col: u16, row: u16)
        requires
            col < u16::MAX,
            row < u16::MAX,
        ensures
            final(out)@ == old(out)@ + cursor_to(col as nat, row as nat),
    {
        let ghost start = out@;
        push_str(out, "\x1b[");
        push_decimal(out, (row + 1) as u64);
        push_str(out, ";");
        push_decimal(out, (col + 1) as u64);
        push_str(out, "H");
        assert(out@ == start + cursor_to(col as nat, row as nat));
    }

    pub fn clear_screen(out: &mut String)
        ensures
            final(out)@ == old(out)@ + "\x1b[2J\x1b[H"@,
    {
        push_str(out, "\x1b[2J\x1b[H");
    }

    pub fn reset_style(out: &mut String)
        ensures
            final(out)@ == old(out)@ + "\x1b[0m"@,
    {
        push_str(out, "\x1b[0m");
    }

    /// Appends the SGR sequence that resets all attributes and then selects `style`.
    #[verifier::spinoff_prover]
    #[verifier::rlimit(40)]
    pub fn apply_style(out: &mut String, style: &Style)
        ensures
            final(out)@ == old(out)@ + sgr(*style),
    {
        let ghost start = out@;
        push_str(out, "\x1b[0");
        let ghost a = out@;
        push_flags(out, style);
        let ghost b = out@;
        match style.fg {
            Some(c) => push_fg(out, c),
            None => { assert(out@ =~= b + fg_part(*style)); },
        }
        let ghost c = out@;
        match style.bg {
            Some(col) => push_bg(out, col),
            None => { assert(out@ =~= c + bg_part(*style)); },
        }
        let ghost d = out@;
        push_char(out, 'm');
        assert(out@ =~= d + seq!['m']);
        assert(out@ =~= start + sgr(*style));
    }
}

fn push_flags(out: &mut String, style: &Style)
    ensures
        final(out)@ == old(out)@ + flag_codes(*style),
{
    let ghost start = out@;
    push_when(out, style.bold, ";1");
    push_when(out, style.dim, ";2");
    push_when(out, style.italic, ";3");
    push_when(out, style.underline, ";4");
    push_when(out, style.reverse, ";7");
    assert(out@ =~= start + flag_codes(*style));
}

/// Values that can become the text of a span or line.
pub trait IntoContent {
    spec fn content_view(&self) -> Seq<char>;

    fn into_content(self) -> (s: String)
        ensures
            s@ == self.content_view(),
    ;
}

impl IntoContent for String {
    open spec fn content_view(&self) -> Seq<char> {
        self@
    }

    fn into_content(self) -> (s: String) {
        self
    }
}

impl<'b> IntoContent for &'b str {
    open spec fn content_view(&self) -> Seq<char> {
        (*self)@
    }

    fn into_content(self) -> (s: String) {
        owned(self)
    }
}

/// A run of text drawn in one style.
#[derive(Debug)]
pub struct Span<'a> {
    pub content: String,
    pub style: Style,
    pub _marker: PhantomData<&'a ()>,
}

impl<'a> Span<'a> {
    pub fn raw<S: IntoContent>(content: S) -> (s: Span<'a>)
        ensures
            s.content@ == content.content_view(),
            s.style == plain_style(),
    {
        Span { content: content.into_content(), style: Style::new(), _marker: PhantomData }
    }

    pub fn styled<S: IntoContent>(content: S, style: Style) -> (s: Span<'a>)
        ensures
            s.content@ == content.content_view(),
            s.style == style,
    {
        Span { content: content.into_content(), style, _marker: PhantomData }
    }

    /// An independent copy of this span.
    pub fn duplicate(&self) -> (s: Span<'a>)
        ensures
            s.content@ == self.content@,
            s.style == self.style,
    {
        Span { content: self.content.clone(), style: self.style, _marker: PhantomData }
    }
}

impl<'a> Clone for Span<'a> {
    fn clone(&self) -> Self {
        self.duplicate()
    }
}

/// The text of a sequence of spans, concatenated.
pub open spec fn spans_text<'a>(spans: Seq<Span<'a>>) -> Seq<char>
    decreases spans.len(),
{
    if spans.len() == 0 {
        Seq::empty()
    } else {
        spans_text(spans.drop_last()) + spans.last().content@
    }
}

/// The text of a single span.
pub proof fn lemma_spans_text_one<'a>(spans: Seq<Span<'a>>)
    requires
        spans.len() == 1,
    ensures
        spans_text(spans) == spans[0].content@,
{
    assert(spans.drop_last() =~= Seq::<Span<'a>>::empty());
    assert(spans_text(spans.drop_last()) =~= Seq::<char>::empty());
    assert(Seq::<char>::empty() + spans[0].content@ =~= spans[0].content@);
}

/// Appending a span appends its text.
pub proof fn lemma_spans_text_push<'a>(spans: Seq<Span<'a>>, s: Span<'a>)
    ensures
        spans_text(spans.push(s)) == spans_text(spans) + s.content@,
{
    assert(spans.push(s).drop_last() =~= spans);
}

/// Text of a concatenation of span sequences.
pub proof fn lemma_spans_text_concat<'a>(a: Seq<Span<'a>>, b: Seq<Span<'a>>)
    ensures
        spans_text(a + b) == spans_text(a) + spans_text(b),
    decreases b.len(),
{
    if b.len() == 0 {
        assert(a + b =~= a);
        assert(spans_text(b) =~= Seq::<char>::empty());
        assert(spans_text(a) + Seq::<char>::empty() =~= spans_text(a));
    } else {
        lemma_spans_text_concat(a, b.drop_last());
        assert((a + b).drop_last() =~= a + b.drop_last());
        assert(spans_text(a) + spans_text(b.drop_last()) + b.last().content@ =~= spans_text(a) + (spans_text(b.drop_last()) + b.last().content@));
    }
}

/// A line of styled spans.
#[derive(Debug)]
pub struct Line<'a> {
    pub spans: Vec<Span<'a>>,
    pub _marker: PhantomData<&'a ()>,
}

impl<'a> Default for Line<'a> {
    fn default() -> (l: Line<'a>)
        ensures
            l.spans@.len() == 0,
    {
        Line::new()
    }
}

impl<'a> Clone for Line<'a> {
    fn clone(&self) -> Self {
        self.duplicate()
    }
}

impl<'a> Line<'a> {
    pub fn new() -> (l: Line<'a>)
        ensures
            l.spans@.len() == 0,
    {
        Line { spans: Vec::new(), _marker: PhantomData }
    }

    pub fn from_spans(spans: Vec<Span<'a>>) -> (l: Line<'a>)
        ensures
            l.spans@ == spans@,
    {
        Line { spans, _marker: PhantomData }
    }

    /// A line holding one unstyled span.
    pub fn from<S: IntoContent>(s: S) -> (l: Line<'a>)
        ensures
            l.spans@.len() == 1,
            l.spans@[0].content@ == s.content_view(),
            l.spans@[0].style == plain_style(),
    {
        let mut spans = Vec::new();
        spans.push(Span::raw(s));
        Line { spans, _marker: PhantomData }
    }

    /// A line holding the given span.
    pub fn from_span(span: Span<'a>) -> (l: Line<'a>)
        ensures
            l.spans@ == seq![span],
    {
        let mut spans = Vec::new();
        spans.push(span);
        Line { spans, _marker: PhantomData }
    }

    pub fn push(&mut self, span: Span<'a>)
        ensures
            final(self).spans@ == old(self).spans@.push(span),
    {
        self.spans.push(span);
    }

    /// An independent copy of this line.
    pub fn duplicate(&self) -> (l: Line<'a>)
        ensures
            l.spans@.len() == self.spans@.len(),
            forall|i: int| 0 <= i < self.spans@.len() ==> (#[trigger] l.spans@[i]).content@ == self.spans@[i].content@
                && l.spans@[i].style == self.spans@[i].style,
            spans_text(l.spans@) == spans_text(self.spans@),
    {
        let mut spans: Vec<Span<'a>> = Vec::new();
        let mut i: usize = 0;
        while i < self.spans.len()
            invariant
                i <= self.spans@.len(),
                spans@.len() == i,
                forall|k: int| 0 <= k < i ==> (#[trigger] spans@[k]).content@ == self.spans@[k].content@
                    && spans@[k].style == self.spans@[k].style,
                spans_text(spans@) == spans_text(self.spans@.subrange(0, i as int)),
            decreases self.spans@.len() - i,
        {
            let s = self.spans[i].duplicate();
            let ghost before = spans@;
            spans.push(s);
            assert(spans@.drop_last() == before);
            assert(self.spans@.subrange(0, i + 1).drop_last() =~= self.spans@.subrange(0, i as int));
            i += 1;
        }
        assert(self.spans@.subrange(0, self.spans@.len() as int) =~= self.spans@);
        Line { spans, _marker: PhantomData }
    }

    /// The line's text: its spans' contents concatenated.
    pub fn to_string(&self) -> (s: String)
        ensures
            s@ == spans_text(self.spans@),
    {
        let mut out = String::new();
        let mut i: usize = 0;
        while i < self.spans.len()
            invariant
                i <= self.spans@.len(),
                out@ == spans_text(self.spans@.subrange(0, i as int)),
            decreases self.spans@.len() - i,
        {
            push_str(&mut out, self.spans[i].content.as_str());
            assert(self.spans@.subrange(0, i + 1).drop_last() =~= self.spans@.subrange(0, i as int));
            i += 1;
        }
        assert(self.spans@.subrange(0, self.spans@.len() as int) =~= self.spans@);
        out
    }
}

} // verus!
