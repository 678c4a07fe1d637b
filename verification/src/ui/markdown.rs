//! Markdown of assistant replies as styled spans: headings, lists, quotes,
//! rules, tables, fenced code blocks and inline code and bold text.
use vstd::prelude::*;
use super::engine::vt::{Span, Style, Color, plain_style};
use super::engine::widgets::span_views;
use crate::text::{chars_of, has_prefix, is_ws, is_whitespace, string_of};
use crate::textops::{find_seq, lemma_find_seq, find_from, index_of, lemma_index_of, index_of_char, sub_vec,
    trim_ws, trim_start_ws, trim_end_ws, pieces};

verus! {

/// A span's text and style.
pub type SpanView = (Seq<char>, Style);

/// Inline code: bold yellow.
pub open spec fn code_inline_style() -> Style {
    Style { fg: Some(Color::Yellow), bold: true, ..plain_style() }
}

/// A fenced code block: bold light yellow on a dark background.
pub open spec fn code_block_style() -> Style {
    Style { fg: Some(Color::LightYellow), bg: Some(Color::Rgb(30, 30, 30)), bold: true, ..plain_style() }
}

/// A heading: bold cyan.
pub open spec fn heading_style() -> Style {
    Style { fg: Some(Color::Cyan), bold: true, ..plain_style() }
}

/// A text in a color.
pub open spec fn colored(c: Color) -> Style {
    Style { fg: Some(c), ..plain_style() }
}

/// Text with `**bold**` runs: each closed pair of `**` marks the text between
/// them bold; text outside them, and an unclosed `**`, keeps `base`.
pub open spec fn md_styling(t: Seq<char>, base: Style) -> Seq<SpanView>
    decreases t.len(),
{
    if t.len() == 0 {
        Seq::empty()
    } else {
        match find_seq(t, "**"@, 0) {
            Some(s) => match find_seq(t, "**"@, s + 2) {
                Some(e) => {
                    proof {
                        lemma_two_stars();
                        lemma_find_seq(t, "**"@, 0);
                        lemma_find_seq(t, "**"@, s + 2);
                    }
                    let before = t.subrange(0, s);
                    (if before.len() > 0 { seq![(before, base)] } else { Seq::empty() })
                        + seq![(t.subrange(s + 2, e), Style { bold: true, ..base })]
                        + md_styling(t.subrange(e + 2, t.len() as int), base)
                },
                None => seq![(t, base)],
            },
            None => seq![(t, base)],
        }
    }
}

/// Text with `` `code` `` runs: each closed pair of backticks marks inline
/// code; the text around them is styled with `md_styling`.
pub open spec fn md_inline(t: Seq<char>, base: Style) -> Seq<SpanView>
    decreases t.len(),
{
    if t.len() == 0 {
        Seq::empty()
    } else {
        let s = index_of(t, '`', 0);
        proof { lemma_index_of(t, '`', 0); }
        if s < t.len() {
            let e = index_of(t, '`', s + 1);
            proof { lemma_index_of(t, '`', s + 1); }
            if e < t.len() {
                md_styling(t.subrange(0, s), base) + seq![(t.subrange(s + 1, e), code_inline_style())]
                    + md_inline(t.subrange(e + 1, t.len() as int), base)
            } else {
                md_styling(t, base)
            }
        } else {
            md_styling(t, base)
        }
    }
}

/// The bold marker is two asterisks.
pub proof fn lemma_two_stars()
    ensures
        "**"@ == seq!['*', '*'],
{
    reveal_strlit("**");
}

fn styling_exec(t: &Vec<char>, base: Style, out: &mut Vec<Span<'static>>)
    ensures
        span_views(final(out)@) == span_views(old(out)@) + md_styling(t@, base),
    decreases t@.len(),
{
    if t.len() == 0 {
        assert(span_views(out@) + Seq::<SpanView>::empty() =~= span_views(out@));
        return;
    }
    let stars = chars_of("**");
    proof { lemma_two_stars(); }
    match find_from(t.as_slice(), stars.as_slice(), 0) {
        Some(s) => {
            proof { lemma_find_seq(t@, "**"@, 0); }
            match find_from(t.as_slice(), stars.as_slice(), s + 2) {
                Some(e) => {
                    proof { lemma_find_seq(t@, "**"@, (s + 2) as int); }
                    let ghost before = span_views(out@);
                    if s > 0 {
                        out.push(Span::styled(string_of(t.as_slice(), 0, s), base));
                    }
                    let ghost lead = if s > 0 { seq![(t@.subrange(0, s as int), base)] } else { Seq::<SpanView>::empty() };
                    assert(span_views(out@) =~= before + lead);
                    out.push(Span::styled(string_of(t.as_slice(), s + 2, e), Style { bold: true, ..base }));
                    let ghost after = span_views(out@);
                    assert(after =~= before + lead + seq![(t@.subrange(s + 2, e as int), Style { bold: true, ..base })]);
                    let rest = sub_vec(t.as_slice(), e + 2, t.len());
                    styling_exec(&rest, base, out);
                    assert(span_views(out@) =~= before + (lead
                        + seq![(t@.subrange(s + 2, e as int), Style { bold: true, ..base })] + md_styling(rest@, base)));
                },
                None => {
                    let ghost before = span_views(out@);
                    out.push(Span::styled(string_of(t.as_slice(), 0, t.len()), base));
                    assert(t@.subrange(0, t@.len() as int) =~= t@);
                    assert(span_views(out@) =~= before + seq![(t@, base)]);
                },
            }
        },
        None => {
            let ghost before = span_views(out@);
            out.push(Span::styled(string_of(t.as_slice(), 0, t.len()), base));
            assert(t@.subrange(0, t@.len() as int) =~= t@);
            assert(span_views(out@) =~= before + seq![(t@, base)]);
        },
    }
}

fn inline_exec(t: &Vec<char>, base: Style, out: &mut Vec<Span<'static>>)
    ensures
        span_views(final(out)@) == span_views(old(out)@) + md_inline(t@, base),
    decreases t@.len(),
{
    if t.len() == 0 {
        assert(span_views(out@) + Seq::<SpanView>::empty() =~= span_views(out@));
        return;
    }
    let s = index_of_char(t.as_slice(), '`', 0);
    proof { lemma_index_of(t@, '`', 0); }
    if s < t.len() {
        let e = index_of_char(t.as_slice(), '`', s + 1);
        proof { lemma_index_of(t@, '`', (s + 1) as int); }
        if e < t.len() {
            let ghost before = span_views(out@);
            let head = sub_vec(t.as_slice(), 0, s);
            styling_exec(&head, base, out);
            out.push(Span::styled(string_of(t.as_slice(), s + 1, e), Style { fg: Some(Color::Yellow), bold: true, ..Style::new() }));
            let ghost mid = span_views(out@);
            assert(mid =~= before + md_styling(head@, base) + seq![(t@.subrange(s + 1, e as int), code_inline_style())]);
            let rest = sub_vec(t.as_slice(), e + 1, t.len());
            inline_exec(&rest, base, out);
            assert(span_views(out@) =~= before + (md_styling(head@, base)
                + seq![(t@.subrange(s + 1, e as int), code_inline_style())] + md_inline(rest@, base)));
            return;
        }
    }
    styling_exec(t, base, out);
}

/// Whether a text ends a row.
pub open spec fn ends_line(t: Seq<char>) -> bool {
    t.len() > 0 && t.last() == '\n'
}

/// `sep` after spans that do not already end a row; nothing before the
/// first block.
pub open spec fn block_sep(spans: Seq<SpanView>, sep: Seq<char>) -> Seq<SpanView> {
    if spans.len() == 0 || ends_line(spans.last().0) { spans } else { spans.push((sep, plain_style())) }
}

/// Where the first whitespace of `t` at or after `i` is (its length if none).
pub open spec fn first_ws(t: Seq<char>, i: int) -> int
    decreases t.len() - i,
{
    if i < 0 || i >= t.len() { t.len() as int } else if is_ws(t[i]) { i } else { first_ws(t, i + 1) }
}

/// A list number: digits and then a dot.
pub open spec fn list_number(w: Seq<char>) -> bool {
    w.len() > 0 && w.last() == '.' && forall|k: int| 0 <= k < w.len() - 1 ==> '0' <= #[trigger] w[k] <= '9'
}

/// The inside of a table's delimiter row: dashes, bars, colons and spaces only.
pub open spec fn table_delims(t: Seq<char>) -> bool {
    forall|k: int| 0 <= k < t.len() ==> (#[trigger] t[k] == '-' || t[k] == '|' || t[k] == ':' || t[k] == ' ')
}

/// Table cells, trimmed and separated by ` │ `.
pub open spec fn table_cells(cells: Seq<Seq<char>>, first: bool) -> Seq<SpanView>
    decreases cells.len(),
{
    if cells.len() == 0 {
        Seq::empty()
    } else {
        (if first { Seq::empty() } else { seq![(" │ "@, colored(Color::DarkGray))] })
            + md_inline(trim_ws(cells[0]), plain_style()) + table_cells(cells.drop_first(), false)
    }
}

/// A horizontal rule: forty `─`.
pub open spec fn rule_text() -> Seq<char> {
    Seq::new(40, |i: int| '─')
}

/// A heading: its icon and text in the heading style, as a block of its own.
pub open spec fn heading_spans(spans: Seq<SpanView>, icon: Seq<char>, rest: Seq<char>) -> Seq<SpanView> {
    block_sep(block_sep(spans, "\n\n"@).push((icon, heading_style())) + md_inline(rest, heading_style()), "\n"@)
}

/// The spans after a list item, list number, quote, table row or plain line
/// (see `md_line`).
pub open spec fn md_item(spans: Seq<SpanView>, line: Seq<char>, i: int) -> Seq<SpanView> {
    let ts = trim_start_ws(line);
    let fw = ts.subrange(0, first_ws(ts, 0));
    if has_prefix(ts, "- "@) || has_prefix(ts, "* "@) || has_prefix(ts, "+ "@) {
        block_sep(spans, "\n"@).push(("• "@, colored(Color::LightCyan))) + md_inline(ts.subrange(2, ts.len() as int), plain_style())
    } else if list_number(fw) {
        block_sep(spans, "\n"@).push(("• "@, colored(Color::LightCyan)))
            + md_inline(trim_start_ws(ts.subrange(fw.len() as int, ts.len() as int)), plain_style())
    } else if has_prefix(line, "> "@) {
        block_sep(spans, "\n"@).push(("▎ "@, colored(Color::Gray))) + md_inline(line.subrange(2, line.len() as int), colored(Color::Gray))
    } else if line.len() >= 2 && line[0] == '|' && line.last() == '|' {
        let inner = line.subrange(1, line.len() - 1);
        if table_delims(inner) {
            block_sep(spans, "\n"@).push(("├──────────────────────────┼──────────────────────────────────────────┤"@,
                colored(Color::DarkGray)))
        } else {
            block_sep(spans, "\n"@).push(("│ "@, colored(Color::DarkGray))) + table_cells(pieces(inner, '|'), true)
                + seq![(" │"@, colored(Color::DarkGray))]
        }
    } else {
        let s1 = if i > 0 && spans.len() > 0 && !ends_line(spans.last().0) { spans.push(("\n"@, plain_style())) } else { spans };
        s1 + md_inline(line, plain_style())
    }
}

/// The spans after a rule, a heading or another text line (see `md_item`).
pub open spec fn md_block(spans: Seq<SpanView>, line: Seq<char>, i: int) -> Seq<SpanView> {
    if has_prefix(line, "---"@) || has_prefix(line, "***"@) || has_prefix(line, "___"@) {
        block_sep(spans, "\n"@).push((rule_text(), colored(Color::DarkGray)))
    } else if has_prefix(line, "# "@) {
        heading_spans(spans, "◆ "@, line.subrange(2, line.len() as int))
    } else if has_prefix(line, "## "@) {
        heading_spans(spans, "◈ "@, line.subrange(3, line.len() as int))
    } else if has_prefix(line, "### "@) {
        heading_spans(spans, "▪ "@, line.subrange(4, line.len() as int))
    } else {
        md_item(spans, line, i)
    }
}

/// The spans, whether a code block is open, and its text so far, after line
/// `i` of a reply (trailing whitespace ignored): a fence opens or closes a
/// code block, lines inside one are collected, a blank line separates
/// blocks, and other lines render by `md_block`.
pub open spec fn md_line(st: (Seq<SpanView>, bool, Seq<char>), raw: Seq<char>, i: int) -> (Seq<SpanView>, bool, Seq<char>) {
    let line = trim_end_ws(raw);
    if has_prefix(line, "```"@) {
        if st.1 { (st.0.push((st.2, code_block_style())), false, Seq::empty()) } else { (st.0, true, Seq::empty()) }
    } else if st.1 {
        (st.0, true, (if st.2.len() > 0 { st.2.push('\n') } else { st.2 }) + line)
    } else if trim_ws(line).len() == 0 {
        (block_sep(st.0, "\n\n"@), false, st.2)
    } else {
        (md_block(st.0, line, i), false, st.2)
    }
}

/// The state after the first `n` lines of a reply.
pub open spec fn md_fold(lines: Seq<Seq<char>>, n: int) -> (Seq<SpanView>, bool, Seq<char>)
    decreases n,
{
    if n <= 0 { (Seq::empty(), false, Seq::empty()) } else { md_line(md_fold(lines, n - 1), lines[n - 1], n - 1) }
}

/// The spans of a reply's markdown (split on `\n`), a code block left open
/// closing it; nothing for a reply that renders to no span.
pub open spec fn markdown_spans(text: Seq<char>) -> Option<Seq<SpanView>> {
    let ls = pieces(text, '\n');
    let st = md_fold(ls, ls.len() as int);
    let spans = if st.1 && st.2.len() > 0 { st.0.push((st.2, code_block_style())) } else { st.0 };
    if spans.len() > 0 { Some(spans) } else { None }
}

/// A reply line reads as a table row of one bar outside a code block
/// (which has no inside to slice).
pub open spec fn lone_bar_row(lines: Seq<Seq<char>>, k: int) -> bool {
    trim_end_ws(lines[k]) == seq!['|'] && !md_fold(lines, k).1
}

fn prefix_is(l: &Vec<char>, p: &str) -> (b: bool)
    ensures
        b == has_prefix(l@, p@),
{
    let pv = chars_of(p);
    crate::text::starts_with(l.as_slice(), pv.as_slice())
}

fn push_block_sep(spans: &mut Vec<Span<'static>>, sep: &str)
    ensures
        span_views(final(spans)@) == block_sep(span_views(old(spans)@), sep@),
{
    let n = spans.len();
    if n == 0 {
        return;
    }
    let last = chars_of(spans[n - 1].content.as_str());
    assert(span_views(spans@).last() == (spans@[n - 1].content@, spans@[n - 1].style));
    if last.len() > 0 && last[last.len() - 1] == '\n' {
        return;
    }
    let ghost before = span_views(spans@);
    spans.push(Span::styled(sep, Style::new()));
    assert(span_views(spans@) =~= before.push((sep@, plain_style())));
}

fn push_span(spans: &mut Vec<Span<'static>>, t: String, style: Style)
    ensures
        span_views(final(spans)@) == span_views(old(spans)@).push((t@, style)),
{
    let ghost before = span_views(spans@);
    spans.push(Span::styled(t, style));
    assert(span_views(spans@) =~= before.push((t@, style)));
}

fn inline_of(spans: &mut Vec<Span<'static>>, v: &Vec<char>, a: usize, b: usize, base: Style)
    requires
        a <= b <= v@.len(),
    ensures
        span_views(final(spans)@) == span_views(old(spans)@) + md_inline(v@.subrange(a as int, b as int), base),
{
    let t = sub_vec(v.as_slice(), a, b);
    inline_exec(&t, base, spans);
}

fn heading_exec(spans: &mut Vec<Span<'static>>, icon: &str, l: &Vec<char>, k: usize)
    requires
        k <= l@.len(),
    ensures
        span_views(final(spans)@) == heading_spans(span_views(old(spans)@), icon@, l@.subrange(k as int, l@.len() as int)),
{
    let hs = Style { fg: Some(Color::Cyan), bold: true, ..Style::new() };
    push_block_sep(spans, "\n\n");
    push_span(spans, crate::text::owned(icon), hs);
    inline_of(spans, l, k, l.len(), hs);
    push_block_sep(spans, "\n");
}

fn table_exec(spans: &mut Vec<Span<'static>>, inner: &Vec<char>)
    ensures
        span_views(final(spans)@) == span_views(old(spans)@) + table_cells(pieces(inner@, '|'), true),
{
    let bounds = crate::textops::split_bounds(inner.as_slice(), '|', 0);
    assert(inner@.subrange(0, inner@.len() as int) =~= inner@);
    let ghost cells = pieces(inner@, '|');
    let ghost base = span_views(spans@);
    let mut k: usize = 0;
    assert(cells.skip(0) =~= cells);
    assert(base + Seq::<SpanView>::empty() =~= base);
    while k < bounds.len()
        invariant
            k <= bounds@.len(),
            bounds@.len() == cells.len(),
            cells == pieces(inner@, '|'),
            forall|j: int| 0 <= j < bounds@.len() ==> {
                &&& (#[trigger] bounds@[j]).0 <= bounds@[j].1 <= inner@.len()
                &&& inner@.subrange(bounds@[j].0 as int, bounds@[j].1 as int) == cells[j]
            },
            span_views(spans@) + table_cells(cells.skip(k as int), k == 0) == base + table_cells(cells, true),
        decreases bounds@.len() - k,
    {
        let ghost before = span_views(spans@);
        proof {
            assert(cells.skip(k as int)[0] == cells[k as int]);
            assert(cells.skip(k as int).drop_first() =~= cells.skip(k + 1));
        }
        let (c0, c1) = bounds[k];
        if k > 0 {
            push_span(spans, crate::text::owned(" │ "), Style { fg: Some(Color::DarkGray), ..Style::new() });
        }
        let (ta, tb) = crate::textops::trim_bounds(inner.as_slice(), c0, c1);
        inline_of(spans, inner, ta, tb, Style::new());
        proof {
            let lead = if k == 0 { Seq::<SpanView>::empty() } else { seq![(" │ "@, colored(Color::DarkGray))] };
            let mid = md_inline(trim_ws(cells[k as int]), plain_style());
            let rest = table_cells(cells.skip(k + 1), false);
            assert(span_views(spans@) =~= before + lead + mid);
            assert(before + (lead + mid + rest) =~= before + lead + mid + rest);
        }
        k += 1;
    }
    assert(cells.skip(k as int).len() == 0);
    assert(span_views(spans@) + Seq::<SpanView>::empty() =~= span_views(spans@));
}


/// The text of `r` without trailing whitespace.
fn trim_end_vec(r: &Vec<char>) -> (l: Vec<char>)
    ensures
        l@ == trim_end_ws(r@),
{
    let mut e = r.len();
    assert(r@.subrange(0, e as int) =~= r@);
    while e > 0 && is_whitespace(r[e - 1])
        invariant
            e <= r@.len(),
            trim_end_ws(r@.subrange(0, e as int)) == trim_end_ws(r@),
        decreases e,
    {
        assert(r@.subrange(0, e as int).drop_last() =~= r@.subrange(0, e - 1));
        e -= 1;
    }
    sub_vec(r.as_slice(), 0, e)
}

/// Where the first whitespace of `t` at or after `i` is.
fn first_ws_exec(t: &Vec<char>, i: usize) -> (r: usize)
    requires
        i <= t@.len(),
    ensures
        r == first_ws(t@, i as int),
        i <= r <= t@.len(),
{
    let mut j = i;
    while j < t.len() && !is_whitespace(t[j])
        invariant
            i <= j <= t@.len(),
            first_ws(t@, j as int) == first_ws(t@, i as int),
        decreases t@.len() - j,
    {
        j += 1;
    }
    j
}

fn list_number_exec(t: &Vec<char>, n: usize) -> (b: bool)
    requires
        n <= t@.len(),
    ensures
        b == list_number(t@.subrange(0, n as int)),
{
    if n == 0 || t[n - 1] != '.' {
        return false;
    }
    let mut k: usize = 0;
    while k < n - 1
        invariant
            k <= n - 1,
            n <= t@.len(),
            forall|j: int| 0 <= j < k ==> '0' <= #[trigger] t@.subrange(0, n as int)[j] <= '9',
        decreases n - 1 - k,
    {
        if !('0' <= t[k] && t[k] <= '9') {
            assert(t@.subrange(0, n as int)[k as int] == t@[k as int]);
            return false;
        }
        k += 1;
    }
    true
}

fn table_delims_exec(t: &Vec<char>) -> (b: bool)
    ensures
        b == table_delims(t@),
{
    let mut k: usize = 0;
    while k < t.len()
        invariant
            k <= t@.len(),
            forall|j: int| 0 <= j < k ==> (#[trigger] t@[j] == '-' || t@[j] == '|' || t@[j] == ':' || t@[j] == ' '),
        decreases t@.len() - k,
    {
        let c = t[k];
        if !(c == '-' || c == '|' || c == ':' || c == ' ') {
            return false;
        }
        k += 1;
    }
    true
}

fn rule_string() -> (s: String)
    ensures
        s@ == rule_text(),
{
    let mut s = String::new();
    let mut k: usize = 0;
    while k < 40
        invariant
            k <= 40,
            s@ == Seq::new(k as nat, |i: int| '─'),
        decreases 40 - k,
    {
        crate::text::push_char(&mut s, '─');
        assert(s@ =~= Seq::new((k + 1) as nat, |i: int| '─'));
        k += 1;
    }
    s
}

/// Renders a list item, list number, quote, table row or plain line (see `md_item`).
#[verifier::rlimit(40)]
fn md_item_exec(spans: &mut Vec<Span<'static>>, l: &Vec<char>, i: usize)
    ensures
        span_views(final(spans)@) == md_item(span_views(old(spans)@), l@, i as int),
{
    let n = l.len();
    assert(l@.subrange(0, n as int) =~= l@);
    let k0 = crate::repo::spec::trim_start_index(l.as_slice(), 0);
    let ts = sub_vec(l.as_slice(), k0, n);
    let fw = first_ws_exec(&ts, 0);
    let dg = Style { fg: Some(Color::DarkGray), ..Style::new() };
    proof { reveal_strlit("- "); reveal_strlit("* "); reveal_strlit("+ "); reveal_strlit("> "); }
    if prefix_is(&ts, "- ") || prefix_is(&ts, "* ") || prefix_is(&ts, "+ ") {
        push_block_sep(spans, "\n");
        push_span(spans, crate::text::owned("• "), Style { fg: Some(Color::LightCyan), ..Style::new() });
        inline_of(spans, &ts, 2, ts.len(), Style::new());
        return;
    }
    assert(ts@.subrange(0, fw as int) == ts@.subrange(0, first_ws(ts@, 0)));
    if list_number_exec(&ts, fw) {
        push_block_sep(spans, "\n");
        push_span(spans, crate::text::owned("• "), Style { fg: Some(Color::LightCyan), ..Style::new() });
        let r = crate::repo::spec::trim_start_index(ts.as_slice(), fw);
        inline_of(spans, &ts, r, ts.len(), Style::new());
        return;
    }
    if prefix_is(l, "> ") {
        let gray = Style { fg: Some(Color::Gray), ..Style::new() };
        push_block_sep(spans, "\n");
        push_span(spans, crate::text::owned("▎ "), gray);
        inline_of(spans, l, 2, n, gray);
        return;
    }
    if n >= 2 && l[0] == '|' && l[n - 1] == '|' {
        let inner = sub_vec(l.as_slice(), 1, n - 1);
        push_block_sep(spans, "\n");
        if table_delims_exec(&inner) {
            push_span(spans, crate::text::owned("├──────────────────────────┼──────────────────────────────────────────┤"), dg);
        } else {
            push_span(spans, crate::text::owned("│ "), dg);
            table_exec(spans, &inner);
            push_span(spans, crate::text::owned(" │"), dg);
        }
        return;
    }
    let sn = spans.len();
    if i > 0 && sn > 0 {
        let last = chars_of(spans[sn - 1].content.as_str());
        assert(span_views(spans@).last() == (spans@[sn - 1].content@, spans@[sn - 1].style));
        if !(last.len() > 0 && last[last.len() - 1] == '\n') {
            push_span(spans, crate::text::owned("\n"), Style::new());
        }
    }
    inline_of(spans, l, 0, n, Style::new());
}

/// Renders a rule, a heading or another text line (see `md_block`).
fn md_block_exec(spans: &mut Vec<Span<'static>>, l: &Vec<char>, i: usize)
    ensures
        span_views(final(spans)@) == md_block(span_views(old(spans)@), l@, i as int),
{
    proof { reveal_strlit("# "); reveal_strlit("## "); reveal_strlit("### "); }
    if prefix_is(l, "---") || prefix_is(l, "***") || prefix_is(l, "___") {
        push_block_sep(spans, "\n");
        push_span(spans, rule_string(), Style { fg: Some(Color::DarkGray), ..Style::new() });
    } else if prefix_is(l, "# ") {
        heading_exec(spans, "◆ ", l, 2);
    } else if prefix_is(l, "## ") {
        heading_exec(spans, "◈ ", l, 3);
    } else if prefix_is(l, "### ") {
        heading_exec(spans, "▪ ", l, 4);
    } else {
        md_item_exec(spans, l, i);
    }
}

/// Renders one line of a reply (see `md_line`).
fn md_line_exec(spans: &mut Vec<Span<'static>>, in_code: &mut bool, code: &mut String, raw: &Vec<char>, i: usize)
    ensures
        (span_views(final(spans)@), *final(in_code), final(code)@)
            == md_line((span_views(old(spans)@), *old(in_code), old(code)@), raw@, i as int),
{
    let l = trim_end_vec(raw);
    let n = l.len();
    assert(l@.subrange(0, n as int) =~= l@);
    if prefix_is(&l, "```") {
        if *in_code {
            let c = code.clone();
            push_span(spans, c, Style { fg: Some(Color::LightYellow), bg: Some(Color::Rgb(30, 30, 30)), bold: true, ..Style::new() });
            *code = String::new();
            *in_code = false;
        } else {
            *in_code = true;
            *code = String::new();
        }
        return;
    }
    if *in_code {
        if code.as_str().unicode_len() > 0 {
            crate::text::push_char(code, '\n');
        }
        let lt = string_of(l.as_slice(), 0, n);
        crate::text::push_str(code, lt.as_str());
        return;
    }
    let (ta, tb) = crate::textops::trim_bounds(l.as_slice(), 0, n);
    if ta == tb {
        push_block_sep(spans, "\n\n");
        return;
    }
    md_block_exec(spans, &l, i);
}

/// The styled spans of a reply's markdown, or nothing where it renders to no
/// span (see `markdown_spans`).
pub fn render_markdown_lines(text: &str) -> (r: Option<Vec<Span<'static>>>)
    requires
        forall|k: int| 0 <= k < pieces(text@, '\n').len() ==> !lone_bar_row(pieces(text@, '\n'), k),
    ensures
        match r {
            Some(v) => markdown_spans(text@) == Some(span_views(v@)),
            None => markdown_spans(text@) is None,
        },
{
    let v = chars_of(text);
    let bounds = crate::textops::split_bounds(v.as_slice(), '\n', 0);
    assert(v@.subrange(0, v@.len() as int) =~= v@);
    let ghost ls = pieces(text@, '\n');
    let mut spans: Vec<Span<'static>> = Vec::new();
    let mut in_code = false;
    let mut code = String::new();
    let mut i: usize = 0;
    assert(span_views(spans@) =~= Seq::<SpanView>::empty());
    while i < bounds.len()
        invariant
            i <= bounds@.len(),
            bounds@.len() == ls.len(),
            ls == pieces(v@, '\n'),
            forall|j: int| 0 <= j < bounds@.len() ==> {
                &&& (#[trigger] bounds@[j]).0 <= bounds@[j].1 <= v@.len()
                &&& v@.subrange(bounds@[j].0 as int, bounds@[j].1 as int) == ls[j]
            },
            (span_views(spans@), in_code, code@) == md_fold(ls, i as int),
        decreases bounds@.len() - i,
    {
        let (a, b) = bounds[i];
        let raw = sub_vec(v.as_slice(), a, b);
        md_line_exec(&mut spans, &mut in_code, &mut code, &raw, i);
        i += 1;
    }
    if in_code && code.as_str().unicode_len() > 0 {
        push_span(&mut spans, code, Style { fg: Some(Color::LightYellow), bg: Some(Color::Rgb(30, 30, 30)), bold: true, ..Style::new() });
    }
    if spans.len() > 0 {
        Some(spans)
    } else {
        None
    }
}


} // verus!
