//! Truncation of styled lines to a terminal display width, on grapheme
//! boundaries and keeping each span's style.
use vstd::prelude::*;
use crate::ui::engine::vt::{Line, Span, Style, spans_text, lemma_spans_text_push};
use crate::ui::width::{width_of, display_width, greedy_end, greedy_prefix, lemma_greedy, lemma_width_concat, lemma_width_bound};
use crate::text::{chars_of, string_of};

verus! {

/// A span's text and style.
pub open spec fn span_view<'a>(s: Span<'a>) -> (Seq<char>, Style) {
    (s.content@, s.style)
}

/// The text and style of each span of a sequence.
pub open spec fn spans_view<'a>(spans: Seq<Span<'a>>) -> Seq<(Seq<char>, Style)> {
    spans.map_values(|s: Span<'a>| span_view(s))
}

/// The spans kept when truncating from span `k` with `used` columns already
/// taken: zero-width spans are always kept; a span that fits is kept whole; the
/// first one that does not fit keeps its longest fitting grapheme prefix (if
/// non-empty) and ends the line.
pub open spec fn truncated<'a>(spans: Seq<Span<'a>>, k: int, used: int, max: int) -> Seq<(Seq<char>, Style)>
    decreases spans.len() - k,
{
    if k < 0 || k >= spans.len() {
        Seq::empty()
    } else {
        let c = spans[k].content@;
        let w = width_of(c) as int;
        if w == 0 {
            seq![(c, spans[k].style)] + truncated(spans, k + 1, used, max)
        } else if used >= max {
            Seq::empty()
        } else if used + w <= max {
            seq![(c, spans[k].style)] + truncated(spans, k + 1, used + w, max)
        } else {
            let e = greedy_end(c, 0, used, max, false);
            if e > 0 { seq![(c.subrange(0, e), spans[k].style)] } else { Seq::empty() }
        }
    }
}

/// The display width of a line.
pub fn line_width(line: &Line) -> (w: usize)
    requires
        spans_text(line.spans@).len() <= usize::MAX / 2,
    ensures
        w == width_of(spans_text(line.spans@)),
{
    let mut w: usize = 0;
    let mut i: usize = 0;
    while i < line.spans.len()
        invariant
            i <= line.spans@.len(),
            spans_text(line.spans@).len() <= usize::MAX / 2,
            w == width_of(spans_text(line.spans@.subrange(0, i as int))),
        decreases line.spans@.len() - i,
    {
        proof {
            assert(line.spans@.subrange(0, i + 1) =~= line.spans@.subrange(0, i as int).push(line.spans@[i as int]));
            lemma_spans_text_push(line.spans@.subrange(0, i as int), line.spans@[i as int]);
            lemma_width_concat(spans_text(line.spans@.subrange(0, i as int)), line.spans@[i as int].content@);
            lemma_prefix_text_len(line.spans@, i as int + 1);
            lemma_width_bound(spans_text(line.spans@.subrange(0, i + 1)));
        }
        w = w + display_width(line.spans[i].content.as_str());
        i += 1;
    }
    assert(line.spans@.subrange(0, line.spans@.len() as int) =~= line.spans@);
    w
}

/// The text of a prefix of spans is no longer than the whole text.
pub proof fn lemma_prefix_text_len<'a>(spans: Seq<Span<'a>>, j: int)
    requires
        0 <= j <= spans.len(),
    ensures
        spans_text(spans.subrange(0, j)).len() <= spans_text(spans).len(),
    decreases spans.len() - j,
{
    if j < spans.len() {
        lemma_prefix_text_len(spans, j + 1);
        assert(spans.subrange(0, j + 1).drop_last() =~= spans.subrange(0, j));
    } else {
        assert(spans.subrange(0, j) =~= spans);
    }
}

/// Truncates a line to `max_width` columns (see `truncated`); a zero width gives an empty line.
pub fn truncate_line_to_width<'a>(line: Line<'a>, max_width: usize) -> (out: Line<'a>)
    requires
        forall|i: int| 0 <= i < line.spans@.len() ==> (#[trigger] line.spans@[i]).content@.len() <= usize::MAX / 2,
    ensures
        max_width == 0 ==> out.spans@.len() == 0,
        max_width > 0 ==> spans_view(out.spans@) == truncated(line.spans@, 0, 0, max_width as int),
{
    if max_width == 0 {
        return Line::new();
    }
    let ghost orig = line.spans@;
    let mut spans = line.spans;
    let mut used: usize = 0;
    let mut out: Vec<Span<'a>> = Vec::new();
    let mut k: usize = 0;
    let n = spans.len();
    while k < n
        invariant
            n == orig.len(),
            orig == line.spans@,
            max_width > 0,
            k <= n,
            spans@ == orig.subrange(k as int, n as int),
            used <= max_width,
            forall|i: int| 0 <= i < orig.len() ==> (#[trigger] orig[i]).content@.len() <= usize::MAX / 2,
            spans_view(out@) + truncated(orig, k as int, used as int, max_width as int) == truncated(orig, 0, 0, max_width as int),
        decreases n - k,
    {
        let span = spans.remove(0);
        assert(orig.subrange(k as int, n as int).subrange(1, (n - k) as int) =~= orig.subrange(k + 1, n as int));
        assert(span == orig[k as int]);
        let w = display_width(span.content.as_str());
        let ghost rest = truncated(orig, k + 1, used as int, max_width as int);
        if w == 0 {
            let ghost before = spans_view(out@);
            out.push(span);
            assert(spans_view(out@) =~= before.push(span_view(orig[k as int])));
            assert(before.push(span_view(orig[k as int])) + rest =~= before + (seq![span_view(orig[k as int])] + rest));
            k += 1;
            continue;
        }
        if used >= max_width {
            assert(spans_view(out@) + Seq::empty() =~= spans_view(out@));
            return Line::from_spans(out);
        }
        if w <= max_width - used {
            let ghost before = spans_view(out@);
            let ghost rest2 = truncated(orig, k + 1, used + w, max_width as int);
            out.push(span);
            assert(spans_view(out@) =~= before.push(span_view(orig[k as int])));
            assert(before.push(span_view(orig[k as int])) + rest2 =~= before + (seq![span_view(orig[k as int])] + rest2));
            used = used + w;
            k += 1;
            continue;
        }
        let chars = chars_of(span.content.as_str());
        assert(chars@ == orig[k as int].content@);
        let (end, _) = greedy_prefix(chars.as_slice(), 0, used, max_width, false);
        proof { lemma_greedy(chars@, 0, used as int, max_width as int, false); }
        let ghost before = spans_view(out@);
        if end > 0 {
            let piece = Span::styled(string_of(chars.as_slice(), 0, end), span.style);
            out.push(piece);
            assert(spans_view(out@) =~= before.push((chars@.subrange(0, end as int), span.style)));
            assert(before.push((chars@.subrange(0, end as int), span.style)) =~= before + seq![(chars@.subrange(0, end as int), span.style)]);
        } else {
            assert(before + Seq::empty() =~= before);
        }
        return Line::from_spans(out);
    }
    assert(spans_view(out@) + Seq::empty() =~= spans_view(out@));
    Line::from_spans(out)
}

/// Truncates a line to `max_width` columns and appends `…` (in the last kept
/// span's style) when the line is wider; a line that fits is returned unchanged.
pub fn truncate_line_with_ellipsis_if_overflow<'a>(line: Line<'a>, max_width: usize) -> (out: Line<'a>)
    requires
        spans_text(line.spans@).len() <= usize::MAX / 2,
        forall|i: int| 0 <= i < line.spans@.len() ==> (#[trigger] line.spans@[i]).content@.len() <= usize::MAX / 2,
    ensures
        max_width == 0 ==> out.spans@.len() == 0,
        max_width > 0 && width_of(spans_text(line.spans@)) <= max_width ==> out.spans@ == line.spans@,
        max_width > 0 && width_of(spans_text(line.spans@)) > max_width ==> {
            let kept = truncated(line.spans@, 0, 0, max_width - 1);
            &&& max_width - 1 == 0 ==> spans_view(out.spans@) == seq![("…"@, Style::default_spec())]
            &&& max_width - 1 > 0 ==> spans_view(out.spans@) == kept.push(("…"@,
                if kept.len() > 0 { kept.last().1 } else { Style::default_spec() }))
        },
{
    if max_width == 0 {
        return Line::new();
    }
    if line_width(&line) <= max_width {
        return line;
    }
    let truncated_line = truncate_line_to_width(line, max_width - 1);
    let mut spans = truncated_line.spans;
    let style = if spans.len() > 0 { spans[spans.len() - 1].style } else { Style::new() };
    let ghost before = spans_view(spans@);
    spans.push(Span::styled("…", style));
    assert(spans_view(spans@) =~= before.push(("…"@, style)));
    Line::from_spans(spans)
}

} // verus!
