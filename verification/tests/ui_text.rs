use cki::textops::to_lowercase;
use cki::tools::sandbox::to_uppercase;
use cki::ui::engine::framebuffer::Framebuffer;
use cki::ui::engine::vt::{Color, Line, Span, Style};
use cki::ui::line_truncation::{line_width, truncate_line_to_width, truncate_line_with_ellipsis_if_overflow};
use cki::ui::live_wrap::{take_prefix_by_width, Row, RowBuilder};
use cki::ui::width::{char_width, display_width, usable_content_width};

fn line(text: &str) -> Line<'static> {
    Line::from(text.to_string())
}

#[test]
fn display_width_matches_ratatui_halfwidth_sound_marks_without_overflow() {
    assert_eq!(display_width("ｶﾞﾊﾟ"), 4);
    assert_eq!(display_width("ｶﾞﾞ"), 3);
    assert_eq!(display_width("界ﾞ"), 3);
    assert_eq!(char_width('\u{FF9E}'), 1);
    assert_eq!(char_width('\u{FF9F}'), 1);

    let text = "a".repeat(65_536);
    assert_eq!(display_width(&text), 65_536);
}

#[test]
fn display_width_counts_wide_chars_as_two_columns() {
    assert_eq!(display_width("olá"), 3);
    assert_eq!(display_width("mundo"), 5);
    assert_eq!(display_width("界"), 2);
}

#[test]
fn usable_content_width_returns_none_when_reserved_exhausts_width() {
    assert_eq!(usable_content_width(0, 0), None);
    assert_eq!(usable_content_width(2, 2), None);
    assert_eq!(usable_content_width(3, 4), None);
    assert_eq!(usable_content_width(5, 4), Some(1));
}

#[test]
fn line_width_sums_span_widths() {
    let styled = Line::from_spans(vec![
        Span::raw("olá"),
        Span::styled("界", Style::default().fg(Color::Red)),
    ]);
    assert_eq!(line_width(&styled), 5);
}

#[test]
fn truncate_line_to_width_respects_grapheme_boundaries() {
    let out = truncate_line_to_width(line("abcdefgh"), 4);
    assert_eq!(out.to_string(), "abcd");
}

#[test]
fn truncate_line_to_width_handles_wide_chars() {
    let out = truncate_line_to_width(line("a界b"), 3);
    assert_eq!(out.to_string(), "a界");
}

#[test]
fn truncate_line_to_width_zero_is_empty() {
    let out = truncate_line_to_width(line("abc"), 0);
    assert!(out.spans.is_empty());
}

#[test]
fn truncate_line_to_width_preserves_span_styles() {
    let styled = Line::from_spans(vec![Span::styled("abcde", Style::default().fg(Color::Red))]);
    let out = truncate_line_to_width(styled, 3);
    assert_eq!(out.to_string(), "abc");
    assert_eq!(out.spans.first().map(|s| s.style.fg), Some(Some(Color::Red)));
}

#[test]
fn ellipsis_only_when_overflowing() {
    let short = truncate_line_with_ellipsis_if_overflow(line("short"), 10);
    assert_eq!(short.to_string(), "short");
}

#[test]
fn ellipsis_appended_on_overflow() {
    let out = truncate_line_with_ellipsis_if_overflow(line("abcdefghijklmnop"), 8);
    assert_eq!(out.to_string(), "abcdefg…");
}

#[test]
fn ellipsis_takes_last_kept_span_style() {
    let styled = Line::from_spans(vec![Span::styled("abcdef", Style::default().fg(Color::Green))]);
    let out = truncate_line_with_ellipsis_if_overflow(styled, 4);
    assert_eq!(out.to_string(), "abc…");
    assert_eq!(out.spans.last().map(|s| s.style.fg), Some(Some(Color::Green)));
    let one = truncate_line_with_ellipsis_if_overflow(line("abc"), 1);
    assert_eq!(one.to_string(), "…");
}

#[test]
fn truncation_keeps_zero_width_spans_and_cuts_mid_span() {
    let styled = Line::from_spans(vec![Span::raw("ab"), Span::raw(""), Span::raw("cde")]);
    let out = truncate_line_to_width(styled, 3);
    assert_eq!(out.spans.len(), 3);
    assert_eq!(out.to_string(), "abc");
}

#[test]
fn rows_do_not_exceed_width_ascii() {
    let mut rb = RowBuilder::new(10);
    rb.push_fragment("hello whirl this is a test");
    let rows = rb.rows().to_vec();
    assert_eq!(
        rows,
        vec![
            Row { text: "hello whir".to_string(), explicit_break: false },
            Row { text: "l this is ".to_string(), explicit_break: false }
        ]
    );
}

#[test]
fn rows_do_not_exceed_width_emoji_cjk() {
    let mut rb = RowBuilder::new(6);
    rb.push_fragment("😀😀 你好");
    let rows = rb.rows().to_vec();
    assert_eq!(rows, vec![Row { text: "😀😀 ".to_string(), explicit_break: false }]);
}

#[test]
fn halfwidth_sound_marks_stay_with_their_grapheme_when_wrapping() {
    assert_eq!(take_prefix_by_width("abｶﾞc", 3), ("ab".to_string(), "ｶﾞc".to_string(), 2));
    assert_eq!(take_prefix_by_width("abｶﾞc", 4), ("abｶﾞ".to_string(), "c".to_string(), 4));

    let mut row_builder = RowBuilder::new(1);
    row_builder.push_fragment("ｶﾞx");
    assert_eq!(row_builder.rows()[0].text, "ｶﾞ");
}

#[test]
fn fragmentation_invariance_long_token() {
    let s = "ABCDEFGHIJKLMNOPQRSTUVWXYZ";
    let mut rb_all = RowBuilder::new(7);
    rb_all.push_fragment(s);
    let all_rows = rb_all.rows().to_vec();

    let mut rb_chunks = RowBuilder::new(7);
    for i in (0..s.len()).step_by(3) {
        let end = (i + 3).min(s.len());
        rb_chunks.push_fragment(&s[i..end]);
    }
    let chunk_rows = rb_chunks.rows().to_vec();

    assert_eq!(all_rows, chunk_rows);
}

#[test]
fn newline_splits_rows() {
    let mut rb = RowBuilder::new(10);
    rb.push_fragment("hello\nworld");
    let rows = rb.display_rows();
    assert!(rows.iter().any(|r| r.explicit_break));
    assert_eq!(rows[0].text, "hello");
    assert!(rows.iter().any(|r| r.text.starts_with("world")));
}

#[test]
fn rewrap_on_width_change() {
    let mut rb = RowBuilder::new(10);
    rb.push_fragment("abcdefghijK");
    assert!(!rb.rows().is_empty());
    rb.set_width(5);
    for r in rb.rows() {
        assert!(r.width() <= 5);
    }
}

#[test]
fn drain_commit_ready_keeps_newest_rows() {
    let mut rb = RowBuilder::new(3);
    rb.push_fragment("aaaa\nbbbb\ncccc");
    let drained = rb.drain_commit_ready(3);
    assert_eq!(drained.len(), 3);
    assert_eq!(rb.rows().len(), 2);
}

#[test]
fn wide_grapheme_gets_its_own_row_when_width_is_one() {
    let mut rb = RowBuilder::new(1);
    rb.push_fragment("界a");
    assert_eq!(rb.rows()[0].text, "界");
    assert_eq!(rb.display_rows().len(), 2);
    let mut zero = RowBuilder::new(0);
    zero.push_fragment("ab");
    assert_eq!(zero.rows()[0].text, "a");
}

#[test]
fn fragments_with_newlines_match_whole_text() {
    let text = "one two\nthree four five\n\nsix";
    let mut whole = RowBuilder::new(4);
    whole.push_fragment(text);
    let mut parts = RowBuilder::new(4);
    parts.push_fragment("one t");
    parts.push_fragment("wo\nthree fo");
    parts.push_fragment("ur five\n");
    parts.push_fragment("\nsix");
    assert_eq!(whole.display_rows(), parts.display_rows());
}

#[test]
fn test_framebuffer_diff_rendering() {
    let mut fb = Framebuffer::new(10, 5);
    fb.print_str(0, 0, "Hello", Style::default());

    let mut output = Vec::new();
    fb.flush(&mut output).unwrap();
    let rendered = String::from_utf8(output).unwrap();
    assert!(rendered.contains("Hello"));

    let mut second = Vec::new();
    fb.flush(&mut second).unwrap();
    let rendered2 = String::from_utf8(second).unwrap();
    assert!(!rendered2.contains("Hello"));
}

fn display_texts(rb: &RowBuilder) -> Vec<String> {
    rb.display_rows().into_iter().map(|r| r.text).collect()
}

#[test]
fn fragments_that_split_zero_width_or_wide_graphemes_wrap_differently() {
    // A zero-width character fed alone at width 1 takes no column, so it is
    // cut off as a row of its own before the next fragment arrives.
    let mut split = RowBuilder::new(1);
    split.push_fragment("\u{200B}");
    split.push_fragment("a");
    let mut joined = RowBuilder::new(1);
    joined.push_fragment("\u{200B}a");
    assert_eq!(display_texts(&split), vec!["\u{200B}", "a"]);
    assert_eq!(display_texts(&joined), vec!["\u{200B}a"]);

    // A wide character fed alone at width 1 becomes a row at once, so a
    // combining mark that follows in the next fragment cannot join it.
    let mut split = RowBuilder::new(1);
    split.push_fragment("漢");
    split.push_fragment("\u{301}");
    let mut joined = RowBuilder::new(1);
    joined.push_fragment("漢\u{301}");
    assert_eq!(display_texts(&split), vec!["漢", "\u{301}"]);
    assert_eq!(display_texts(&joined), vec!["漢\u{301}"]);
}

#[test]
fn ascii_case_mapping() {
    assert_eq!(to_lowercase("Hello, World-42"), "hello, world-42");
    assert_eq!(to_uppercase("Hello, World-42"), "HELLO, WORLD-42");
    assert_eq!(to_lowercase("ÁRVORE"), "árvore");
}

#[test]
fn zero_width_characters_inside_fragments_keep_fragmentation_invariance() {
    let pieces = ["a\u{200B}b", "\u{200B}cd\u{200B}e", "f\ng\u{200B}h"];
    let mut split = RowBuilder::new(2);
    for p in pieces {
        split.push_fragment(p);
    }
    let mut joined = RowBuilder::new(2);
    joined.push_fragment(&pieces.concat());
    assert_eq!(split.rows().to_vec(), joined.rows().to_vec());
    assert_eq!(display_texts(&split), display_texts(&joined));
}
