use cki::ui::diff_render::{diff_lines, style_diff_line};
use cki::ui::engine::event::{KeyCode, KeyEvent, KeyModifiers};
use cki::ui::engine::vt::{Color, Line, Span};
use cki::ui::file_search::{fuzzy_match, highlight_segments, is_ignored_dir, search_files};
use cki::ui::pager_overlay::{PagerAction, PagerOverlay};
use cki::ui::width::display_width;
use cki::ui::{
    char_index_to_byte_index, count_wrapped_lines, display_role, expand_multiline_spans, extract_tool_name,
    format_elapsed, format_elapsed_secs, sanitize_status, strip_ansi_and_controls, truncate_str, InfoPanelSection,
    status_message_lines,
};
use std::time::Duration;

#[test]
fn classifies_diff_line_prefixes() {
    assert_eq!(style_diff_line("@@ -1,3 +1,3 @@").style.fg, Some(Color::Cyan));
    assert_eq!(style_diff_line("+added").style.fg, Some(Color::Green));
    assert_eq!(style_diff_line("-removed").style.fg, Some(Color::Red));
    assert_eq!(style_diff_line(" context").style.fg, None);
    assert_eq!(style_diff_line("--- a/src/a.rs").style.fg, Some(Color::Blue));
    assert!(style_diff_line("\\ No newline at end of file").style.dim);
}

#[test]
fn diff_lines_preserves_text() {
    let diff = "--- a/f\n+++ b/f\n@@ -1,2 +1,2 @@\n-a\n+b\n";
    let lines = diff_lines(diff);
    assert_eq!(lines.len(), 5);
    assert_eq!(lines[0].to_string(), "--- a/f");
    assert_eq!(lines[3].to_string(), "-a");
    assert_eq!(lines[4].to_string(), "+b");
}

#[test]
fn empty_diff_yields_no_lines() {
    assert!(diff_lines("").is_empty());
}

#[test]
fn hunk_headers_are_bold_and_other_lines_dim() {
    let hunk = style_diff_line("@@ -1 +1 @@");
    assert!(hunk.style.bold);
    assert!(style_diff_line("diff --git a/x b/x").style.dim);
    assert_eq!(style_diff_line("+++ b/x").style.fg, Some(Color::Blue));
    assert_eq!(style_diff_line("---").style.fg, Some(Color::Red));
}

#[test]
fn empty_query_matches_everything() {
    let paths = vec!["a.rs".to_string(), "src/b.rs".to_string()];
    let out = search_files(&paths, "", 10);
    assert_eq!(out.len(), 2);
    assert_eq!(out[0].path, "a.rs");
    assert_eq!(out[1].path, "src/b.rs");
}

#[test]
fn subsequence_must_be_in_order() {
    assert!(fuzzy_match("bca", "abc").is_none());
    assert!(fuzzy_match("abc", "abc").is_some());
    assert!(fuzzy_match("ac", "abc").is_some());
}

#[test]
fn case_insensitive_subsequence() {
    let (_, indices) = fuzzy_match("MAIN", "src/main.rs").unwrap();
    assert_eq!(indices, vec![4, 5, 6, 7]);
}

#[test]
fn boundary_matches_score_higher() {
    let (score_infix, _) = fuzzy_match("ain", "src/main.rs").unwrap();
    let (score_sep, _) = fuzzy_match("main", "src/main.rs").unwrap();
    let (score_start, _) = fuzzy_match("main", "main.rs").unwrap();
    assert!(score_start > score_sep);
    assert!(score_sep > score_infix);
}

#[test]
fn consecutive_matches_score_higher() {
    let (scattered, _) = fuzzy_match("mr", "src/main.rs").unwrap();
    let (consec, _) = fuzzy_match("ma", "src/main.rs").unwrap();
    assert!(consec > scattered);
}

#[test]
fn search_ranks_best_first() {
    let paths = vec![
        "src/main.rs".to_string(),
        "tests/main_test.rs".to_string(),
        "docs/README.md".to_string(),
    ];
    let out = search_files(&paths, "main", 10);
    assert_eq!(out[0].path, "src/main.rs");
    assert_eq!(out[1].path, "tests/main_test.rs");
}

#[test]
fn search_respects_limit() {
    let paths = (0..20).map(|i| format!("file{i}.rs")).collect::<Vec<_>>();
    let out = search_files(&paths, "file", 5);
    assert_eq!(out.len(), 5);
}

#[test]
fn highlight_segments_split_match_runs() {
    let segs = highlight_segments("src/main.rs", &[4, 5, 6, 7]);
    assert_eq!(segs, vec![(0, 4, false), (4, 8, true), (8, 11, false)]);
}

#[test]
fn highlight_segments_no_indices_marks_all_unmatched() {
    assert_eq!(highlight_segments("a/b.rs", &[]), vec![(0, 6, false)]);
}

#[test]
fn fuzzy_scores_are_exact() {
    // "m" at a separator (6), then "a","i","n" consecutive (12 each).
    assert_eq!(fuzzy_match("main", "src/main.rs"), Some((42, vec![4, 5, 6, 7])));
    // Camel-case boundary scores 5.
    assert_eq!(fuzzy_match("b", "fooBar"), Some((5, vec![3])));
    assert_eq!(fuzzy_match("", "anything"), Some((0, vec![])));
}

#[test]
fn ties_break_by_byte_length_then_path() {
    let paths = vec!["b.rs".to_string(), "a.rs".to_string(), "é.rs".to_string()];
    let out = search_files(&paths, "", 10);
    let names: Vec<&str> = out.iter().map(|m| m.path.as_str()).collect();
    assert_eq!(names, vec!["a.rs", "b.rs", "é.rs"]);
}

#[test]
fn highlight_segments_use_byte_offsets() {
    assert_eq!(highlight_segments("é/x", &[2]), vec![(0, 3, false), (3, 4, true)]);
    assert_eq!(highlight_segments("", &[0]), vec![]);
}

#[test]
fn ignored_directories_are_recognised() {
    assert!(is_ignored_dir(".git"));
    assert!(is_ignored_dir("node_modules"));
    assert!(!is_ignored_dir("src"));
}

fn pager_over_20_lines() -> PagerOverlay {
    PagerOverlay::new(
        (0..20).map(|i| Line::from(format!("line-{i:02}"))).collect(),
        "T E S T".to_string(),
    )
}

#[test]
fn close_sets_done() {
    let mut pager = pager_over_20_lines();
    let key = KeyEvent::new(KeyCode::Esc, KeyModifiers::NONE());
    assert!(pager.handle_event(&key));
    assert!(pager.is_done());
}

#[test]
fn scroll_down_then_up() {
    let mut pager = pager_over_20_lines();
    let down = KeyEvent::new(KeyCode::Down, KeyModifiers::NONE());
    let up = KeyEvent::new(KeyCode::Up, KeyModifiers::NONE());
    pager.handle_event(&down);
    pager.handle_event(&down);
    assert_eq!(pager.scroll_offset(), 2);
    pager.handle_event(&up);
    assert_eq!(pager.scroll_offset(), 1);
}

#[test]
fn pager_jumps_and_ignores_other_keys() {
    let mut pager = pager_over_20_lines();
    assert!(!pager.handle_event(&KeyEvent::new(KeyCode::Char('G'), KeyModifiers::NONE())));
    assert_eq!(pager.scroll_offset(), usize::MAX);
    assert!(!pager.handle_event(&KeyEvent::new(KeyCode::Char('g'), KeyModifiers::NONE())));
    assert_eq!(pager.scroll_offset(), 0);
    assert!(!pager.handle_event(&KeyEvent::new(KeyCode::Up, KeyModifiers::NONE())));
    assert_eq!(pager.scroll_offset(), 0);
    assert!(!pager.handle_event(&KeyEvent::new(KeyCode::Char('x'), KeyModifiers::NONE())));
    assert!(!pager.is_done());
    assert!(PagerAction::Close.matches(&KeyEvent::new(KeyCode::Char('q'), KeyModifiers::NONE())));
    assert_eq!(pager.content_height(40), 20);
    assert_eq!(pager.content_height(4), 40);
    assert_eq!(pager.content_height(0), 0);
}

#[test]
fn truncate_keeps_short_strings() {
    assert_eq!(truncate_str("short", 22), "short");
}

#[test]
fn truncate_keeps_head_and_appends_ellipsis() {
    let out = truncate_str("abcdefghijklmnop", 5);
    assert!(out.ends_with('…'));
    assert_eq!(out.chars().count(), 5);
    assert!(out.starts_with("abcd"));
}

#[test]
fn truncate_handles_unicode() {
    let out = truncate_str("olá mundo feliz", 6);
    assert_eq!(out.chars().count(), 6);
    assert!(out.starts_with("olá m"));
}

#[test]
fn truncate_respects_display_width_of_wide_chars() {
    let out = truncate_str("a界bc", 4);
    assert_eq!(out, "a界…");
    assert_eq!(display_width(&out), 4);
}

#[test]
fn format_elapsed_seconds() {
    assert_eq!(format_elapsed(Duration::from_secs(42)), "42s");
}

#[test]
fn format_elapsed_minutes() {
    assert_eq!(format_elapsed(Duration::from_secs(125)), "2m 05s");
}

#[test]
fn format_elapsed_hours() {
    assert_eq!(format_elapsed(Duration::from_secs(7200)), "2h 00m");
}

#[test]
fn format_elapsed_boundaries() {
    assert_eq!(format_elapsed_secs(0), "0s");
    assert_eq!(format_elapsed_secs(59), "59s");
    assert_eq!(format_elapsed_secs(60), "1m 00s");
    assert_eq!(format_elapsed_secs(3599), "59m 59s");
    assert_eq!(format_elapsed_secs(3600), "1h 00m");
    assert_eq!(format_elapsed_secs(90061), "25h 01m");
}

#[test]
fn display_role_maps_user_and_assistant() {
    assert_eq!(display_role("user"), "User");
    assert_eq!(display_role("assistant"), "Assistant");
    assert_eq!(display_role("system"), "system");
}

#[test]
fn sanitize_status_removes_newlines() {
    assert_eq!(sanitize_status("a\nb"), "a b");
    assert_eq!(sanitize_status("a\r\nb"), "a b");
    assert_eq!(sanitize_status("a\tb"), "a b");
    assert_eq!(sanitize_status("a\n\nb"), "a b");
    assert_eq!(sanitize_status(" a b "), " a b ");
}

#[test]
fn strip_ansi_and_controls_removes_vt100_escapes_and_crs() {
    assert_eq!(strip_ansi_and_controls("\x1b[32m✓ pass\x1b[0m"), "✓ pass");
    assert_eq!(strip_ansi_and_controls("\x1b[1A\x1b[2Kprogress\r\ndone"), "progress\ndone");
    assert_eq!(strip_ansi_and_controls("col1\tcol2"), "col1    col2");
    assert_eq!(strip_ansi_and_controls("line\rline"), "line\nline");
}

#[test]
fn strip_ansi_handles_osc_and_charset_sequences() {
    assert_eq!(strip_ansi_and_controls("\x1b]0;title\x07text"), "text");
    assert_eq!(strip_ansi_and_controls("\x1b]8;;url\x1b\\link"), "link");
    assert_eq!(strip_ansi_and_controls("\x1b(Bok\x07"), "ok");
    assert_eq!(strip_ansi_and_controls("a\x1b"), "a");
}

#[test]
fn expand_multiline_spans_splits_code_blocks() {
    let spans = vec![
        Span::raw("before"),
        Span::raw("let x = 1;\nlet y = 2;\nlet z = 3;"),
        Span::raw("after"),
    ];
    let out = expand_multiline_spans(spans);
    let texts: Vec<&str> = out.iter().map(|s| s.content.as_ref()).collect();
    assert_eq!(texts, vec!["before", "let x = 1;", "let y = 2;", "let z = 3;", "after"]);
    assert!(out.iter().all(|s| !s.content.contains('\n')));
}

#[test]
fn extract_tool_name_handles_delta_and_completed_formats() {
    assert_eq!(extract_tool_name("Δ edit_file[0] {\"path\": \"a.rs\"}"), "edit_file");
    assert_eq!(extract_tool_name("Δ run_tests[3] all passed"), "run_tests");
    assert_eq!(extract_tool_name("read_file — read src/main.rs"), "read_file");
    assert_eq!(extract_tool_name("bash"), "bash");
}

#[test]
fn char_index_to_byte_index_maps_char_to_byte_offsets() {
    let s = "o que é";
    assert_eq!(char_index_to_byte_index(s, 0), 0);
    assert_eq!(char_index_to_byte_index(s, 6), 6);
    assert_eq!(char_index_to_byte_index(s, 7), s.len());
    assert_eq!(char_index_to_byte_index("", 0), 0);
}

#[test]
fn insert_char_after_multibyte_uses_byte_offset() {
    let mut input = String::new();
    let mut cursor = 0usize;
    for c in "o que é".chars() {
        let pos = char_index_to_byte_index(&input, cursor);
        input.insert(pos, c);
        cursor += 1;
    }
    assert_eq!(input, "o que é");
    assert_eq!(cursor, input.chars().count());

    let pos = char_index_to_byte_index(&input, cursor);
    input.insert(pos, '?');
    assert_eq!(input, "o que é?");
}

#[test]
fn backspace_after_multibyte_removes_char_not_byte() {
    let mut input = "o que é".to_string();
    let mut cursor = input.chars().count();
    let pos = char_index_to_byte_index(&input, cursor - 1);
    input.remove(pos);
    cursor -= 1;
    assert_eq!(input, "o que ");
    assert_eq!(cursor, 6);
}

#[test]
fn count_wrapped_lines_counts_visual_rows() {
    let lines = vec![Line::from_span(Span::raw("x".repeat(100)))];
    assert_eq!(count_wrapped_lines(&lines, 80), 2);
}

#[test]
fn count_wrapped_lines_matches_ratatui_for_prefixed_lines() {
    let exact = Line::from_spans(vec![Span::raw("• "), Span::raw("x".repeat(78))]);
    assert_eq!(count_wrapped_lines(&[exact], 80), 1);

    let words: String = "hello world ".repeat(20);
    let content = words.trim_end().to_string();
    let line = Line::from_spans(vec![Span::raw("• "), Span::raw(content)]);
    let lines = vec![line];
    let width = 80;
    let mut copy = Vec::new();
    for l in &lines {
        copy.push(l.duplicate());
    }
    let expected = cki::ui::engine::widgets::Paragraph::new(copy)
        .wrap(cki::ui::engine::widgets::Wrap { trim: true })
        .line_count(width as u16);
    assert_eq!(count_wrapped_lines(&lines, width), expected);
    assert!(expected >= 3);
}

#[test]
fn count_wrapped_lines_counts_multiple_lines() {
    let lines = vec![
        Line::from_span(Span::raw("x".repeat(80))),
        Line::from_span(Span::raw("y".repeat(80))),
    ];
    assert_eq!(count_wrapped_lines(&lines, 80), 2);
}

#[test]
fn info_panel_sections_open_and_close() {
    let s = InfoPanelSection::new("Files");
    assert!(!s.open);
    assert!(s.lines.is_empty());
    assert!(!InfoPanelSection::closed("X").open);
    let o = InfoPanelSection::open("Todo", vec![Span::raw("a")]);
    assert!(o.open);
    assert_eq!(o.lines.len(), 1);
    assert_eq!(o.title, "Todo");
}

#[test]
fn empty_query_ignores_the_limit() {
    let paths = vec!["b.rs".to_string(), "a.rs".to_string(), "c/d.rs".to_string()];
    let out = search_files(&paths, "", 1);
    assert_eq!(out.len(), 3);
    assert_eq!(out[0].path, "a.rs");
    assert_eq!(search_files(&paths, "rs", 1).len(), 1);
}

#[test]
fn scroll_keys_do_not_close_the_pager() {
    let mut pager = pager_over_20_lines();
    assert!(!pager.handle_event(&KeyEvent::new(KeyCode::Down, KeyModifiers::NONE())));
    assert_eq!(pager.scroll_offset(), 1);
    assert!(!pager.is_done());
}

fn line_parts(line: &Line) -> Vec<String> {
    line.spans.iter().map(|s| s.content.clone()).collect()
}

#[test]
fn status_lines_put_the_icon_first_and_indent_the_rest() {
    let lines = status_message_lines("Error", "boom\n\n  \nagain");
    assert_eq!(lines.len(), 2);
    assert_eq!(line_parts(&lines[0]), vec!["✗ ", "boom"]);
    assert_eq!(line_parts(&lines[1]), vec!["  ", "again"]);
    assert_eq!(lines[0].spans[0].style.fg, Some(Color::LightRed));
    assert!(lines[0].spans[0].style.bold);
    assert_eq!(lines[0].spans[1].style.fg, Some(Color::LightRed));
}

#[test]
fn status_lines_of_an_empty_message_keep_the_icon() {
    let lines = status_message_lines("plan", "");
    assert_eq!(lines.len(), 1);
    assert_eq!(line_parts(&lines[0]), vec!["📋 "]);
    assert!(status_message_lines("workspace", "").is_empty());
}

#[test]
fn status_lines_pick_tool_icons_and_styles() {
    let lines = status_message_lines("tool", "Δ read_file src/main.rs");
    assert_eq!(line_parts(&lines[0]), vec!["📖 ", "Δ read_file src/main.rs"]);
    assert_eq!(lines[0].spans[1].style.fg, Some(Color::Cyan));
    let thinking = status_message_lines("thinking", "hmm");
    assert!(thinking[0].spans[1].style.italic);
    let info = status_message_lines("info", "✓ done");
    assert_eq!(line_parts(&info[0]), vec!["✓ done"]);
    assert_eq!(info[0].spans[0].style.fg, Some(Color::Green));
}

#[test]
fn scroll_offset_is_clamped_to_content() {
    // A 40x10 screen leaves a 40x7 view, whose content area is 5 rows high.
    let mut pager = pager_over_20_lines();
    let area = pager.content_area(cki::ui::engine::layout::Rect::new(0, 0, 40, 7));
    assert_eq!((area.y, area.height), (1, 5));
    let height = pager.clamp_scroll(area.width, area.height);
    let max_scroll = pager.content_height(40) - 5;
    assert_eq!(height, 20);
    assert_eq!(pager.scroll_offset(), 0);
    assert!(pager.scroll_offset() <= max_scroll);
    pager.handle_event(&KeyEvent::new(KeyCode::PageDown, KeyModifiers::NONE()));
    for _ in 0..30 {
        pager.handle_event(&KeyEvent::new(KeyCode::Down, KeyModifiers::NONE()));
    }
    pager.clamp_scroll(40, 5);
    assert_eq!(pager.scroll_offset(), 15);
    assert_eq!(pager.placeholder_start(20, 5), 5);
}

#[test]
fn new_at_bottom_starts_pinned_to_last_page() {
    let mut pager = PagerOverlay::new_at_bottom(
        (0..20).map(|i| Line::from(format!("line-{i:02}"))).collect(),
        "T E S T".to_string(),
    );
    pager.clamp_scroll(40, 5);
    assert_eq!(pager.scroll_offset(), pager.content_height(40) - 5);
}

#[test]
fn short_content_leaves_placeholder_rows() {
    let mut pager = PagerOverlay::new(vec![Line::from("one"), Line::from("two")], "S".to_string());
    assert_eq!(pager.clamp_scroll(40, 5), 2);
    assert_eq!(pager.scroll_offset(), 0);
    assert_eq!(pager.placeholder_start(2, 5), 2);
    let mut empty = PagerOverlay::new(vec![], "EMPTY".to_string());
    assert_eq!(empty.clamp_scroll(20, 3), 0);
    assert_eq!(empty.placeholder_start(0, 3), 0);
}
