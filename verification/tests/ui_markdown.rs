use cki::ui::engine::vt::{Color, Span};
use cki::ui::markdown::render_markdown_lines;

fn texts(spans: &[Span]) -> Vec<String> {
    spans.iter().map(|s| s.content.clone()).collect()
}

#[test]
fn markdown_heading_then_inline_bold_and_code() {
    let spans = render_markdown_lines("# Title\nsome **bold** and `code`").unwrap();
    assert_eq!(texts(&spans), vec!["◆ ", "Title", "\n", "some ", "bold", " and ", "code"]);
    assert_eq!(spans[0].style.fg, Some(Color::Cyan));
    assert!(spans[4].style.bold);
    assert_eq!(spans[6].style.fg, Some(Color::Yellow));
}

#[test]
fn markdown_code_block_is_one_span() {
    let spans = render_markdown_lines("```\nlet x;\nlet y;\n```").unwrap();
    assert_eq!(texts(&spans), vec!["let x;\nlet y;"]);
    assert_eq!(spans[0].style.bg, Some(Color::Rgb(30, 30, 30)));
}

#[test]
fn markdown_unclosed_code_block_is_kept() {
    let spans = render_markdown_lines("```\nfn main() {}").unwrap();
    assert_eq!(texts(&spans), vec!["fn main() {}"]);
}

#[test]
fn markdown_of_blank_text_is_nothing() {
    assert!(render_markdown_lines("").is_none());
    assert!(render_markdown_lines("\n  \n").is_none());
}

#[test]
fn markdown_lists_and_tables() {
    let spans = render_markdown_lines("- a\n1. b").unwrap();
    assert_eq!(texts(&spans), vec!["• ", "a", "\n", "• ", "b"]);
    let table = render_markdown_lines("| a | b |\n|---|---|").unwrap();
    assert_eq!(
        texts(&table),
        vec![
            "│ ",
            "a",
            " │ ",
            "b",
            " │",
            "\n",
            "├──────────────────────────┼──────────────────────────────────────────┤"
        ]
    );
}

#[test]
fn markdown_quote_rule_and_paragraphs() {
    let spans = render_markdown_lines("> note\n---\none\ntwo\n\nthree").unwrap();
    assert_eq!(
        texts(&spans),
        vec!["▎ ", "note", "\n", &"─".repeat(40), "\n", "one", "\n", "two", "\n\n", "three"]
    );
}
