use cki::types::time::DateTimeUtc;
use cki::ui::engine::buffer::Buffer;
use cki::ui::engine::layout::{Alignment, Rect};
use cki::ui::engine::terminal::{Terminal, TestBackend};
use cki::ui::engine::vt::{Line, Span, Style};
use cki::ui::engine::widgets::{
    wrap_line, Block, Borders, Clear, List, ListItem, ListState, Paragraph, StatefulWidget, Widget, Wrap,
};

fn symbol_at(buf: &Buffer, x: u16, y: u16) -> String {
    buf.get(x, y).symbol.clone()
}

fn row_text(buf: &Buffer, y: u16) -> String {
    let mut s = String::new();
    for x in 0..buf.area.width {
        s.push_str(&symbol_at(buf, x, y));
    }
    s
}

#[test]
fn block_draws_borders_then_title() {
    let area = Rect::new(0, 0, 4, 3);
    let mut buf = Buffer::empty(area);
    Block::default().borders(Borders::ALL()).title("T").render(area, &mut buf);
    assert_eq!(row_text(&buf, 0), "│T─│");
    assert_eq!(row_text(&buf, 1), "│  │");
    assert_eq!(row_text(&buf, 2), "│──│");
}

#[test]
fn block_on_empty_area_draws_nothing() {
    let mut buf = Buffer::empty(Rect::new(0, 0, 3, 1));
    Block::default().borders(Borders::ALL()).render(Rect::new(0, 0, 0, 1), &mut buf);
    assert_eq!(row_text(&buf, 0), "   ");
}

#[test]
fn clear_blanks_only_its_area() {
    let area = Rect::new(0, 0, 4, 2);
    let mut buf = Buffer::empty(area);
    buf.set_string(0, 0, "abcd", Style::new());
    buf.set_string(0, 1, "efgh", Style::new());
    Clear.render(Rect::new(1, 0, 2, 2), &mut buf);
    assert_eq!(row_text(&buf, 0), "a  d");
    assert_eq!(row_text(&buf, 1), "e  h");
}

#[test]
fn paragraph_aligns_right_and_scrolls() {
    let area = Rect::new(0, 0, 5, 1);
    let mut buf = Buffer::empty(area);
    Paragraph::new("skip\nhi").alignment(Alignment::Right).scroll((1, 0)).render(area, &mut buf);
    assert_eq!(row_text(&buf, 0), "   hi");
}

#[test]
fn paragraph_centers_lines() {
    let area = Rect::new(0, 0, 6, 2);
    let mut buf = Buffer::empty(area);
    Paragraph::new("ab\nc").alignment(Alignment::Center).render(area, &mut buf);
    assert_eq!(row_text(&buf, 0), "  ab  ");
    assert_eq!(row_text(&buf, 1), "  c   ");
}

#[test]
fn paragraph_cuts_spans_at_the_right_edge() {
    let area = Rect::new(0, 0, 3, 1);
    let mut buf = Buffer::empty(area);
    let line = Line::from_spans(vec![Span::raw("ab"), Span::raw("cd"), Span::raw("ef")]);
    Paragraph::new(line).render(area, &mut buf);
    assert_eq!(row_text(&buf, 0), "abc");
}

#[test]
fn list_marks_the_selected_item() {
    let area = Rect::new(0, 0, 4, 3);
    let mut buf = Buffer::empty(area);
    let list = List::new(vec![ListItem::new("a"), ListItem::new("b")]).highlight_symbol(">");
    let mut state = ListState { selected: Some(1) };
    list.render(area, &mut buf, &mut state);
    assert_eq!(row_text(&buf, 0), "a   ");
    assert_eq!(row_text(&buf, 1), ">b  ");
    assert_eq!(row_text(&buf, 2), "    ");
    assert_eq!(state.selected, Some(1));
}

#[test]
fn line_and_span_render_from_the_area_origin() {
    let area = Rect::new(0, 0, 4, 2);
    let mut buf = Buffer::empty(area);
    Span::raw("xy").render(Rect::new(1, 0, 3, 1), &mut buf);
    Line::from_spans(vec![Span::raw("p"), Span::raw("qr")]).render(Rect::new(0, 1, 2, 1), &mut buf);
    assert_eq!(row_text(&buf, 0), " xy ");
    assert_eq!(row_text(&buf, 1), "pqr ");
}

#[test]
fn terminal_frames_follow_the_backend_size() {
    let mut term = Terminal::new(TestBackend::new(3, 2)).unwrap();
    let area = term.begin_frame().unwrap();
    assert_eq!(area, Rect::new(0, 0, 3, 2));
    term.backend_mut().resize(5, 1);
    let area = term.begin_frame().unwrap();
    assert_eq!(area, Rect::new(0, 0, 5, 1));
    assert_eq!(term.buffer_mut().content.len(), 5);
}

#[test]
fn second_compose_of_the_same_buffer_only_hides_the_cursor() {
    let mut term = Terminal::new(TestBackend::new(2, 1)).unwrap();
    term.begin_frame().unwrap();
    term.buffer_mut().set_string(0, 0, "ok", Style::new());
    let first = term.compose(None);
    assert!(first.contains("ok"));
    let second = term.compose(None);
    assert_eq!(second, "\x1b[?25l");
}

#[test]
fn system_time_round_trip() {
    let dt = DateTimeUtc { year: 1969, month: 12, day: 31, hour: 23, minute: 59, second: 58, millisecond: 250 };
    let back = DateTimeUtc::from_system_time(dt.to_system_time());
    assert_eq!(back, dt);
    let dt2 = DateTimeUtc { year: 2024, month: 2, day: 29, hour: 1, minute: 2, second: 3, millisecond: 4 };
    assert_eq!(DateTimeUtc::from_system_time(dt2.to_system_time()), dt2);
}

fn line_string(line: &Line) -> String {
    let mut s = String::new();
    for span in &line.spans {
        s.push_str(&span.content);
    }
    s
}

#[test]
fn wrap_line_breaks_between_words_and_drops_only_spaces() {
    let line = Line::from_spans(vec![Span::raw("hello world "), Span::raw("foo")]);
    let wrapped = wrap_line(&line, 5, false);
    let texts: Vec<String> = wrapped.iter().map(line_string).collect();
    assert_eq!(texts, vec!["hello", "world", "foo"]);
}

#[test]
fn wrap_line_cuts_long_words() {
    let line = Line::from_spans(vec![Span::raw("abcdefg hi")]);
    let wrapped = wrap_line(&line, 3, false);
    let texts: Vec<String> = wrapped.iter().map(line_string).collect();
    assert_eq!(texts, vec!["abc", "def", "g ", "hi"]);
}

#[test]
fn wrap_line_with_zero_width_keeps_the_line() {
    let line = Line::from_spans(vec![Span::raw("a b")]);
    let wrapped = wrap_line(&line, 0, true);
    assert_eq!(wrapped.len(), 1);
    assert_eq!(line_string(&wrapped[0]), "a b");
}

#[test]
fn paragraph_wraps_to_the_inner_width() {
    let area = Rect::new(0, 0, 7, 4);
    let mut buf = Buffer::empty(area);
    Paragraph::new("hello world")
        .block(Block::default().borders(Borders::ALL()))
        .wrap(Wrap { trim: true })
        .render(area, &mut buf);
    assert_eq!(row_text(&buf, 1), "│hello│");
    assert_eq!(row_text(&buf, 2), "│world│");
}

#[test]
fn paragraph_line_count_sums_the_wrapped_rows() {
    let wrapped = Paragraph::new("ab cd\nefgh").wrap(Wrap { trim: true });
    assert_eq!(wrapped.line_count(2), 4);
    assert_eq!(wrapped.line_count(0), 2);
    let plain = Paragraph::new("ab cd\nefgh");
    assert_eq!(plain.line_count(2), 2);
}
