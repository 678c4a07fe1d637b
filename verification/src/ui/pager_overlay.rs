//! A pager overlay: a scrollable, closable full-screen view over a list of
//! lines, driven by navigation keys.
use vstd::prelude::*;
use crate::ui::engine::event::{KeyCode, KeyEvent};
use crate::ui::engine::vt::{Line, spans_text};
use crate::ui::live_wrap::{RowBuilder, RowView, feed, rows_view};
use crate::ui::engine::layout::{Rect, sat_add16, sat_sub};

verus! {

/// A pager navigation action.
#[derive(Clone, Copy, Debug, PartialEq, Eq, Structural)]
pub enum PagerAction {
    ScrollUp,
    ScrollDown,
    PageUp,
    PageDown,
    JumpTop,
    JumpBottom,
    Close,
}

/// The keys bound to each action: an arrow or paging key, or its vi-style
/// letter.
pub open spec fn action_keys(a: PagerAction, code: KeyCode) -> bool {
    match a {
        PagerAction::ScrollUp => code == KeyCode::Up || code == KeyCode::Char('k'),
        PagerAction::ScrollDown => code == KeyCode::Down || code == KeyCode::Char('j'),
        PagerAction::PageUp => code == KeyCode::PageUp || code == KeyCode::Char('u'),
        PagerAction::PageDown => code == KeyCode::PageDown || code == KeyCode::Char('d'),
        PagerAction::JumpTop => code == KeyCode::Home || code == KeyCode::Char('g'),
        PagerAction::JumpBottom => code == KeyCode::End || code == KeyCode::Char('G'),
        PagerAction::Close => code == KeyCode::Esc || code == KeyCode::Char('q'),
    }
}

impl PagerAction {
    /// Whether the key is bound to this action (see `action_keys`).
    pub fn matches(&self, key: &KeyEvent) -> (b: bool)
        ensures
            b == action_keys(*self, key.code),
    {
        match self {
            PagerAction::ScrollUp => key.code == KeyCode::Up || key.code == KeyCode::Char('k'),
            PagerAction::ScrollDown => key.code == KeyCode::Down || key.code == KeyCode::Char('j'),
            PagerAction::PageUp => key.code == KeyCode::PageUp || key.code == KeyCode::Char('u'),
            PagerAction::PageDown => key.code == KeyCode::PageDown || key.code == KeyCode::Char('d'),
            PagerAction::JumpTop => key.code == KeyCode::Home || key.code == KeyCode::Char('g'),
            PagerAction::JumpBottom => key.code == KeyCode::End || key.code == KeyCode::Char('G'),
            PagerAction::Close => key.code == KeyCode::Esc || key.code == KeyCode::Char('q'),
        }
    }
}

/// The scroll offset after a navigation key, or `None` for a key that is
/// not a navigation key; a page is one row, pinning to the bottom is the
/// largest offset.
pub open spec fn scrolled(offset: usize, code: KeyCode) -> Option<usize> {
    if action_keys(PagerAction::ScrollUp, code) || action_keys(PagerAction::PageUp, code) {
        Some(if offset >= 1 { (offset - 1) as usize } else { 0usize })
    } else if action_keys(PagerAction::ScrollDown, code) || action_keys(PagerAction::PageDown, code) {
        Some(if offset < usize::MAX { (offset + 1) as usize } else { usize::MAX })
    } else if action_keys(PagerAction::JumpTop, code) {
        Some(0usize)
    } else if action_keys(PagerAction::JumpBottom, code) {
        Some(usize::MAX)
    } else {
        None
    }
}

/// The rows a text takes in a fresh wrapper of width `w`: the closed rows
/// and the pending line when it is not empty.
pub open spec fn wrapped_rows(text: Seq<char>, w: int) -> int {
    let st = feed(Seq::<RowView>::empty(), Seq::<char>::empty(), w, text);
    st.0.len() + if st.1.len() > 0 { 1int } else { 0int }
}

/// The rows all lines take, each wrapped on its own at width `w`.
pub open spec fn content_rows(lines: Seq<Line<'static>>, w: int) -> int
    decreases lines.len(),
{
    if lines.len() == 0 {
        0
    } else {
        content_rows(lines.drop_last(), w) + wrapped_rows(spans_text(lines.last().spans@), w)
    }
}

/// The scroll offset clamped to content of `content` rows shown `height`
/// rows at a time: the pinned offset (the largest value) becomes the last
/// page, and no offset goes past it.
pub open spec fn clamped_offset(offset: usize, content: int, height: int) -> int {
    let m = sat_sub(content, height);
    if offset == usize::MAX { m } else if offset <= m { offset as int } else { m }
}

/// A scrollable, closable full-screen view over a list of lines.
pub struct PagerOverlay {
    title: String,
    lines: Vec<Line<'static>>,
    scroll_offset: usize,
    is_done: bool,
}

impl PagerOverlay {
    /// The title.
    pub closed spec fn title_spec(&self) -> Seq<char> {
        self.title@
    }

    /// The content lines.
    pub closed spec fn lines_spec(&self) -> Seq<Line<'static>> {
        self.lines@
    }

    /// The scroll offset in rows (the largest value pins to the bottom).
    pub closed spec fn offset(&self) -> usize {
        self.scroll_offset
    }

    /// Whether closing was requested.
    pub closed spec fn done(&self) -> bool {
        self.is_done
    }

    /// A pager at the top of `lines`.
    pub fn new(lines: Vec<Line<'static>>, title: String) -> (p: Self)
        ensures
            p.lines_spec() == lines@,
            p.title_spec() == title@,
            p.offset() == 0,
            !p.done(),
    {
        PagerOverlay { title, lines, scroll_offset: 0, is_done: false }
    }

    /// A pager pinned to the bottom of `lines`.
    pub fn new_at_bottom(lines: Vec<Line<'static>>, title: String) -> (p: Self)
        ensures
            p.lines_spec() == lines@,
            p.title_spec() == title@,
            p.offset() == usize::MAX,
            !p.done(),
    {
        PagerOverlay { title, lines, scroll_offset: usize::MAX, is_done: false }
    }

    /// Replaces the content; the scroll offset is kept and clamped when drawn.
    pub fn set_lines(&mut self, lines: Vec<Line<'static>>)
        ensures
            final(self).lines_spec() == lines@,
            final(self).title_spec() == old(self).title_spec(),
            final(self).offset() == old(self).offset(),
            final(self).done() == old(self).done(),
    {
        self.lines = lines;
    }

    /// Whether closing was requested.
    pub fn is_done(&self) -> (b: bool)
        ensures
            b == self.done(),
    {
        self.is_done
    }

    /// The scroll offset in rows.
    pub fn scroll_offset(&self) -> (o: usize)
        ensures
            o == self.offset(),
    {
        self.scroll_offset
    }

    /// Handles a key: a close key marks the pager done, a navigation key
    /// moves the offset (see `scrolled`); returns `true` exactly when the
    /// overlay should close.
    pub fn handle_event(&mut self, key: &KeyEvent) -> (close: bool)
        ensures
            final(self).lines_spec() == old(self).lines_spec(),
            final(self).title_spec() == old(self).title_spec(),
            close == action_keys(PagerAction::Close, key.code),
            close ==> final(self).done() && final(self).offset() == old(self).offset(),
            !close ==> {
                &&& final(self).done() == old(self).done()
                &&& final(self).offset() == match scrolled(old(self).offset(), key.code) {
                    Some(o) => o,
                    None => old(self).offset(),
                }
            },
    {
        if PagerAction::Close.matches(key) {
            self.is_done = true;
            return true;
        }
        let page: usize = 1;
        if PagerAction::ScrollUp.matches(key) || PagerAction::PageUp.matches(key) {
            self.scroll_offset = if self.scroll_offset >= page { self.scroll_offset - page } else { 0 };
        } else if PagerAction::ScrollDown.matches(key) || PagerAction::PageDown.matches(key) {
            self.scroll_offset = if self.scroll_offset < usize::MAX { self.scroll_offset + page } else { usize::MAX };
        } else if PagerAction::JumpTop.matches(key) {
            self.scroll_offset = 0;
        } else if PagerAction::JumpBottom.matches(key) {
            self.scroll_offset = usize::MAX;
        }
        false
    }

    /// The rows the content takes at `width`, each line wrapped on its own;
    /// none at width zero.
    pub fn content_height(&self, width: u16) -> (h: usize)
        requires
            forall|i: int| 0 <= i < self.lines_spec().len() ==>
                spans_text((#[trigger] self.lines_spec()[i]).spans@).len() <= usize::MAX / 2,
            content_rows(self.lines_spec(), width as int) <= usize::MAX,
        ensures
            width == 0 ==> h == 0,
            width > 0 ==> h == content_rows(self.lines_spec(), width as int),
    {
        if width == 0 || self.lines.len() == 0 {
            return 0;
        }
        let mut total: usize = 0;
        let mut i: usize = 0;
        while i < self.lines.len()
            invariant
                width > 0,
                i <= self.lines@.len(),
                forall|k: int| 0 <= k < self.lines@.len() ==>
                    spans_text((#[trigger] self.lines@[k]).spans@).len() <= usize::MAX / 2,
                content_rows(self.lines@, width as int) <= usize::MAX,
                total == content_rows(self.lines@.subrange(0, i as int), width as int),
            decreases self.lines@.len() - i,
        {
            let text = self.lines[i].to_string();
            let mut rb = RowBuilder::new(width as usize);
            rb.push_fragment(text.as_str());
            let rows = rb.display_rows();
            let n = rows.len();
            proof {
                assert(self.lines@.subrange(0, i + 1).drop_last() =~= self.lines@.subrange(0, i as int));
                lemma_content_rows_prefix(self.lines@, width as int, i + 1);
                assert(rows_view(rows@).len() == rows@.len());
            }
            total = total + n;
            i += 1;
        }
        assert(self.lines@.subrange(0, i as int) =~= self.lines@);
        total
    }

    /// The content area of a pager view in `area`: below the header row,
    /// two rows shorter.
    pub fn content_area(&self, area: Rect) -> (r: Rect)
        ensures
            r.x == area.x,
            r.y == sat_add16(area.y as int, 1),
            r.width == area.width,
            r.height == sat_sub(area.height as int, 2),
    {
        Rect { x: area.x, y: area.y.saturating_add(1), width: area.width, height: area.height.saturating_sub(2) }
    }

    /// Clamps the scroll offset to the content as drawn in a content area of
    /// `width` by `height` cells (see `clamped_offset`); returns the content
    /// height.
    pub fn clamp_scroll(&mut self, width: u16, height: u16) -> (h: usize)
        requires
            forall|i: int| 0 <= i < old(self).lines_spec().len() ==>
                spans_text((#[trigger] old(self).lines_spec()[i]).spans@).len() <= usize::MAX / 2,
            content_rows(old(self).lines_spec(), width as int) <= usize::MAX,
        ensures
            width == 0 ==> h == 0,
            width > 0 ==> h == content_rows(old(self).lines_spec(), width as int),
            final(self).offset() == clamped_offset(old(self).offset(), h as int, height as int),
            final(self).lines_spec() == old(self).lines_spec(),
            final(self).title_spec() == old(self).title_spec(),
            final(self).done() == old(self).done(),
    {
        let h = self.content_height(width);
        let max_scroll: usize = h.saturating_sub(height as usize);
        self.scroll_offset = if self.scroll_offset == usize::MAX {
            max_scroll
        } else if self.scroll_offset <= max_scroll {
            self.scroll_offset
        } else {
            max_scroll
        };
        h
    }

    /// The first row of a content area of `height` rows that the content
    /// drawn from the offset leaves empty: the placeholder rows start there.
    pub fn placeholder_start(&self, content: usize, height: u16) -> (r: u16)
        ensures
            r == if sat_sub(content as int, self.offset() as int) <= height as int {
                sat_sub(content as int, self.offset() as int)
            } else {
                height as int
            },
    {
        let drawn = content.saturating_sub(self.scroll_offset);
        if drawn <= height as usize { drawn as u16 } else { height }
    }
}

proof fn lemma_wrapped_rows_nonneg(text: Seq<char>, w: int)
    ensures
        wrapped_rows(text, w) >= 0,
{
}

/// The rows of a prefix of the lines are at most those of all of them.
proof fn lemma_content_rows_prefix(lines: Seq<Line<'static>>, w: int, k: int)
    requires
        0 <= k <= lines.len(),
    ensures
        content_rows(lines.subrange(0, k), w) <= content_rows(lines, w),
        0 <= content_rows(lines.subrange(0, k), w),
    decreases lines.len() - k,
{
    if k < lines.len() {
        lemma_content_rows_prefix(lines, w, k + 1);
        assert(lines.subrange(0, k + 1).drop_last() =~= lines.subrange(0, k));
        lemma_wrapped_rows_nonneg(spans_text(lines[k].spans@), w);
        lemma_content_rows_nonneg(lines.subrange(0, k), w);
    } else {
        assert(lines.subrange(0, k) =~= lines);
        lemma_content_rows_nonneg(lines, w);
    }
}

proof fn lemma_content_rows_nonneg(lines: Seq<Line<'static>>, w: int)
    ensures
        0 <= content_rows(lines, w),
    decreases lines.len(),
{
    if lines.len() > 0 {
        lemma_content_rows_nonneg(lines.drop_last(), w);
    }
}

} // verus!
