//! A double-buffered screen: drawing goes to the back buffer and flushing
//! emits VT sequences only for the cells that differ from the front buffer.
use vstd::prelude::*;
use super::vt::{Style, Vt, plain_style, sgr, cursor_to};
use crate::text::push_char;

verus! {

/// One screen cell: a character and its style.
#[derive(Clone, Copy, Debug, PartialEq, Eq, Structural)]
pub struct Cell {
    pub ch: char,
    pub style: Style,
}

/// The blank cell.
pub open spec fn blank() -> Cell {
    Cell { ch: ' ', style: plain_style() }
}

impl Default for Cell {
    fn default() -> (c: Cell)
        ensures
            c == blank(),
    {
        Cell { ch: ' ', style: Style::new() }
    }
}

/// The state of a diff rendering pass after some cells.
pub struct DiffState {
    pub out: Seq<char>,
    pub last_style: Style,
    pub active: bool,
    pub last_pos: Option<(int, int)>,
}

/// The rendering state after visiting the first `k` cells (row-major) of a
/// `width`-wide screen: each cell that differs between `front` and `back` is
/// written, preceded by a cursor move unless it directly follows the previous
/// written cell, and by a style sequence unless the style is already active.
pub open spec fn diff_state(front: Seq<Cell>, back: Seq<Cell>, width: int, k: int) -> DiffState
    decreases k,
{
    if k <= 0 {
        DiffState { out: Seq::empty(), last_style: plain_style(), active: false, last_pos: None }
    } else {
        let s = diff_state(front, back, width, k - 1);
        let i = k - 1;
        let row = i / width;
        let col = i % width;
        if back[i] != front[i] {
            let need_move = match s.last_pos {
                Some((lc, lr)) => lr != row || lc + 1 != col,
                None => true,
            };
            let restyle = !s.active || back[i].style != s.last_style;
            DiffState {
                out: s.out + (if need_move { cursor_to(col as nat, row as nat) } else { Seq::empty() })
                    + (if restyle { sgr(back[i].style) } else { Seq::empty() }) + seq![back[i].ch],
                last_style: if restyle { back[i].style } else { s.last_style },
                active: true,
                last_pos: Some((col, row)),
            }
        } else {
            s
        }
    }
}

/// The whole output of a flush.
pub open spec fn flush_output(front: Seq<Cell>, back: Seq<Cell>, width: int, height: int, cursor: Option<(u16, u16)>) -> Seq<char> {
    let s = diff_state(front, back, width, width * height);
    s.out + (match cursor {
        Some((c, r)) => cursor_to(c as nat, r as nat) + "\x1b[?25h"@,
        None => "\x1b[?25l"@,
    }) + (if s.active { "\x1b[0m"@ } else { Seq::empty() })
}

/// A screen of `width` by `height` cells with front and back buffers.
pub struct Framebuffer {
    width: u16,
    height: u16,
    front: Vec<Cell>,
    back: Vec<Cell>,
    cursor_pos: Option<(u16, u16)>,
}

fn blank_cells(size: usize) -> (v: Vec<Cell>)
    ensures
        v@.len() == size,
        forall|i: int| 0 <= i < size ==> #[trigger] v@[i] == blank(),
{
    let mut v: Vec<Cell> = Vec::new();
    let mut i: usize = 0;
    while i < size
        invariant
            i <= size,
            v@.len() == i,
            forall|k: int| 0 <= k < i ==> #[trigger] v@[k] == blank(),
        decreases size - i,
    {
        v.push(Cell::default());
        i += 1;
    }
    v
}

impl Framebuffer {
    pub closed spec fn spec_width(&self) -> u16 { self.width }
    pub closed spec fn spec_height(&self) -> u16 { self.height }
    pub closed spec fn front(&self) -> Seq<Cell> { self.front@ }
    pub closed spec fn back(&self) -> Seq<Cell> { self.back@ }
    pub closed spec fn cursor(&self) -> Option<(u16, u16)> { self.cursor_pos }

    /// Both buffers hold one cell per screen position.
    pub closed spec fn wf(&self) -> bool {
        &&& self.front@.len() == self.width * self.height
        &&& self.back@.len() == self.width * self.height
    }

    /// A well-formed framebuffer holds one front and one back cell per position.
    pub proof fn lemma_wf_len(&self)
        requires
            self.wf(),
        ensures
            self.front().len() == self.spec_width() * self.spec_height(),
            self.back().len() == self.spec_width() * self.spec_height(),
    {
    }

    pub fn new(width: u16, height: u16) -> (fb: Framebuffer)
        ensures
            fb.wf(),
            fb.spec_width() == width,
            fb.spec_height() == height,
            fb.cursor().is_none(),
            fb.front().len() == width * height,
            forall|i: int| 0 <= i < width * height ==> #[trigger] fb.front()[i] == blank() && fb.back()[i] == blank(),
    {
        assert(width * height <= 65535 * 65535) by (nonlinear_arith) requires width <= 65535, height <= 65535;
        let size = (width as usize) * (height as usize);
        Framebuffer { width, height, front: blank_cells(size), back: blank_cells(size), cursor_pos: None }
    }

    /// Changes the dimensions; on a change both buffers are reset to blank cells.
    pub fn resize(&mut self, width: u16, height: u16)
        requires
            old(self).wf(),
        ensures
            final(self).wf(),
            final(self).spec_width() == width,
            final(self).spec_height() == height,
            final(self).cursor() == old(self).cursor(),
            (old(self).spec_width() == width && old(self).spec_height() == height) ==>
                final(self).front() == old(self).front() && final(self).back() == old(self).back(),
            !(old(self).spec_width() == width && old(self).spec_height() == height) ==>
                forall|i: int| 0 <= i < width * height ==> #[trigger] final(self).front()[i] == blank() && final(self).back()[i] == blank(),
    {
        if self.width == width && self.height == height {
            return;
        }
        self.width = width;
        self.height = height;
        assert(width * height <= 65535 * 65535) by (nonlinear_arith) requires width <= 65535, height <= 65535;
        let size = (width as usize) * (height as usize);
        self.front = blank_cells(size);
        self.back = blank_cells(size);
    }

    pub fn width(&self) -> (w: u16)
        ensures
            w == self.spec_width(),
    {
        self.width
    }

    pub fn height(&self) -> (h: u16)
        ensures
            h == self.spec_height(),
    {
        self.height
    }

    /// Resets every back-buffer cell to blank.
    pub fn clear(&mut self)
        requires
            old(self).wf(),
        ensures
            final(self).wf(),
            final(self).spec_width() == old(self).spec_width(),
            final(self).spec_height() == old(self).spec_height(),
            final(self).front() == old(self).front(),
            final(self).cursor() == old(self).cursor(),
            final(self).back().len() == old(self).back().len(),
            forall|i: int| 0 <= i < final(self).back().len() ==> #[trigger] final(self).back()[i] == blank(),
    {
        let n = self.back.len();
        let mut i: usize = 0;
        while i < n
            invariant
                n == self.back@.len(),
                self.width == old(self).width,
                self.height == old(self).height,
                self.front == old(self).front,
                self.cursor_pos == old(self).cursor_pos,
                self.back@.len() == old(self).back@.len(),
                i <= n,
                forall|k: int| 0 <= k < i ==> #[trigger] self.back@[k] == blank(),
            decreases n - i,
        {
            self.back.set(i, Cell::default());
            i += 1;
        }
    }

    /// Draws `ch` at `(col, row)` in the back buffer; positions off-screen are ignored.
    pub fn set(&mut self, col: u16, row: u16, ch: char, style: Style)
        requires
            old(self).wf(),
        ensures
            final(self).wf(),
            final(self).spec_width() == old(self).spec_width(),
            final(self).spec_height() == old(self).spec_height(),
            final(self).front() == old(self).front(),
            final(self).cursor() == old(self).cursor(),
            final(self).back() == if col < old(self).spec_width() && row < old(self).spec_height() {
                old(self).back().update(row * old(self).spec_width() + col, Cell { ch, style })
            } else {
                old(self).back()
            },
    {
        if col < self.width && row < self.height {
            assert(row * self.width + col < self.width * self.height) by (nonlinear_arith)
                requires row < self.height, col < self.width;
            assert(self.width * self.height <= 65535 * 65535) by (nonlinear_arith)
                requires self.width <= 65535, self.height <= 65535;
            let idx = (row as usize) * (self.width as usize) + (col as usize);
            self.back.set(idx, Cell { ch, style });
        }
    }

    /// Draws the characters of `text` on row `row` from column `col`, stopping at the right edge.
    pub fn print_str(&mut self, col: u16, row: u16, text: &str, style: Style)
        requires
            old(self).wf(),
        ensures
            final(self).wf(),
            final(self).spec_width() == old(self).spec_width(),
            final(self).spec_height() == old(self).spec_height(),
            final(self).front() == old(self).front(),
            final(self).cursor() == old(self).cursor(),
            final(self).back().len() == old(self).back().len(),
            forall|i: int| 0 <= i < final(self).back().len() ==> #[trigger] final(self).back()[i] == {
                let w = old(self).spec_width() as int;
                let r = i / w;
                let c = i % w;
                if r == row && col <= c && c - col < text@.len() {
                    Cell { ch: text@[c - col], style }
                } else {
                    old(self).back()[i]
                }
            },
    {
        let chars = crate::text::chars_of(text);
        let w = self.width;
        let mut cur: u16 = col;
        let mut k: usize = 0;
        while k < chars.len()
            invariant
                chars@ == text@,
                self.wf(),
                self.width == w, w == old(self).width,
                self.height == old(self).height,
                self.front@ == old(self).front@,
                self.cursor_pos == old(self).cursor_pos,
                self.back@.len() == old(self).back@.len(),
                cur == col + k,
                k <= chars@.len(),
                forall|i: int| 0 <= i < self.back@.len() ==> #[trigger] self.back@[i] == {
                    let r = i / (w as int);
                    let c = i % (w as int);
                    if r == row && col <= c && c - col < k {
                        Cell { ch: text@[c - col], style }
                    } else {
                        old(self).back@[i]
                    }
                },
            ensures
                self.wf(),
                self.width == old(self).width,
                self.height == old(self).height,
                self.front@ == old(self).front@,
                self.cursor_pos == old(self).cursor_pos,
                self.back@.len() == old(self).back@.len(),
                forall|i: int| 0 <= i < self.back@.len() ==> #[trigger] self.back@[i] == {
                    let r = i / (w as int);
                    let c = i % (w as int);
                    if r == row && col <= c && c - col < text@.len() {
                        Cell { ch: text@[c - col], style }
                    } else {
                        old(self).back@[i]
                    }
                },
            decreases chars@.len() - k,
        {
            if cur >= w {
                proof {
                    assert forall|i: int| 0 <= i < self.back@.len() implies #[trigger] self.back@[i] == {
                        let r = i / (w as int);
                        let c = i % (w as int);
                        if r == row && col <= c && c - col < text@.len() {
                            Cell { ch: text@[c - col], style }
                        } else {
                            old(self).back@[i]
                        }
                    } by {
                        assert(w > 0) by (nonlinear_arith) requires 0 <= i < self.back@.len(), self.back@.len() == w * self.height;
                        assert(i % (w as int) < w) by (nonlinear_arith) requires w > 0;
                    }
                }
                break;
            }
            let ghost before = self.back@;
            assert(before.len() == self.width * self.height);
            assert(before.len() == w * self.height);
            if row < self.height {
                assert(row * w + cur < w * self.height) by (nonlinear_arith)
                    requires cur < w, row < self.height;
                assert(w * self.height <= 65535 * 65535) by (nonlinear_arith)
                    requires w <= 65535, self.height <= 65535;
                let idx = (row as usize) * (w as usize) + (cur as usize);
                self.back.set(idx, Cell { ch: chars[k], style });
                assert(self.back@ == before.update(idx as int, Cell { ch: chars@[k as int], style }));
                assert(idx < before.len());
                assert(0 <= idx);
                proof { vstd::seq::axiom_seq_update_len(before, idx as int, Cell { ch: chars@[k as int], style }); }
                assert(before.update(idx as int, Cell { ch: chars@[k as int], style }).len() == before.len());
                assert(self.back@.len() == before.len());
            } else {
                assert(self.back@ == before);
            }
            assert(self.back@.len() == before.len());
            assert(self.wf());
            let ghost after = self.back@;
            assert(row < self.height ==> after == before.update(row * w + cur, Cell { ch: chars@[k as int], style }));
            assert(row >= self.height ==> after == before);
            proof {
                assert forall|i: int| 0 <= i < self.back@.len() implies #[trigger] self.back@[i] == {
                    let r = i / (w as int);
                    let c = i % (w as int);
                    if r == row && col <= c && c - col < k + 1 {
                        Cell { ch: text@[c - col], style }
                    } else {
                        old(self).back@[i]
                    }
                } by {
                    let r = i / (w as int);
                    let c = i % (w as int);
                    let h = self.height as int;
                    assert(w > 0);
                    assert(i == r * w + c && 0 <= c < w) by (nonlinear_arith)
                        requires w > 0, 0 <= i, r == i / (w as int), c == i % (w as int);
                    assert(r < h) by (nonlinear_arith)
                        requires i < w * h, i == r * w + c, 0 <= c, w > 0;
                    if row < h && i == row * w + cur {
                        assert(r == row && c == cur) by (nonlinear_arith)
                            requires i == row * w + cur, cur < w, w > 0, i == r * w + c, 0 <= c < w;
                        vstd::seq::axiom_seq_update_same(before, i, Cell { ch: chars@[k as int], style });
                        assert(after[i] == Cell { ch: text@[k as int], style });
                    } else {
                        assert(!(r == row && c == cur)) by (nonlinear_arith)
                            requires !(row < h && i == row * w + cur), i == r * w + c, r < h;
                        if row < h {
                            vstd::seq::axiom_seq_update_different(before, i, row * w + cur, Cell { ch: chars@[k as int], style });
                        }
                        assert(after[i] == before[i]);
                    }
                }
            }
            cur = cur + 1;
            k += 1;
        }
    }

    pub fn set_cursor(&mut self, col: u16, row: u16)
        ensures
            final(self).cursor() == Some((col, row)),
            final(self).wf() == old(self).wf(),
            final(self).spec_width() == old(self).spec_width(),
            final(self).spec_height() == old(self).spec_height(),
            final(self).front() == old(self).front(),
            final(self).back() == old(self).back(),
    {
        self.cursor_pos = Some((col, row));
    }
}

impl Framebuffer {
    /// Emits the VT sequences that bring the screen from the front buffer to
    /// the back buffer, then positions (or hides) the cursor and resets the
    /// style if one was set; afterwards the front buffer equals the back buffer.
    pub fn render_diff(&mut self) -> (out: String)
        requires
            old(self).wf(),
            old(self).cursor() matches Some((c, r)) ==> c < u16::MAX && r < u16::MAX,
        ensures
            final(self).wf(),
            final(self).spec_width() == old(self).spec_width(),
            final(self).spec_height() == old(self).spec_height(),
            final(self).cursor() == old(self).cursor(),
            final(self).back() == old(self).back(),
            final(self).front() == old(self).back(),
            out@ == flush_output(old(self).front(), old(self).back(), old(self).spec_width() as int,
                old(self).spec_height() as int, old(self).cursor()),
    {
        let mut out = String::new();
        let mut last_style = Style::new();
        let mut style_active = false;
        let mut last_pos: Option<(u16, u16)> = None;
        let w = self.width;
        let h = self.height;
        let ghost front0 = self.front@;
        let ghost back0 = self.back@;
        assert(w * h <= 65535 * 65535) by (nonlinear_arith) requires w <= 65535, h <= 65535;
        let total: usize = (w as usize) * (h as usize);
        let mut idx: usize = 0;
        let mut row: u16 = 0;
        let mut col: u16 = 0;
        assert(total > 0 ==> w > 0 && h > 0) by (nonlinear_arith) requires total == w * h;
        while idx < total
            invariant
                self.wf(),
                self.width == w, self.height == h,
                self.cursor_pos == old(self).cursor_pos,
                self.back@ == back0, back0 == old(self).back@, front0 == old(self).front@,
                total == w * h,
                idx <= total,
                self.front@.len() == total,
                forall|k: int| 0 <= k < idx ==> #[trigger] self.front@[k] == back0[k],
                forall|k: int| idx <= k < total ==> #[trigger] self.front@[k] == front0[k],
                idx < total ==> (idx == row * w + col && col < w && row < h),
                ({
                    let st = diff_state(front0, back0, w as int, idx as int);
                    &&& out@ == st.out
                    &&& last_style == st.last_style
                    &&& style_active == st.active
                    &&& (match last_pos {
                        Some((c, r)) => st.last_pos == Some((c as int, r as int)) && c < w && r < h,
                        None => st.last_pos.is_none(),
                    })
                }),
            decreases total - idx,
        {
            proof {
                vstd::arithmetic::div_mod::lemma_fundamental_div_mod_converse_div(idx as int, w as int, row as int, col as int);
                vstd::arithmetic::div_mod::lemma_fundamental_div_mod_converse_mod(idx as int, w as int, row as int, col as int);
            }
            let back_cell = self.back[idx];
            let front_cell = self.front[idx];
            if back_cell != front_cell {
                let need_move = match last_pos {
                    Some((lc, lr)) => lr != row || lc + 1 != col,
                    None => true,
                };
                let ghost o1 = out@;
                if need_move {
                    Vt::move_cursor(&mut out, col, row);
                }
                let ghost o2 = out@;
                let restyle = !style_active || back_cell.style != last_style;
                if restyle {
                    Vt::apply_style(&mut out, &back_cell.style);
                    last_style = back_cell.style;
                    style_active = true;
                }
                let ghost o3 = out@;
                push_char(&mut out, back_cell.ch);
                assert(out@ =~= o1 + (if need_move { cursor_to(col as nat, row as nat) } else { Seq::empty() })
                    + (if restyle { sgr(back_cell.style) } else { Seq::empty() }) + seq![back_cell.ch]);
                self.front.set(idx, back_cell);
                last_pos = Some((col, row));
            }
            let ghost col_old = col;
            idx = idx + 1;
            if col + 1 < w {
                col = col + 1;
            } else {
                col = 0;
                assert(idx == (row + 1) * w) by (nonlinear_arith)
                    requires idx == row * w + col_old + 1, col_old + 1 >= w, col_old < w;
                if row + 1 < h {
                    row = row + 1;
                } else {
                    assert(idx == total) by (nonlinear_arith)
                        requires idx == (row + 1) * w, row + 1 >= h, row < h, total == w * h;
                }
            }
        }
        assert(self.front@ =~= back0);
        let ghost body = out@;
        match self.cursor_pos {
            Some((c, r)) => {
                Vt::move_cursor(&mut out, c, r);
                Vt::show_cursor(&mut out);
            },
            None => {
                Vt::hide_cursor(&mut out);
            },
        }
        let ghost with_cursor = out@;
        if style_active {
            Vt::reset_style(&mut out);
        }
        assert(out@ =~= flush_output(front0, back0, w as int, h as int, self.cursor_pos));
        out
    }
}

impl Framebuffer {
    /// Writes the diff rendering (see `render_diff`) to `writer` as UTF-8.
    pub fn flush(&mut self, writer: &mut Vec<u8>) -> (r: Result<(), std::io::Error>)
        requires
            old(self).wf(),
            old(self).cursor() matches Some((c, r)) ==> c < u16::MAX && r < u16::MAX,
        ensures
            r is Ok,
            final(self).wf(),
            final(self).spec_width() == old(self).spec_width(),
            final(self).spec_height() == old(self).spec_height(),
            final(self).cursor() == old(self).cursor(),
            final(self).back() == old(self).back(),
            final(self).front() == old(self).back(),
            final(writer)@ == old(writer)@ + vstd::utf8::encode_utf8(flush_output(old(self).front(), old(self).back(),
                old(self).spec_width() as int, old(self).spec_height() as int, old(self).cursor())),
    {
        let out = self.render_diff();
        let bytes = out.as_str().as_bytes();
        writer.extend_from_slice(bytes);
        assert(writer@ =~= old(writer)@ + bytes@);
        Ok(())
    }
}

} // verus!
