//! A grid of styled cells covering a rectangle.
use vstd::prelude::*;
use super::layout::{Rect, sat_add16};
use super::vt::{Color, Style};
use crate::text::{chars_of, owned};

verus! {

/// One terminal cell: the symbol drawn there and its colors and attributes.
#[derive(Debug)]
pub struct Cell {
    pub symbol: String,
    pub fg: Color,
    pub bg: Color,
    pub modifier: u16,
}

impl Default for Cell {
    fn default() -> (c: Cell)
        ensures
            c.symbol@ == " "@,
            c.fg == Color::Reset,
            c.bg == Color::Reset,
            c.modifier == 0,
    {
        Cell { symbol: owned(" "), fg: Color::Reset, bg: Color::Reset, modifier: 0 }
    }
}

impl Clone for Cell {
    fn clone(&self) -> (c: Cell)
        ensures
            c == *self,
    {
        Cell { symbol: self.symbol.clone(), fg: self.fg, bg: self.bg, modifier: self.modifier }
    }
}

/// The abstract content of a cell.
pub struct CellView {
    pub symbol: Seq<char>,
    pub fg: Color,
    pub bg: Color,
    pub modifier: u16,
}

impl View for Cell {
    type V = CellView;

    open spec fn view(&self) -> CellView {
        CellView { symbol: self.symbol@, fg: self.fg, bg: self.bg, modifier: self.modifier }
    }
}

/// A cell after applying `style`: set colors replace the cell's, unset ones keep it.
pub open spec fn styled_cell(c: CellView, style: Style) -> CellView {
    CellView {
        fg: match style.fg { Some(f) => f, None => c.fg },
        bg: match style.bg { Some(b) => b, None => c.bg },
        ..c
    }
}

/// The cell as a blank default cell.
pub open spec fn blank_cell() -> CellView {
    CellView { symbol: " "@, fg: Color::Reset, bg: Color::Reset, modifier: 0 }
}

impl Cell {
    /// A blank cell.
    pub open spec fn blank(self) -> bool {
        self@ == blank_cell()
    }

    pub fn set_char(&mut self, ch: char)
        ensures
            final(self).symbol@ == seq![ch],
            final(self).fg == old(self).fg,
            final(self).bg == old(self).bg,
            final(self).modifier == old(self).modifier,
    {
        let mut s = String::new();
        crate::text::push_char(&mut s, ch);
        self.symbol = s;
    }

    pub fn set_symbol(&mut self, symbol: &str)
        ensures
            final(self).symbol@ == symbol@,
            final(self).fg == old(self).fg,
            final(self).bg == old(self).bg,
            final(self).modifier == old(self).modifier,
    {
        self.symbol = owned(symbol);
    }

    pub fn symbol(&self) -> (s: &str)
        ensures
            s@ == self.symbol@,
    {
        self.symbol.as_str()
    }

    pub fn set_style(&mut self, style: Style)
        ensures
            final(self)@ == styled_cell(old(self)@, style),
    {
        match style.fg {
            Some(fg) => { self.fg = fg; },
            None => {},
        }
        match style.bg {
            Some(bg) => { self.bg = bg; },
            None => {},
        }
    }

    /// A default cell showing `ch`.
    pub fn from_char(ch: char) -> (c: Cell)
        ensures
            c.symbol@ == seq![ch],
            c.fg == Color::Reset,
            c.bg == Color::Reset,
            c.modifier == 0,
    {
        let mut c = Cell::default();
        c.set_char(ch);
        c
    }
}

/// A grid of cells over `area`, stored row by row.
#[derive(Debug)]
pub struct Buffer {
    pub area: Rect,
    pub content: Vec<Cell>,
}

impl Default for Buffer {
    fn default() -> (b: Buffer)
        ensures
            b.area == (Rect { x: 0, y: 0, width: 0, height: 0 }),
            b.content@.len() == 0,
    {
        Buffer { area: Rect { x: 0, y: 0, width: 0, height: 0 }, content: Vec::new() }
    }
}

impl Clone for Buffer {
    fn clone(&self) -> (b: Buffer)
        ensures
            b.area == self.area,
            b.content@ == self.content@,
    {
        let mut content: Vec<Cell> = Vec::new();
        let mut i: usize = 0;
        while i < self.content.len()
            invariant
                i <= self.content@.len(),
                content@ == self.content@.take(i as int),
            decreases self.content@.len() - i,
        {
            content.push(self.content[i].clone());
            assert(self.content@.take(i + 1) =~= self.content@.take(i as int).push(self.content@[i as int]));
            i += 1;
        }
        assert(self.content@.take(self.content@.len() as int) =~= self.content@);
        Buffer { area: self.area, content }
    }
}

/// The position of cell `(x, y)` in the row-major content, clamped to the last cell.
pub open spec fn cell_index(area: Rect, len: nat, x: int, y: int) -> int {
    let rel_x = if x >= area.x { x - area.x } else { 0 };
    let rel_y = if y >= area.y { y - area.y } else { 0 };
    let raw = rel_y * area.width + rel_x;
    let last = if len >= 1 { len - 1 } else { 0 };
    if raw < last { raw } else { last }
}

/// The content after writing the first `k` characters of `s` from column `x` on row `y`.
pub open spec fn written(area: Rect, content: Seq<CellView>, x: int, y: int, s: Seq<char>, style: Style, k: nat) -> Seq<CellView>
    decreases k,
{
    if k == 0 {
        content
    } else {
        let prev = written(area, content, x, y, s, style, (k - 1) as nat);
        let i = cell_index(area, content.len(), x + k - 1, y);
        prev.update(i, styled_cell(CellView { symbol: seq![s[k - 1]], ..prev[i] }, style))
    }
}

/// How many characters of `s` fit from column `x` on row `y`.
pub open spec fn fitting_chars(area: Rect, x: int, y: int, len: nat) -> nat {
    if y >= area.spec_bottom() || x >= area.spec_right() {
        0
    } else if len < area.spec_right() - x {
        len
    } else {
        (area.spec_right() - x) as nat
    }
}

impl Buffer {
    /// The abstract cells, row by row.
    pub open spec fn cells(self) -> Seq<CellView> {
        self.content@.map_values(|c: Cell| c@)
    }

    /// The content has exactly one cell per position of the area.
    pub open spec fn wf(self) -> bool {
        self.content@.len() == self.area.width * self.area.height
    }

    /// A buffer of default cells covering `area`.
    pub fn empty(area: Rect) -> (b: Buffer)
        ensures
            b.area == area,
            b.wf(),
            forall|i: int| 0 <= i < b.content@.len() ==> (#[trigger] b.content@[i]).blank(),
    {
        let size = area.area();
        let mut content: Vec<Cell> = Vec::new();
        let mut i: usize = 0;
        while i < size
            invariant
                i <= size,
                content@.len() == i,
                forall|k: int| 0 <= k < i ==> (#[trigger] content@[k]).blank(),
            decreases size - i,
        {
            content.push(Cell::default());
            i += 1;
        }
        Buffer { area, content }
    }

    /// Row-major position of `(x, y)`, clamped into the content.
    pub fn index_of(&self, x: u16, y: u16) -> (i: usize)
        ensures
            i == cell_index(self.area, self.content@.len(), x as int, y as int),
    {
        let rel_x: usize = x.saturating_sub(self.area.x) as usize;
        let rel_y: usize = y.saturating_sub(self.area.y) as usize;
        assert(rel_y * self.area.width <= 65535 * 65535) by (nonlinear_arith)
            requires rel_y <= 65535, self.area.width <= 65535;
        let raw = rel_y * (self.area.width as usize) + rel_x;
        let last = self.content.len().saturating_sub(1);
        if raw < last { raw } else { last }
    }

    pub fn get(&self, x: u16, y: u16) -> (c: &Cell)
        requires
            self.content@.len() > 0,
        ensures
            *c == self.content@[cell_index(self.area, self.content@.len(), x as int, y as int)],
    {
        let idx = self.index_of(x, y);
        &self.content[idx]
    }

    /// The cell at `(x, y)`, or `None` outside the area.
    pub fn cell(&self, pos: (u16, u16)) -> (c: Option<&Cell>)
        ensures
            (pos.0 >= self.area.spec_right() || pos.1 >= self.area.spec_bottom() || pos.0 < self.area.x || pos.1 < self.area.y)
                ==> c.is_none(),
            !(pos.0 >= self.area.spec_right() || pos.1 >= self.area.spec_bottom() || pos.0 < self.area.x || pos.1 < self.area.y)
                ==> c == (if self.content@.len() > 0 {
                    Some(&self.content@[cell_index(self.area, self.content@.len(), pos.0 as int, pos.1 as int)])
                } else { None }),
    {
        let (x, y) = pos;
        if x >= self.area.right() || y >= self.area.bottom() || x < self.area.x || y < self.area.y {
            None
        } else {
            let idx = self.index_of(x, y);
            if idx < self.content.len() { Some(&self.content[idx]) } else { None }
        }
    }

    /// Replaces the cell at `(x, y)`.
    pub fn set_cell(&mut self, x: u16, y: u16, cell: Cell)
        requires
            old(self).content@.len() > 0,
        ensures
            final(self).area == old(self).area,
            final(self).content@ == old(self).content@.update(
                cell_index(old(self).area, old(self).content@.len(), x as int, y as int), cell),
    {
        let idx = self.index_of(x, y);
        self.content.set(idx, cell);
    }

    /// Writes the characters of `string` into consecutive cells of row `y`
    /// from column `x`, applying `style`, until the row or the area ends.
    pub fn set_string(&mut self, x: u16, y: u16, string: &str, style: Style)
        requires
            fitting_chars(old(self).area, x as int, y as int, string@.len()) > 0 ==> old(self).content@.len() > 0,
        ensures
            final(self).area == old(self).area,
            final(self).content@.len() == old(self).content@.len(),
            final(self).cells() == written(old(self).area, old(self).cells(), x as int, y as int, string@, style,
                fitting_chars(old(self).area, x as int, y as int, string@.len())),
    {
        let chars = chars_of(string);
        let ghost n = fitting_chars(self.area, x as int, y as int, chars@.len());
        let mut cur_x: u16 = x;
        let mut k: usize = 0;
        let right = self.area.right();
        let bottom = self.area.bottom();
        while k < chars.len()
            invariant
                self.area == old(self).area,
                self.content@.len() == old(self).content@.len(),
                fitting_chars(old(self).area, x as int, y as int, string@.len()) > 0 ==> old(self).content@.len() > 0,
                right == self.area.spec_right(),
                bottom == self.area.spec_bottom(),
                chars@ == string@,
                n == fitting_chars(self.area, x as int, y as int, chars@.len()),
                k <= n,
                cur_x == x + k,
                self.cells() == written(self.area, old(self).cells(), x as int, y as int, string@, style, k as nat),
            ensures
                self.area == old(self).area,
                self.content@.len() == old(self).content@.len(),
                self.cells() == written(self.area, old(self).cells(), x as int, y as int, string@, style, n),
            decreases chars@.len() - k,
        {
            if cur_x >= right || y >= bottom {
                break;
            }
            let idx = self.index_of(cur_x, y);
            let mut cell = self.content[idx].clone();
            cell.set_char(chars[k]);
            cell.set_style(style);
            let ghost before = self.cells();
            self.content.set(idx, cell);
            assert(self.cells() =~= before.update(idx as int, cell@));
            cur_x = cur_x + 1;
            k += 1;
        }
    }

    /// Changes the area; existing cells are kept and new ones are default.
    pub fn resize(&mut self, area: Rect)
        ensures
            final(self).area == area,
            final(self).content@.len() == area.width * area.height,
            forall|i: int| 0 <= i < final(self).content@.len() ==>
                (i < old(self).content@.len() ==> #[trigger] final(self).content@[i] == old(self).content@[i])
                && (i >= old(self).content@.len() ==> final(self).content@[i].blank()),
    {
        let size = area.area();
        self.area = area;
        let old_len = self.content.len();
        if size < old_len {
            self.content.truncate(size);
        } else {
            let mut i: usize = old_len;
            while i < size
                invariant
                    old_len == old(self).content@.len(),
                    old_len <= i <= size,
                    self.area == area,
                    self.content@.len() == i,
                    forall|k: int| 0 <= k < i ==>
                        (k < old_len ==> #[trigger] self.content@[k] == old(self).content@[k])
                        && (k >= old_len ==> self.content@[k].blank()),
                decreases size - i,
            {
                self.content.push(Cell::default());
                i += 1;
            }
        }
    }
}

} // verus!
