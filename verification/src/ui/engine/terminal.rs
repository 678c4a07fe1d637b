//! Terminals over a backend: a cell buffer that frames draw into and a
//! framebuffer that turns the buffer into VT output.
use vstd::prelude::*;
use super::buffer::{Buffer, CellView, cell_index};
use super::framebuffer::{Framebuffer, flush_output, blank};
use super::layout::{Rect, sat_add16};
use super::vt::{Color, Style};
use super::widgets::{Widget, StatefulWidget};

verus! {

/// Where a terminal gets its size from and sends its output to.
pub trait Backend {
    /// The size the backend reports, or `None` where it reports an error instead.
    spec fn reported_size(&self) -> Option<Rect>;

    fn size(&self) -> (r: Result<Rect, std::io::Error>)
        ensures
            match r {
                Ok(a) => self.reported_size() == Some(a),
                Err(_) => self.reported_size() is None,
            },
    ;

    fn flush(&mut self) -> Result<(), std::io::Error>;

    fn clear(&mut self) -> Result<(), std::io::Error>;

    /// Receives a copy of each drawn buffer; does nothing unless overridden.
    fn sync_buffer(&mut self, buf: &Buffer) {
    }
}

/// An in-memory backend that keeps the last drawn buffer.
pub struct TestBackend {
    pub width: u16,
    pub height: u16,
    pub buffer: Buffer,
}

impl TestBackend {
    pub fn new(width: u16, height: u16) -> (b: TestBackend)
        ensures
            b.width == width,
            b.height == height,
            b.buffer.area == (Rect { x: 0, y: 0, width, height }),
            b.buffer.wf(),
            forall|i: int| 0 <= i < b.buffer.content@.len() ==> (#[trigger] b.buffer.content@[i]).blank(),
    {
        TestBackend { width, height, buffer: Buffer::empty(Rect::new(0, 0, width, height)) }
    }

    pub fn buffer(&self) -> (b: &Buffer)
        ensures
            *b == self.buffer,
    {
        &self.buffer
    }

    pub fn buffer_mut(&mut self) -> (b: &mut Buffer)
        ensures
            *b == old(self).buffer,
            final(self).buffer == *final(b),
            final(self).width == old(self).width,
            final(self).height == old(self).height,
    {
        &mut self.buffer
    }

    /// Changes the size; the buffer keeps its cells and grows with blank ones.
    pub fn resize(&mut self, width: u16, height: u16)
        ensures
            final(self).width == width,
            final(self).height == height,
            final(self).buffer.area == (Rect { x: 0, y: 0, width, height }),
            final(self).buffer.content@.len() == width * height,
    {
        self.width = width;
        self.height = height;
        self.buffer.resize(Rect::new(0, 0, width, height));
    }
}

impl Backend for TestBackend {
    open spec fn reported_size(&self) -> Option<Rect> {
        Some(Rect { x: 0, y: 0, width: self.width, height: self.height })
    }

    fn size(&self) -> (r: Result<Rect, std::io::Error>)
        ensures
            r matches Ok(a) && a == (Rect { x: 0, y: 0, width: self.width, height: self.height }),
    {
        Ok(Rect::new(0, 0, self.width, self.height))
    }

    fn flush(&mut self) -> (r: Result<(), std::io::Error>)
        ensures
            r is Ok,
            *final(self) == *old(self),
    {
        Ok(())
    }

    fn clear(&mut self) -> (r: Result<(), std::io::Error>)
        ensures
            r is Ok,
            final(self).width == old(self).width,
            final(self).height == old(self).height,
            blank_buffer(final(self).buffer, Rect { x: 0, y: 0, width: old(self).width, height: old(self).height }),
    {
        self.buffer = Buffer::empty(Rect::new(0, 0, self.width, self.height));
        Ok(())
    }

    fn sync_buffer(&mut self, buf: &Buffer)
        ensures
            final(self).buffer.area == buf.area,
            final(self).buffer.content@ == buf.content@,
            final(self).width == old(self).width,
            final(self).height == old(self).height,
    {
        self.buffer = buf.clone();
    }
}

/// A destination for terminal output.
pub trait Sink {
    fn write_text(&mut self, text: &str) -> Result<(), std::io::Error>;

    fn flush_sink(&mut self) -> Result<(), std::io::Error>;
}

/// `std::io::Stdout`, the process's standard output.
#[verifier::external_type_specification]
#[verifier::external_body]
pub struct ExStdout(std::io::Stdout);

/// Writes text to standard output (`Write::write_all`).
#[verifier::external_body]
fn stdout_write(out: &mut std::io::Stdout, text: &str) -> Result<(), std::io::Error> {
    std::io::Write::write_all(out, text.as_bytes())
}

/// Flushes standard output (`Write::flush`).
#[verifier::external_body]
fn stdout_flush(out: &mut std::io::Stdout) -> Result<(), std::io::Error> {
    std::io::Write::flush(out)
}

impl Sink for std::io::Stdout {
    fn write_text(&mut self, text: &str) -> Result<(), std::io::Error> {
        stdout_write(self, text)
    }

    fn flush_sink(&mut self) -> Result<(), std::io::Error> {
        stdout_flush(self)
    }
}

impl Sink for Vec<u8> {
    fn write_text(&mut self, text: &str) -> (r: Result<(), std::io::Error>)
        ensures
            r is Ok,
            final(self)@ == old(self)@ + vstd::utf8::encode_utf8(text@),
    {
        let bytes = text.as_bytes();
        self.extend_from_slice(bytes);
        assert(self@ =~= old(self)@ + bytes@);
        Ok(())
    }

    fn flush_sink(&mut self) -> (r: Result<(), std::io::Error>)
        ensures
            r is Ok,
            final(self)@ == old(self)@,
    {
        Ok(())
    }
}

/// A backend that writes to `W`, with the fallback size of 120 by 30.
pub struct CrosstermBackend<W> {
    writer: W,
    width: u16,
    height: u16,
}

impl<W> CrosstermBackend<W> {
    pub closed spec fn spec_size(&self) -> (u16, u16) {
        (self.width, self.height)
    }

    pub fn new(writer: W) -> (b: CrosstermBackend<W>)
        ensures
            b.spec_size() == (120u16, 30u16),
    {
        CrosstermBackend { writer, width: 120, height: 30 }
    }

    pub closed spec fn spec_writer(&self) -> W {
        self.writer
    }

    /// The writer the backend sends output to.
    pub fn writer_mut(&mut self) -> (w: &mut W)
        ensures
            *w == old(self).spec_writer(),
            final(self).spec_writer() == *final(w),
            final(self).spec_size() == old(self).spec_size(),
    {
        &mut self.writer
    }
}

impl<W: Sink> Backend for CrosstermBackend<W> {
    open spec fn reported_size(&self) -> Option<Rect> {
        Some(Rect { x: 0, y: 0, width: self.spec_size().0, height: self.spec_size().1 })
    }

    fn size(&self) -> (r: Result<Rect, std::io::Error>)
        ensures
            r matches Ok(a) && a == (Rect { x: 0, y: 0, width: self.spec_size().0, height: self.spec_size().1 }),
    {
        Ok(Rect::new(0, 0, self.width, self.height))
    }

    fn flush(&mut self) -> Result<(), std::io::Error> {
        self.writer.flush_sink()
    }

    /// Clears the screen and homes the cursor, then flushes.
    fn clear(&mut self) -> Result<(), std::io::Error> {
        match self.writer.write_text("\x1b[2J\x1b[H") {
            Ok(()) => self.writer.flush_sink(),
            Err(e) => Err(e),
        }
    }
}

/// The drawing surface handed to a draw callback.
pub struct Frame<'a> {
    pub area: Rect,
    pub buffer: &'a mut Buffer,
    pub cursor_pos: Option<(u16, u16)>,
}

impl<'a> Frame<'a> {
    pub fn area(&self) -> (r: Rect)
        ensures
            r == self.area,
    {
        self.area
    }

    pub fn size(&self) -> (r: Rect)
        ensures
            r == self.area,
    {
        self.area
    }

    /// The buffer drawn on.
    pub open spec fn drawn_buffer(&self) -> Buffer {
        *self.buffer
    }

    pub fn buffer(&self) -> (b: &Buffer)
        ensures
            *b == self.drawn_buffer(),
    {
        self.buffer
    }

    pub fn render_widget<W: Widget>(&mut self, widget: W, area: Rect)
        requires
            old(self).buffer.content@.len() > 0,
        ensures
            final(self).area == old(self).area,
            final(self).cursor_pos == old(self).cursor_pos,
            final(self).buffer.area == old(self).buffer.area,
            final(self).buffer.content@.len() == old(self).buffer.content@.len(),
    {
        widget.render(area, self.buffer);
    }

    pub fn render_stateful_widget<W: StatefulWidget>(&mut self, widget: W, area: Rect, state: &mut W::State)
        requires
            old(self).buffer.content@.len() > 0,
        ensures
            final(self).area == old(self).area,
            final(self).cursor_pos == old(self).cursor_pos,
            final(self).buffer.area == old(self).buffer.area,
            final(self).buffer.content@.len() == old(self).buffer.content@.len(),
    {
        widget.render(area, self.buffer, state);
    }

    pub fn set_cursor_position(&mut self, pos: (u16, u16))
        ensures
            final(self).cursor_pos == Some(pos),
            final(self).area == old(self).area,
            *final(self).buffer == *old(self).buffer,
    {
        self.cursor_pos = Some(pos);
    }

    pub fn set_cursor(&mut self, x: u16, y: u16)
        ensures
            final(self).cursor_pos == Some((x, y)),
            final(self).area == old(self).area,
            *final(self).buffer == *old(self).buffer,
    {
        self.cursor_pos = Some((x, y));
    }
}

/// The framebuffer style of a buffer cell: its colors, and the attribute
/// flags of its modifier (1 bold, 2 dim, 4 italic, 8 underline, 16 reverse).
pub open spec fn cell_style(c: CellView) -> Style {
    Style {
        fg: Some(c.fg),
        bg: Some(c.bg),
        bold: c.modifier & 1 != 0,
        dim: c.modifier & 2 != 0,
        italic: c.modifier & 4 != 0,
        underline: c.modifier & 8 != 0,
        reverse: c.modifier & 16 != 0,
    }
}

/// The framebuffer cell showing a buffer cell: the first character of its
/// symbol (a space for an empty symbol) in the cell's style.
pub open spec fn frame_cell(c: CellView) -> super::framebuffer::Cell {
    super::framebuffer::Cell { ch: if c.symbol.len() > 0 { c.symbol[0] } else { ' ' }, style: cell_style(c) }
}

/// The framebuffer cells for a buffer, row by row: position `(col, row)`
/// shows the buffer cell at `(x + col, y + row)` of its area.
pub open spec fn composed(b: Buffer) -> Seq<super::framebuffer::Cell> {
    let w = b.area.width as int;
    let h = b.area.height as int;
    Seq::new((w * h) as nat, |i: int| frame_cell(b.cells()[cell_index(b.area, b.content@.len(),
        sat_add16(b.area.x as int, i % w), sat_add16(b.area.y as int, i / w))]))
}

/// `b` covers `area` with one blank cell per position.
pub open spec fn blank_buffer(b: Buffer, area: Rect) -> bool {
    &&& b.area == area
    &&& b.wf()
    &&& forall|i: int| 0 <= i < b.content@.len() ==> (#[trigger] b.content@[i]).blank()
}

/// `after` is `before` following a size of `a`: unchanged where the
/// dimensions stay, otherwise of the new dimensions with every cell blank.
pub open spec fn resized_framebuffer(before: Framebuffer, after: Framebuffer, a: Rect) -> bool {
    &&& after.cursor() == before.cursor()
    &&& (before.spec_width() == a.width && before.spec_height() == a.height ==> after == before)
    &&& (!(before.spec_width() == a.width && before.spec_height() == a.height) ==> {
        &&& after.wf()
        &&& after.spec_width() == a.width
        &&& after.spec_height() == a.height
        &&& forall|i: int| 0 <= i < a.width * a.height ==> #[trigger] after.front()[i] == blank() && after.back()[i] == blank()
    })
}

/// `after` is the terminal `before` following a backend size of `a`:
/// unchanged where the buffer already has those dimensions, otherwise with a
/// blank buffer over `a` and a framebuffer resized to it.
pub open spec fn resized<B: Backend>(before: Terminal<B>, after: Terminal<B>, a: Rect) -> bool {
    if before.spec_buffer().area.width == a.width && before.spec_buffer().area.height == a.height {
        after == before
    } else {
        &&& blank_buffer(after.spec_buffer(), a)
        &&& resized_framebuffer(before.spec_framebuffer(), after.spec_framebuffer(), a)
        &&& after.spec_backend() == before.spec_backend()
    }
}

/// A terminal drawing through a backend.
pub struct Terminal<B: Backend> {
    backend: B,
    buffer: Buffer,
    framebuffer: Framebuffer,
}

impl<B: Backend> Terminal<B> {
    /// The buffer and framebuffer are well formed and have the same dimensions.
    pub closed spec fn wf(&self) -> bool {
        &&& self.buffer.wf()
        &&& self.framebuffer.wf()
        &&& self.framebuffer.spec_width() == self.buffer.area.width
        &&& self.framebuffer.spec_height() == self.buffer.area.height
        &&& (self.framebuffer.cursor() matches Some((c, r)) ==> c < u16::MAX && r < u16::MAX)
    }

    pub closed spec fn spec_buffer(&self) -> Buffer {
        self.buffer
    }

    pub closed spec fn spec_backend(&self) -> B {
        self.backend
    }

    pub closed spec fn spec_framebuffer(&self) -> Framebuffer {
        self.framebuffer
    }

    /// A terminal sized like the backend, with blank buffers; fails where the
    /// backend reports no size.
    pub fn new(backend: B) -> (r: Result<Terminal<B>, std::io::Error>)
        ensures
            r is Ok <==> backend.reported_size() is Some,
            r matches Ok(t) ==> {
                &&& t.wf()
                &&& t.spec_backend() == backend
                &&& blank_buffer(t.spec_buffer(), backend.reported_size()->0)
                &&& t.spec_framebuffer().cursor().is_none()
                &&& forall|i: int| 0 <= i < t.spec_framebuffer().front().len() ==>
                    #[trigger] t.spec_framebuffer().front()[i] == blank() && t.spec_framebuffer().back()[i] == blank()
            },
    {
        let size = match backend.size() {
            Ok(s) => s,
            Err(e) => { return Err(e); },
        };
        let buffer = Buffer::empty(size);
        let framebuffer = Framebuffer::new(size.width, size.height);
        Ok(Terminal { backend, buffer, framebuffer })
    }

    /// The backend's size.
    pub fn size(&self) -> (r: Result<Rect, std::io::Error>)
        ensures
            match r {
                Ok(a) => self.spec_backend().reported_size() == Some(a),
                Err(_) => self.spec_backend().reported_size() is None,
            },
    {
        self.backend.size()
    }

    /// Blanks the buffer at the backend's size and clears the backend.
    pub fn clear(&mut self) -> (r: Result<(), std::io::Error>)
        requires
            old(self).wf(),
        ensures
            match old(self).spec_backend().reported_size() {
                None => r is Err && *final(self) == *old(self),
                Some(a) => blank_buffer(final(self).spec_buffer(), a)
                    && final(self).spec_framebuffer() == old(self).spec_framebuffer(),
            },
    {
        let size = match self.backend.size() {
            Ok(s) => s,
            Err(e) => { return Err(e); },
        };
        self.buffer = Buffer::empty(size);
        self.backend.clear()
    }

    /// Follows a change of the backend's size: the buffer is blanked and the
    /// framebuffer resized; an unchanged size leaves everything as it is.
    pub fn autoresize(&mut self) -> (r: Result<(), std::io::Error>)
        requires
            old(self).wf(),
        ensures
            final(self).wf(),
            final(self).spec_backend() == old(self).spec_backend(),
            match old(self).spec_backend().reported_size() {
                None => r is Err && *final(self) == *old(self),
                Some(a) => r is Ok && resized(*old(self), *final(self), a),
            },
    {
        let size = match self.backend.size() {
            Ok(s) => s,
            Err(e) => { return Err(e); },
        };
        if size.width != self.buffer.area.width || size.height != self.buffer.area.height {
            self.buffer = Buffer::empty(size);
            self.framebuffer.resize(size.width, size.height);
        }
        Ok(())
    }

    pub fn backend(&self) -> (b: &B)
        ensures
            *b == self.spec_backend(),
    {
        &self.backend
    }

    pub fn backend_mut(&mut self) -> (b: &mut B)
        ensures
            *b == old(self).spec_backend(),
            final(self).spec_backend() == *final(b),
            final(self).spec_buffer() == old(self).spec_buffer(),
            final(self).wf() == old(self).wf(),
    {
        &mut self.backend
    }

    /// Starts a frame: follows the backend's size and blanks the buffer at it.
    pub fn begin_frame(&mut self) -> (r: Result<Rect, std::io::Error>)
        requires
            old(self).wf(),
        ensures
            final(self).wf(),
            r matches Ok(area) ==> final(self).spec_buffer().area == area,
            final(self).spec_backend() == old(self).spec_backend(),
            match old(self).spec_backend().reported_size() {
                None => r is Err && *final(self) == *old(self),
                Some(a) => r matches Ok(x) && x == a
                    && blank_buffer(final(self).spec_buffer(), a)
                    && resized_framebuffer(old(self).spec_framebuffer(), final(self).spec_framebuffer(), a),
            },
    {
        match self.autoresize() {
            Ok(()) => {},
            Err(e) => { return Err(e); },
        }
        let size = match self.backend.size() {
            Ok(s) => s,
            Err(e) => { return Err(e); },
        };
        if size.width != self.buffer.area.width || size.height != self.buffer.area.height {
            self.framebuffer.resize(size.width, size.height);
        }
        self.buffer = Buffer::empty(size);
        Ok(size)
    }

    /// The buffer that frames draw into.
    pub fn buffer_mut(&mut self) -> (b: &mut Buffer)
        requires
            old(self).wf(),
        ensures
            *b == old(self).spec_buffer(),
            final(self).spec_buffer() == *final(b),
            final(self).spec_backend() == old(self).spec_backend(),
            (final(b).area == old(self).spec_buffer().area && final(b).content@.len() == old(self).spec_buffer().content@.len())
                ==> final(self).wf(),
    {
        &mut self.buffer
    }

    /// Copies the buffer into the framebuffer (first character of each cell's
    /// symbol, or a space, with the cell's colors and attributes), places the
    /// cursor, and returns the VT output for the cells that changed.
    pub fn compose(&mut self, cursor: Option<(u16, u16)>) -> (out: String)
        requires
            old(self).wf(),
            cursor matches Some((c, r)) ==> c < u16::MAX && r < u16::MAX,
        ensures
            final(self).wf(),
            final(self).spec_buffer() == old(self).spec_buffer(),
            final(self).spec_backend() == old(self).spec_backend(),
            final(self).spec_framebuffer().cursor() == (match cursor {
                Some(p) => Some(p),
                None => old(self).spec_framebuffer().cursor(),
            }),
            final(self).spec_framebuffer().back() == composed(old(self).spec_buffer()),
            final(self).spec_framebuffer().front() == composed(old(self).spec_buffer()),
            out@ == flush_output(old(self).spec_framebuffer().front(), composed(old(self).spec_buffer()),
                old(self).spec_buffer().area.width as int, old(self).spec_buffer().area.height as int,
                final(self).spec_framebuffer().cursor()),
    {
        self.framebuffer.clear();
        proof { self.framebuffer.lemma_wf_len(); }
        let w = self.buffer.area.width;
        let h = self.buffer.area.height;
        let x0 = self.buffer.area.x;
        let y0 = self.buffer.area.y;
        let ghost target = composed(self.buffer);
        if w > 0 && h > 0 {
            assert(self.buffer.content@.len() > 0) by (nonlinear_arith)
                requires self.buffer.content@.len() == w * h, w > 0, h > 0;
            let mut y: u16 = 0;
            while y < h
                invariant
                    self.wf(),
                    self.buffer == old(self).buffer,
                    self.backend == old(self).backend,
                    self.buffer.content@.len() > 0,
                    w == self.buffer.area.width, h == self.buffer.area.height,
                    x0 == self.buffer.area.x, y0 == self.buffer.area.y,
                    w > 0,
                    y <= h,
                    target == composed(self.buffer),
                    self.framebuffer.cursor() == old(self).framebuffer.cursor(),
                    self.framebuffer.front() == old(self).framebuffer.front(),
                    forall|i: int| 0 <= i < y * w ==> #[trigger] self.framebuffer.back()[i] == target[i],
                    forall|i: int| y * w <= i < w * h ==> #[trigger] self.framebuffer.back()[i] == blank(),
                decreases h - y,
            {
                let mut x: u16 = 0;
                while x < w
                    invariant
                        self.wf(),
                        self.buffer == old(self).buffer,
                        self.backend == old(self).backend,
                        self.buffer.content@.len() > 0,
                        w == self.buffer.area.width, h == self.buffer.area.height,
                        x0 == self.buffer.area.x, y0 == self.buffer.area.y,
                        w > 0,
                        y < h,
                        x <= w,
                        target == composed(self.buffer),
                        self.framebuffer.cursor() == old(self).framebuffer.cursor(),
                        self.framebuffer.front() == old(self).framebuffer.front(),
                        forall|i: int| 0 <= i < y * w + x ==> #[trigger] self.framebuffer.back()[i] == target[i],
                        forall|i: int| y * w + x <= i < w * h ==> #[trigger] self.framebuffer.back()[i] == blank(),
                    decreases w - x,
                {
                    let cell = self.buffer.get(x0.saturating_add(x), y0.saturating_add(y));
                    let sym = crate::text::chars_of(cell.symbol.as_str());
                    let ch = if sym.len() > 0 { sym[0] } else { ' ' };
                    let m = cell.modifier;
                    let style = Style {
                        fg: Some(cell.fg),
                        bg: Some(cell.bg),
                        bold: (m & 1) != 0,
                        dim: (m & 2) != 0,
                        italic: (m & 4) != 0,
                        underline: (m & 8) != 0,
                        reverse: (m & 16) != 0,
                    };
                    let ghost idx = y * w + x;
                    proof {
                        vstd::arithmetic::div_mod::lemma_fundamental_div_mod_converse(idx, w as int, y as int, x as int);
                        assert(idx < w * h) by (nonlinear_arith) requires idx == y * w + x, x < w, y < h;
                        assert(target[idx] == super::framebuffer::Cell { ch, style });
                    }
                    proof { self.framebuffer.lemma_wf_len(); }
                    self.framebuffer.set(x, y, ch, style);
                    proof { self.framebuffer.lemma_wf_len(); }
                    x = x + 1;
                }
                assert((y + 1) * w == y * w + w) by (nonlinear_arith);
                y = y + 1;
            }
            assert(h * w == w * h) by (nonlinear_arith);
        }
        assert(self.framebuffer.back() =~= target) by {
            self.framebuffer.lemma_wf_len();
            if !(w > 0 && h > 0) {
                assert(w * h == 0) by (nonlinear_arith) requires !(w > 0 && h > 0), w >= 0, h >= 0;
            }
        }
        match cursor {
            Some((cx, cy)) => self.framebuffer.set_cursor(cx, cy),
            None => {},
        }
        self.framebuffer.render_diff()
    }

    /// Ends a frame: hands the buffer to the backend and flushes it.
    pub fn finish_frame(&mut self) -> (r: Result<(), std::io::Error>)
        ensures
            final(self).spec_buffer() == old(self).spec_buffer(),
            final(self).spec_framebuffer() == old(self).spec_framebuffer(),
            old(self).wf() ==> final(self).wf(),
    {
        self.backend.sync_buffer(&self.buffer);
        self.backend.flush()
    }
}

} // verus!
