//! Incremental wrapping of streamed text into rows of at most a target width.
//! Wrapping does not depend on how the text was cut into fragments.
use vstd::prelude::*;
use crate::text::{chars_of, string_of, push_chars, first_newline, lemma_first_newline, lemma_first_newline_at};
use crate::ui::width::{
    width_of, char_w, is_extender, grapheme_end, extender_run_end, greedy_end, greedy_used,
    greedy_prefix, lemma_greedy, lemma_grapheme_end_bounds, lemma_run_end_bounds, lemma_width_concat,
    next_grapheme_end, display_width,
};

verus! {

/// A row's text and whether it ends with an explicit line break.
pub type RowView = (Seq<char>, bool);

/// Text that is empty or whose last character takes at least one cell.
pub open spec fn ends_visible(s: Seq<char>) -> bool {
    s.len() == 0 || char_w(s.last()) > 0
}

/// A fragment that is empty or ends with a newline or with a character that
/// takes at least one cell.
pub open spec fn ends_cleanly(s: Seq<char>) -> bool {
    s.len() == 0 || s.last() == '\n' || char_w(s.last()) > 0
}

/// A row fits a width when it is no wider, or when it is one grapheme that
/// cannot be split.
pub open spec fn row_fits(t: Seq<char>, w: int) -> bool {
    width_of(t) <= w || grapheme_end(t, 0) == t.len()
}

/// Every row fits the width.
pub open spec fn rows_fit(rows: Seq<RowView>, w: int) -> bool {
    forall|i: int| 0 <= i < rows.len() ==> row_fits(#[trigger] rows[i].0, w)
}

/// Cuts rows off the front of the pending line `cur` while it does not fit:
/// the longest prefix of whole graphemes of at most `w` columns (stopping as
/// soon as `w` is reached) becomes a row unless it is the whole line; when
/// no column can be taken, the first grapheme alone becomes a row.
pub open spec fn wrap(rows: Seq<RowView>, cur: Seq<char>, w: int) -> (Seq<RowView>, Seq<char>)
    decreases cur.len(),
{
    if cur.len() == 0 || w <= 0 {
        (rows, cur)
    } else {
        let e = greedy_end(cur, 0, 0, w, true);
        let u = greedy_used(cur, 0, 0, w, true);
        if u == 0 {
            let g = grapheme_end(cur, 0);
            if 0 < g <= cur.len() {
                wrap(rows.push((cur.subrange(0, g), false)), cur.subrange(g, cur.len() as int), w)
            } else {
                (rows, cur)
            }
        } else if 0 < e < cur.len() {
            wrap(rows.push((cur.subrange(0, e), false)), cur.subrange(e, cur.len() as int), w)
        } else {
            (rows, cur)
        }
    }
}

/// The rows and pending line after feeding `frag`: each newline wraps the
/// pending line and closes it as a row with an explicit break; text after
/// the last newline is appended to the pending line and wrapped.
pub open spec fn feed(rows: Seq<RowView>, cur: Seq<char>, w: int, frag: Seq<char>) -> (Seq<RowView>, Seq<char>)
    decreases frag.len(),
{
    let i = first_newline(frag, 0);
    if frag.len() == 0 {
        (rows, cur)
    } else if 0 <= i < frag.len() {
        let done = wrap(rows, cur + frag.subrange(0, i), w);
        feed(done.0.push((done.1, true)), Seq::empty(), w, frag.subrange(i + 1, frag.len() as int))
    } else {
        wrap(rows, cur + frag, w)
    }
}

/// The text that rows and a pending line stand for: each row followed by a
/// newline when it ends with an explicit break, then the pending line.
pub open spec fn unwrapped(rows: Seq<RowView>, cur: Seq<char>) -> Seq<char>
    decreases rows.len(),
{
    if rows.len() == 0 {
        cur
    } else {
        let r = rows[0];
        r.0 + (if r.1 { seq!['\n'] } else { Seq::empty() }) + unwrapped(rows.drop_first(), cur)
    }
}

proof fn lemma_run_end_append(c: Seq<char>, d: Seq<char>, j: int)
    requires
        0 <= j <= c.len(),
        d.len() == 0 || !is_extender(d[0] as u32),
    ensures
        extender_run_end(c + d, j) == extender_run_end(c, j),
    decreases c.len() - j,
{
    if j < c.len() {
        assert((c + d)[j] == c[j]);
        if is_extender(c[j] as u32) {
            lemma_run_end_append(c, d, j + 1);
        }
    } else if d.len() > 0 {
        assert((c + d)[j] == d[0]);
    } else {
        assert(c + d =~= c);
    }
}

proof fn lemma_run_end_prefix(c: Seq<char>, n: int, j: int)
    requires
        0 <= j <= n <= c.len(),
        extender_run_end(c, j) <= n,
    ensures
        extender_run_end(c.subrange(0, n), j) == extender_run_end(c, j),
    decreases n - j,
{
    lemma_run_end_bounds(c, j);
    if j < n {
        assert(c.subrange(0, n)[j] == c[j]);
        if is_extender(c[j] as u32) {
            lemma_run_end_prefix(c, n, j + 1);
        }
    }
}

/// The greedy cut of `c` is not moved by text appended after it, as long as
/// the cut falls inside `c` and the appended text does not extend a grapheme.
proof fn lemma_greedy_append(c: Seq<char>, d: Seq<char>, p: int, used: int, w: int)
    requires
        0 <= p <= c.len(),
        d.len() == 0 || !is_extender(d[0] as u32),
        greedy_end(c, p, used, w, true) < c.len(),
    ensures
        greedy_end(c + d, p, used, w, true) == greedy_end(c, p, used, w, true),
        greedy_used(c + d, p, used, w, true) == greedy_used(c, p, used, w, true),
    decreases c.len() - p,
{
    let g = grapheme_end(c, p);
    lemma_run_end_append(c, d, p + 1);
    lemma_grapheme_end_bounds(c, p);
    assert((c + d).subrange(p, g) =~= c.subrange(p, g));
    let wg = width_of(c.subrange(p, g)) as int;
    if used + wg > w || g <= p || g > c.len() {
    } else if used + wg == w {
    } else {
        lemma_greedy_append(c, d, g, used + wg, w);
    }
}

/// Wrapping a line and then appending text to what is left gives what
/// wrapping the whole line gives.
pub proof fn lemma_wrap_append(rows: Seq<RowView>, c: Seq<char>, d: Seq<char>, w: int)
    requires
        w >= 1,
        ends_visible(c),
        d.len() == 0 || !is_extender(d[0] as u32),
    ensures
        wrap(rows, c + d, w) == wrap(wrap(rows, c, w).0, wrap(rows, c, w).1 + d, w),
    decreases c.len(),
{
    if c.len() == 0 {
        assert(c + d =~= d);
    } else {
        let e = greedy_end(c, 0, 0, w, true);
        let u = greedy_used(c, 0, 0, w, true);
        lemma_greedy(c, 0, 0, w, true);
        if e == c.len() {
            assert(c.subrange(0, e) =~= c);
            assert(c.drop_last() + seq![c.last()] =~= c);
            assert(width_of(c) == width_of(c.drop_last()) + char_w(c.last()));
        }
        if u == 0 {
            lemma_greedy_append(c, d, 0, 0, w);
            let g = grapheme_end(c, 0);
            lemma_grapheme_end_bounds(c, 0);
            lemma_run_end_append(c, d, 1);
            let rest = c.subrange(g, c.len() as int);
            assert((c + d).subrange(0, g) =~= c.subrange(0, g));
            assert((c + d).subrange(g, (c + d).len() as int) =~= rest + d);
            if rest.len() > 0 {
                assert(rest.last() == c.last());
            }
            lemma_wrap_append(rows.push((c.subrange(0, g), false)), rest, d, w);
        } else if e < c.len() {
            lemma_greedy_append(c, d, 0, 0, w);
            let rest = c.subrange(e, c.len() as int);
            assert((c + d).subrange(0, e) =~= c.subrange(0, e));
            assert((c + d).subrange(e, (c + d).len() as int) =~= rest + d);
            assert(rest.last() == c.last());
            lemma_wrap_append(rows.push((c.subrange(0, e), false)), rest, d, w);
        }
    }
}

/// Fragmentation invariance: feeding `a` and then `b` gives the same rows
/// and pending line as feeding `a + b` at once, provided the pending line
/// and `a` end with a newline or a character that takes a cell, and `b`
/// does not begin by extending the grapheme that ends `a`.
pub proof fn lemma_fragmentation_invariance(rows: Seq<RowView>, cur: Seq<char>, w: int, a: Seq<char>, b: Seq<char>)
    requires
        w >= 1,
        ends_visible(cur),
        ends_cleanly(a),
        b.len() == 0 || !is_extender(b[0] as u32),
    ensures
        feed(feed(rows, cur, w, a).0, feed(rows, cur, w, a).1, w, b) == feed(rows, cur, w, a + b),
    decreases a.len(),
{
    let i = first_newline(a, 0);
    lemma_first_newline(a, 0);
    if a.len() == 0 {
        assert(a + b =~= b);
    } else if i >= a.len() {
        let j = first_newline(b, 0);
        lemma_first_newline(b, 0);
        assert forall|k: int| 0 <= k < a.len() + j implies (#[trigger] (a + b)[k]) != '\n' by {
            if k >= a.len() {
                assert((a + b)[k] == b[k - a.len()]);
            }
        }
        if j < b.len() {
            assert((a + b)[a.len() + j] == b[j]);
        }
        lemma_first_newline_at(a + b, 0, a.len() + j);
        assert(a[a.len() - 1] != '\n');
        assert((cur + a).last() == a.last());
        if b.len() == 0 {
            assert(a + b =~= a);
        } else if j >= b.len() {
            lemma_wrap_append(rows, cur + a, b, w);
            assert(cur + (a + b) =~= (cur + a) + b);
        } else {
            lemma_wrap_append(rows, cur + a, b.subrange(0, j), w);
            assert(cur + (a + b).subrange(0, a.len() + j) =~= (cur + a) + b.subrange(0, j));
            assert((a + b).subrange(a.len() + j + 1, (a + b).len() as int) =~= b.subrange(j + 1, b.len() as int));
        }
    } else {
        let done = wrap(rows, cur + a.subrange(0, i), w);
        let rows2 = done.0.push((done.1, true));
        let a2 = a.subrange(i + 1, a.len() as int);
        assert forall|k: int| 0 <= k < i implies (#[trigger] (a + b)[k]) != '\n' by {
            assert((a + b)[k] == a[k]);
        }
        assert((a + b)[i] == a[i]);
        lemma_first_newline_at(a + b, 0, i);
        assert((a + b).subrange(0, i) =~= a.subrange(0, i));
        assert((a + b).subrange(i + 1, (a + b).len() as int) =~= a2 + b);
        if a2.len() > 0 {
            assert(a2.last() == a.last());
        }
        lemma_fragmentation_invariance(rows2, Seq::empty(), w, a2, b);
    }
}

/// Fragments one after the other.
pub open spec fn concat_texts(fs: Seq<Seq<char>>) -> Seq<char>
    decreases fs.len(),
{
    if fs.len() == 0 { Seq::empty() } else { concat_texts(fs.drop_last()) + fs.last() }
}

/// The rows and pending line after feeding fragments one at a time.
pub open spec fn feed_all(rows: Seq<RowView>, cur: Seq<char>, w: int, fs: Seq<Seq<char>>) -> (Seq<RowView>, Seq<char>)
    decreases fs.len(),
{
    if fs.len() == 0 {
        (rows, cur)
    } else {
        let p = feed_all(rows, cur, w, fs.drop_last());
        feed(p.0, p.1, w, fs.last())
    }
}

proof fn lemma_concat_ends_cleanly(fs: Seq<Seq<char>>)
    requires
        forall|i: int| 0 <= i < fs.len() ==> ends_cleanly(#[trigger] fs[i]),
    ensures
        ends_cleanly(concat_texts(fs)),
    decreases fs.len(),
{
    if fs.len() > 0 {
        let d = fs.drop_last();
        assert forall|i: int| 0 <= i < d.len() implies ends_cleanly(#[trigger] d[i]) by {
            assert(d[i] == fs[i]);
        }
        lemma_concat_ends_cleanly(d);
        let b = fs.last();
        assert(ends_cleanly(fs[fs.len() - 1]));
        if b.len() == 0 {
            assert(concat_texts(d) + b =~= concat_texts(d));
        } else {
            assert((concat_texts(d) + b).last() == b.last());
        }
    }
}

/// Fragmentation invariance for any number of pieces: feeding fragments one
/// at a time gives the same rows and pending line as feeding them joined at
/// once, provided the pending line and every fragment but the last end with
/// a newline or a character that takes a cell, and no fragment after the
/// first begins by extending a grapheme.
pub proof fn lemma_fragmentation_invariance_all(rows: Seq<RowView>, cur: Seq<char>, w: int, fs: Seq<Seq<char>>)
    requires
        w >= 1,
        ends_visible(cur),
        forall|i: int| 0 <= i < fs.len() - 1 ==> ends_cleanly(#[trigger] fs[i]),
        forall|i: int| 1 <= i < fs.len() ==> (#[trigger] fs[i]).len() == 0 || !is_extender(fs[i][0] as u32),
    ensures
        feed_all(rows, cur, w, fs) == feed(rows, cur, w, concat_texts(fs)),
    decreases fs.len(),
{
    if fs.len() == 0 {
        assert(concat_texts(fs) =~= Seq::<char>::empty());
    } else {
        let d = fs.drop_last();
        let b = fs.last();
        assert forall|i: int| 0 <= i < d.len() implies ends_cleanly(#[trigger] d[i]) by {
            assert(d[i] == fs[i]);
        }
        assert forall|i: int| 1 <= i < d.len() implies (#[trigger] d[i]).len() == 0 || !is_extender(d[i][0] as u32) by {
            assert(d[i] == fs[i]);
        }
        lemma_fragmentation_invariance_all(rows, cur, w, d);
        let a = concat_texts(d);
        lemma_concat_ends_cleanly(d);
        if d.len() == 0 {
            assert(a =~= Seq::<char>::empty());
            assert(a + b =~= b);
            assert(concat_texts(fs) == a + b);
        } else {
            assert(fs[fs.len() - 1] == b);
            assert(b.len() == 0 || !is_extender(b[0] as u32));
            lemma_fragmentation_invariance(rows, cur, w, a, b);
        }
    }
}

proof fn lemma_single_grapheme(c: Seq<char>)
    requires
        c.len() > 0,
    ensures
        grapheme_end(c.subrange(0, grapheme_end(c, 0)), 0) == grapheme_end(c, 0),
{
    lemma_grapheme_end_bounds(c, 0);
    let g = grapheme_end(c, 0);
    lemma_run_end_prefix(c, g, 1);
}

/// Wrapping keeps every row fitting the width and leaves a pending line no
/// wider than it.
pub proof fn lemma_wrap_fits(rows: Seq<RowView>, cur: Seq<char>, w: int)
    requires
        w >= 1,
        rows_fit(rows, w),
    ensures
        rows_fit(wrap(rows, cur, w).0, w),
        width_of(wrap(rows, cur, w).1) <= w,
    decreases cur.len(),
{
    if cur.len() > 0 {
        let e = greedy_end(cur, 0, 0, w, true);
        let u = greedy_used(cur, 0, 0, w, true);
        lemma_greedy(cur, 0, 0, w, true);
        if u == 0 {
            let g = grapheme_end(cur, 0);
            lemma_grapheme_end_bounds(cur, 0);
            lemma_single_grapheme(cur);
            let r2 = rows.push((cur.subrange(0, g), false));
            assert(rows_fit(r2, w));
            lemma_wrap_fits(r2, cur.subrange(g, cur.len() as int), w);
        } else if 0 < e < cur.len() {
            let r2 = rows.push((cur.subrange(0, e), false));
            assert(rows_fit(r2, w));
            lemma_wrap_fits(r2, cur.subrange(e, cur.len() as int), w);
        } else {
            assert(cur.subrange(0, e) =~= cur);
        }
    }
}

/// Feeding text keeps every row fitting the width and the pending line no
/// wider than it.
pub proof fn lemma_feed_fits(rows: Seq<RowView>, cur: Seq<char>, w: int, frag: Seq<char>)
    requires
        w >= 1,
        rows_fit(rows, w),
        width_of(cur) <= w,
    ensures
        rows_fit(feed(rows, cur, w, frag).0, w),
        width_of(feed(rows, cur, w, frag).1) <= w,
    decreases frag.len(),
{
    let i = first_newline(frag, 0);
    if frag.len() == 0 {
    } else if 0 <= i < frag.len() {
        lemma_wrap_fits(rows, cur + frag.subrange(0, i), w);
        let done = wrap(rows, cur + frag.subrange(0, i), w);
        let r2 = done.0.push((done.1, true));
        assert(rows_fit(r2, w));
        lemma_feed_fits(r2, Seq::empty(), w, frag.subrange(i + 1, frag.len() as int));
    } else {
        lemma_wrap_fits(rows, cur + frag, w);
    }
}


/// One visual row.
#[derive(Debug, Clone, PartialEq, Eq)]
pub struct Row {
    pub text: String,
    /// Whether the row ends with an explicit line break rather than a wrap.
    pub explicit_break: bool,
}

/// The text and break flag of each row.
pub open spec fn rows_view(rows: Seq<Row>) -> Seq<RowView> {
    rows.map_values(|r: Row| (r.text@, r.explicit_break))
}

impl Row {
    /// The row's display width.
    pub fn width(&self) -> (w: usize)
        requires
            self.text@.len() <= usize::MAX / 2,
        ensures
            w == width_of(self.text@),
    {
        display_width(self.text.as_str())
    }

    fn copy(&self) -> (r: Row)
        ensures
            r.text@ == self.text@,
            r.explicit_break == self.explicit_break,
    {
        Row { text: self.text.clone(), explicit_break: self.explicit_break }
    }
}

/// Splits `text` after the longest run of whole graphemes of at most
/// `max_cols` columns, stopping as soon as `max_cols` is reached; returns the
/// prefix, the rest and the prefix's width.
pub fn take_prefix_by_width(text: &str, max_cols: usize) -> (r: (String, String, usize))
    requires
        text@.len() <= usize::MAX / 2,
    ensures
        max_cols == 0 || text@.len() == 0 ==> r.0@ == Seq::<char>::empty() && r.1@ == text@ && r.2 == 0,
        max_cols > 0 && text@.len() > 0 ==> {
            let e = greedy_end(text@, 0, 0, max_cols as int, true);
            &&& r.0@ == text@.subrange(0, e)
            &&& r.1@ == text@.subrange(e, text@.len() as int)
            &&& r.2 == greedy_used(text@, 0, 0, max_cols as int, true)
        },
{
    let v = chars_of(text);
    if max_cols == 0 || v.len() == 0 {
        return (String::new(), string_of(v.as_slice(), 0, v.len()), 0);
    }
    let (e, used) = greedy_prefix(v.as_slice(), 0, 0, max_cols, true);
    proof { lemma_greedy(v@, 0, 0, max_cols as int, true); }
    (string_of(v.as_slice(), 0, e), string_of(v.as_slice(), e, v.len()), used)
}

/// Wraps streamed text into rows of at most a target width.
pub struct RowBuilder {
    target_width: usize,
    current_line: String,
    rows: Vec<Row>,
}

impl RowBuilder {
    /// The target width.
    pub closed spec fn width_spec(&self) -> int {
        self.target_width as int
    }

    /// The rows produced so far.
    pub closed spec fn rows_spec(&self) -> Seq<RowView> {
        rows_view(self.rows@)
    }

    /// The pending, not yet closed, line.
    pub closed spec fn pending(&self) -> Seq<char> {
        self.current_line@
    }

    /// The width is at least one, every row fits it and the pending line is no wider.
    pub open spec fn wf(&self) -> bool {
        &&& self.width_spec() >= 1
        &&& rows_fit(self.rows_spec(), self.width_spec())
        &&& width_of(self.pending()) <= self.width_spec()
    }

    /// An empty builder; a zero width counts as one.
    pub fn new(target_width: usize) -> (b: Self)
        ensures
            b.wf(),
            b.width_spec() == if target_width == 0 { 1 } else { target_width as int },
            b.rows_spec() == Seq::<RowView>::empty(),
            b.pending() == Seq::<char>::empty(),
    {
        let w = if target_width == 0 { 1 } else { target_width };
        let b = RowBuilder { target_width: w, current_line: String::new(), rows: Vec::new() };
        assert(rows_view(b.rows@) =~= Seq::<RowView>::empty());
        b
    }

    fn push_row(&mut self, text: String, explicit_break: bool)
        ensures
            final(self).rows_spec() == old(self).rows_spec().push((text@, explicit_break)),
            final(self).target_width == old(self).target_width,
            final(self).current_line == old(self).current_line,
    {
        let ghost before = rows_view(self.rows@);
        self.rows.push(Row { text, explicit_break });
        assert(rows_view(self.rows@) =~= before.push((text@, explicit_break)));
    }

    fn wrap_current_line(&mut self)
        requires
            old(self).target_width >= 1,
            old(self).current_line@.len() <= usize::MAX / 2,
        ensures
            (final(self).rows_spec(), final(self).pending())
                == wrap(old(self).rows_spec(), old(self).pending(), old(self).width_spec()),
            final(self).target_width == old(self).target_width,
    {
        let w = self.target_width;
        let ghost goal = wrap(self.rows_spec(), self.pending(), w as int);
        while self.current_line.as_str().is_empty() == false
            invariant
                self.target_width == w,
                w >= 1,
                self.current_line@.len() <= usize::MAX / 2,
                wrap(self.rows_spec(), self.pending(), w as int) == goal,
            ensures
                (self.rows_spec(), self.pending()) == goal,
            decreases self.current_line@.len(),
        {
            let (prefix, suffix, taken) = take_prefix_by_width(self.current_line.as_str(), w);
            let ghost cur = self.current_line@;
            proof { lemma_greedy(cur, 0, 0, w as int, true); }
            if taken == 0 {
                let chars = chars_of(self.current_line.as_str());
                let g = next_grapheme_end(chars.as_slice(), 0);
                let first = string_of(chars.as_slice(), 0, g);
                let rest = string_of(chars.as_slice(), g, chars.len());
                self.push_row(first, false);
                self.current_line = rest;
            } else if suffix.as_str().is_empty() {
                assert(cur.subrange(greedy_end(cur, 0, 0, w as int, true), cur.len() as int).len() == 0);
                break;
            } else {
                self.push_row(prefix, false);
                self.current_line = suffix;
            }
        }
    }

    fn close_line(&mut self)
        requires
            old(self).target_width >= 1,
            old(self).current_line@.len() <= usize::MAX / 2,
        ensures
            ({
                let done = wrap(old(self).rows_spec(), old(self).pending(), old(self).width_spec());
                &&& final(self).rows_spec() == done.0.push((done.1, true))
                &&& final(self).pending() == Seq::<char>::empty()
            }),
            final(self).target_width == old(self).target_width,
    {
        self.wrap_current_line();
        let mut line = String::new();
        std::mem::swap(&mut line, &mut self.current_line);
        self.push_row(line, true);
    }

    /// Feeds a fragment, which may hold newlines (see `feed`).
    pub fn push_fragment(&mut self, fragment: &str)
        requires
            old(self).wf(),
            old(self).pending().len() + fragment@.len() <= usize::MAX / 2,
        ensures
            final(self).wf(),
            final(self).width_spec() == old(self).width_spec(),
            (final(self).rows_spec(), final(self).pending())
                == feed(old(self).rows_spec(), old(self).pending(), old(self).width_spec(), fragment@),
    {
        let ghost w = self.width_spec();
        let ghost goal = feed(self.rows_spec(), self.pending(), w, fragment@);
        proof { lemma_feed_fits(self.rows_spec(), self.pending(), w, fragment@); }
        let v = chars_of(fragment);
        let n = v.len();
        if n == 0 {
            return;
        }
        let mut start: usize = 0;
        let mut i: usize = 0;
        while i < n
            invariant
                n == v@.len(),
                v@ == fragment@,
                n > 0,
                start <= i <= n,
                goal == feed(old(self).rows_spec(), old(self).pending(), w, fragment@),
                w == old(self).width_spec(),
                self.width_spec() == w,
                w >= 1,
                self.pending().len() + (n - start) <= usize::MAX / 2,
                forall|k: int| start <= k < i ==> v@[k] != '\n',
                start == 0 ==> (self.rows_spec(), self.pending()) == (old(self).rows_spec(), old(self).pending()),
                start > 0 ==> self.pending() == Seq::<char>::empty(),
                start > 0 ==> feed(self.rows_spec(), self.pending(), w, v@.subrange(start as int, n as int)) == goal,
            decreases n - i,
        {
            if v[i] == '\n' {
                let ghost rest = v@.subrange(start as int, n as int);
                proof {
                    assert forall|k: int| 0 <= k < i - start implies rest[k] != '\n' by {
                        assert(rest[k] == v@[start + k]);
                    }
                    lemma_first_newline_at(rest, 0, i - start);
                    assert(rest.subrange(0, i - start) =~= v@.subrange(start as int, i as int));
                    assert(rest.subrange(i - start + 1, rest.len() as int) =~= v@.subrange(i + 1, n as int));
                    if start == 0 {
                        assert(rest =~= fragment@);
                    }
                }
                let ghost rows_b = self.rows_spec();
                let ghost pre = self.pending();
                proof {
                    if start == 0 {
                        assert(rows_b == old(self).rows_spec());
                        assert(pre == old(self).pending());
                        assert(rest == fragment@);
                    }
                    assert(feed(rows_b, pre, w, rest) == goal);
                }
                push_chars(&mut self.current_line, v.as_slice(), start, i);
                assert(self.pending() == pre + rest.subrange(0, i - start));
                self.close_line();
                proof {
                    let done = wrap(rows_b, pre + rest.subrange(0, i - start), w);
                    assert(feed(rows_b, pre, w, rest)
                        == feed(done.0.push((done.1, true)), Seq::empty(), w, rest.subrange(i - start + 1, rest.len() as int)));
                }
                start = i + 1;
            }
            i += 1;
        }
        let ghost rest = v@.subrange(start as int, n as int);
        proof {
            lemma_first_newline_at(rest, 0, rest.len() as int);
            if start == 0 {
                assert(rest =~= fragment@);
            }
        }
        if start < n {
            push_chars(&mut self.current_line, v.as_slice(), start, n);
            self.wrap_current_line();
        }
    }

    /// Changes the width and wraps everything again from the text the rows
    /// stand for (see `unwrapped`).
    pub fn set_width(&mut self, width: usize)
        requires
            old(self).wf(),
            unwrapped(old(self).rows_spec(), old(self).pending()).len() <= usize::MAX / 2,
        ensures
            final(self).wf(),
            final(self).width_spec() == if width == 0 { 1 } else { width as int },
            (final(self).rows_spec(), final(self).pending()) == feed(Seq::empty(), Seq::empty(),
                final(self).width_spec(), unwrapped(old(self).rows_spec(), old(self).pending())),
    {
        let ghost text = unwrapped(self.rows_spec(), self.pending());
        let mut all = String::new();
        assert(self.rows_spec().subrange(0, self.rows@.len() as int) =~= self.rows_spec());
        assert(all@ + text =~= text);
        let mut k: usize = 0;
        while k < self.rows.len()
            invariant
                k <= self.rows@.len(),
                self.rows_spec() == old(self).rows_spec(),
                self.pending() == old(self).pending(),
                all@ + unwrapped(self.rows_spec().subrange(k as int, self.rows@.len() as int), self.pending()) == text,
                text.len() <= usize::MAX / 2,
            decreases self.rows@.len() - k,
        {
            let ghost tail = self.rows_spec().subrange(k as int, self.rows@.len() as int);
            proof {
                assert(tail.drop_first() =~= self.rows_spec().subrange(k + 1, self.rows@.len() as int));
                assert(tail[0] == (self.rows@[k as int].text@, self.rows@[k as int].explicit_break));
            }
            let ghost before = all@;
            let t = self.rows[k].text.as_str();
            let chars = chars_of(t);
            push_chars(&mut all, chars.as_slice(), 0, chars.len());
            assert(chars@.subrange(0, chars@.len() as int) =~= chars@);
            if self.rows[k].explicit_break {
                crate::text::push_char(&mut all, '\n');
                assert(all@ =~= before + self.rows@[k as int].text@ + seq!['\n']);
            } else {
                assert(all@ =~= before + self.rows@[k as int].text@ + Seq::<char>::empty());
            }
            assert(before + (self.rows@[k as int].text@ + (if self.rows@[k as int].explicit_break { seq!['\n'] } else { Seq::<char>::empty() }))
                + unwrapped(self.rows_spec().subrange(k + 1, self.rows@.len() as int), self.pending())
                =~= before + unwrapped(tail, self.pending()));
            k += 1;
        }
        assert(self.rows_spec().subrange(k as int, self.rows@.len() as int) =~= Seq::<RowView>::empty());
        let cur = chars_of(self.current_line.as_str());
        push_chars(&mut all, cur.as_slice(), 0, cur.len());
        assert(cur@.subrange(0, cur@.len() as int) =~= cur@);
        assert(all@ =~= text);
        self.target_width = if width == 0 { 1 } else { width };
        self.rows = Vec::new();
        self.current_line = String::new();
        assert(rows_view(self.rows@) =~= Seq::<RowView>::empty());
        self.push_fragment(all.as_str());
    }

    /// The rows produced so far.
    pub fn rows(&self) -> (r: &[Row])
        ensures
            rows_view(r@) == self.rows_spec(),
    {
        self.rows.as_slice()
    }

    /// The rows for display: those produced so far, then the pending line as
    /// a row without a break when it is not empty.
    pub fn display_rows(&self) -> (out: Vec<Row>)
        ensures
            rows_view(out@) == self.rows_spec() + (if self.pending().len() > 0 {
                seq![(self.pending(), false)]
            } else {
                Seq::<RowView>::empty()
            }),
    {
        let mut out: Vec<Row> = Vec::new();
        let mut k: usize = 0;
        while k < self.rows.len()
            invariant
                k <= self.rows@.len(),
                rows_view(out@) == self.rows_spec().subrange(0, k as int),
            decreases self.rows@.len() - k,
        {
            let ghost before = rows_view(out@);
            let r = self.rows[k].copy();
            assert(self.rows_spec()[k as int] == (self.rows@[k as int].text@, self.rows@[k as int].explicit_break));
            out.push(r);
            assert(rows_view(out@) =~= before.push(self.rows_spec()[k as int]));
            assert(rows_view(out@) =~= self.rows_spec().subrange(0, k + 1));
            k += 1;
        }
        assert(self.rows_spec().subrange(0, k as int) =~= self.rows_spec());
        if !self.current_line.as_str().is_empty() {
            let ghost before = rows_view(out@);
            out.push(Row { text: self.current_line.clone(), explicit_break: false });
            assert(rows_view(out@) =~= before.push((self.pending(), false)));
            assert(before.push((self.pending(), false)) =~= before + seq![(self.pending(), false)]);
        } else {
            assert(rows_view(out@) =~= rows_view(out@) + Seq::<RowView>::empty());
        }
        out
    }

    /// Removes and returns the oldest rows beyond the newest `max_keep`
    /// display rows (the pending line counts as one when not empty); the
    /// pending line itself is never taken.
    pub fn drain_commit_ready(&mut self, max_keep: usize) -> (drained: Vec<Row>)
        requires
            old(self).wf(),
        ensures
            final(self).wf(),
            final(self).width_spec() == old(self).width_spec(),
            final(self).pending() == old(self).pending(),
            ({
                let shown = old(self).rows_spec().len() + if old(self).pending().len() > 0 { 1int } else { 0int };
                let count = if shown <= max_keep { 0int } else if shown - max_keep < old(self).rows_spec().len() {
                    shown - max_keep } else { old(self).rows_spec().len() as int };
                &&& rows_view(drained@) == old(self).rows_spec().subrange(0, count)
                &&& final(self).rows_spec() == old(self).rows_spec().subrange(count, old(self).rows_spec().len() as int)
            }),
    {
        let extra: usize = if self.current_line.as_str().is_empty() { 0 } else { 1 };
        let n = self.rows.len();
        if n as u128 + extra as u128 <= max_keep as u128 {
            let d: Vec<Row> = Vec::new();
            assert(rows_view(d@) =~= self.rows_spec().subrange(0, 0));
            assert(self.rows_spec().subrange(0, n as int) =~= self.rows_spec());
            return d;
        }
        let count: usize = if max_keep < n {
            let t = n - max_keep;
            if extra == 1 && t < n { t + 1 } else { t }
        } else if n > 0 {
            1
        } else {
            0
        };
        let ghost all = self.rows_spec();
        let mut drained: Vec<Row> = Vec::new();
        let mut k: usize = 0;
        while k < count
            invariant
                k <= count <= n,
                n == all.len(),
                self.rows@.len() == n - k,
                rows_view(drained@) == all.subrange(0, k as int),
                self.rows_spec() == all.subrange(k as int, n as int),
                self.target_width == old(self).target_width,
                self.current_line == old(self).current_line,
            decreases count - k,
        {
            let ghost before = rows_view(drained@);
            let ghost rows_before = self.rows@;
            assert(self.rows_spec()[0] == (self.rows@[0].text@, self.rows@[0].explicit_break));
            assert(self.rows_spec()[0] == all[k as int]);
            let r = self.rows.remove(0);
            assert(r.text@ == all[k as int].0 && r.explicit_break == all[k as int].1);
            drained.push(r);
            assert(rows_view(drained@) =~= before.push(all[k as int]));
            assert(rows_view(drained@) =~= all.subrange(0, k + 1));
            assert(self.rows@ =~= rows_before.subrange(1, rows_before.len() as int));
            assert forall|j: int| 0 <= j < self.rows@.len() implies
                #[trigger] rows_view(self.rows@)[j] == all.subrange(k + 1, n as int)[j] by {
                assert(rows_view(self.rows@)[j] == (self.rows@[j].text@, self.rows@[j].explicit_break));
                assert(rows_view(rows_before)[j + 1] == (rows_before[j + 1].text@, rows_before[j + 1].explicit_break));
                assert(rows_view(rows_before) == all.subrange(k as int, n as int));
            }
            assert(self.rows_spec() =~= all.subrange(k + 1, n as int));
            k += 1;
        }
        proof {
            assert forall|j: int| 0 <= j < self.rows_spec().len() implies row_fits(#[trigger] self.rows_spec()[j].0, self.width_spec()) by {
                assert(self.rows_spec()[j] == all[j + count]);
            }
        }
        drained
    }
}

} // verus!
