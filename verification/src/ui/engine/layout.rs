//! Rectangles, margins and the constraint layout that splits an area.
use vstd::prelude::*;

verus! {

/// `a + b`, saturating at `u16::MAX`.
pub open spec fn sat_add16(a: int, b: int) -> int {
    if a + b > u16::MAX { u16::MAX as int } else { a + b }
}

/// `a - b`, saturating at zero.
pub open spec fn sat_sub(a: int, b: int) -> int {
    if a >= b { a - b } else { 0 }
}

/// A rectangle of terminal cells.
#[derive(Clone, Copy, Debug, PartialEq, Eq, Structural)]
pub struct Rect {
    pub x: u16,
    pub y: u16,
    pub width: u16,
    pub height: u16,
}

impl Default for Rect {
    fn default() -> (r: Rect)
        ensures
            r == (Rect { x: 0, y: 0, width: 0, height: 0 }),
    {
        Rect { x: 0, y: 0, width: 0, height: 0 }
    }
}

impl Rect {
    pub open spec fn spec_right(self) -> int {
        sat_add16(self.x as int, self.width as int)
    }

    pub open spec fn spec_bottom(self) -> int {
        sat_add16(self.y as int, self.height as int)
    }

    pub fn new(x: u16, y: u16, width: u16, height: u16) -> (r: Rect)
        ensures
            r == (Rect { x, y, width, height }),
    {
        Rect { x, y, width, height }
    }

    pub fn left(&self) -> (v: u16)
        ensures
            v == self.x,
    {
        self.x
    }

    /// The first column after the rectangle (saturating).
    pub fn right(&self) -> (v: u16)
        ensures
            v == self.spec_right(),
    {
        self.x.saturating_add(self.width)
    }

    pub fn top(&self) -> (v: u16)
        ensures
            v == self.y,
    {
        self.y
    }

    /// The first row below the rectangle (saturating).
    pub fn bottom(&self) -> (v: u16)
        ensures
            v == self.spec_bottom(),
    {
        self.y.saturating_add(self.height)
    }

    /// The number of cells.
    pub fn area(&self) -> (a: usize)
        ensures
            a == self.width * self.height,
    {
        assert(self.width * self.height <= 65535 * 65535) by (nonlinear_arith)
            requires self.width <= 65535, self.height <= 65535;
        (self.width as usize) * (self.height as usize)
    }

    pub fn is_empty(&self) -> (b: bool)
        ensures
            b == (self.width == 0 || self.height == 0),
    {
        self.width == 0 || self.height == 0
    }

    /// The rectangle shrunk by `margin` on every side (saturating).
    pub fn inner(self, margin: &Margin) -> (r: Rect)
        ensures
            r == self.spec_inner(*margin),
    {
        let x = self.x.saturating_add(margin.horizontal);
        let y = self.y.saturating_add(margin.vertical);
        let width = self.width.saturating_sub(margin.horizontal.saturating_add(margin.horizontal));
        let height = self.height.saturating_sub(margin.vertical.saturating_add(margin.vertical));
        Rect { x, y, width, height }
    }

    pub open spec fn spec_inner(self, margin: Margin) -> Rect {
        Rect {
            x: sat_add16(self.x as int, margin.horizontal as int) as u16,
            y: sat_add16(self.y as int, margin.vertical as int) as u16,
            width: sat_sub(self.width as int, sat_add16(margin.horizontal as int, margin.horizontal as int)) as u16,
            height: sat_sub(self.height as int, sat_add16(margin.vertical as int, margin.vertical as int)) as u16,
        }
    }
}

/// Space kept free inside a rectangle.
#[derive(Clone, Copy, Debug, PartialEq, Eq, Structural)]
pub struct Margin {
    pub horizontal: u16,
    pub vertical: u16,
}

impl Default for Margin {
    fn default() -> (m: Margin)
        ensures
            m == (Margin { horizontal: 0, vertical: 0 }),
    {
        Margin { horizontal: 0, vertical: 0 }
    }
}

#[derive(Clone, Copy, Debug, PartialEq, Eq, Structural)]
pub enum Direction {
    Horizontal,
    Vertical,
}

#[derive(Clone, Copy, Debug, PartialEq, Eq, Structural)]
pub enum Alignment {
    Left,
    Center,
    Right,
}

impl Default for Alignment {
    fn default() -> (a: Alignment)
        ensures
            a == Alignment::Left,
    {
        Alignment::Left
    }
}

/// How much space one segment of a layout asks for.
#[derive(Clone, Copy, Debug, PartialEq, Eq, Structural)]
pub enum Constraint {
    Percentage(u16),
    Ratio(u32, u32),
    Length(u16),
    Min(u16),
    Max(u16),
}

/// Splits an area into segments along one direction.
#[derive(Clone, Debug)]
pub struct Layout {
    pub direction: Direction,
    pub constraints: Vec<Constraint>,
    pub margin: Margin,
}

/// The requested size of a segment before distribution, in a space of `total` cells.
pub open spec fn base_size(c: Constraint, total: int) -> int {
    match c {
        Constraint::Length(l) => l as int,
        Constraint::Percentage(p) => ((total * p) / 100) as u16 as int,
        Constraint::Ratio(num, den) => if den == 0 { 0 } else { ((total * num) / (den as int)) as u16 as int },
        Constraint::Min(m) => m as int,
        Constraint::Max(m) => m as int,
    }
}

/// Whether a segment takes a share of left-over space.
pub open spec fn is_flex(c: Constraint) -> bool {
    c is Min
}

/// The sum of the requested sizes.
pub open spec fn base_sum(cs: Seq<Constraint>, total: int) -> int
    decreases cs.len(),
{
    if cs.len() == 0 { 0 } else { base_sum(cs.drop_last(), total) + base_size(cs.last(), total) }
}

/// The number of flexible segments.
pub open spec fn flex_count(cs: Seq<Constraint>) -> int
    decreases cs.len(),
{
    if cs.len() == 0 { 0 } else { flex_count(cs.drop_last()) + if is_flex(cs.last()) { 1int } else { 0int } }
}

/// Sizes when the requests exceed the space: each takes what it asked for, up to what is left.
pub open spec fn clamped_sizes(cs: Seq<Constraint>, total: int) -> Seq<int>
    decreases cs.len(),
{
    if cs.len() == 0 {
        Seq::empty()
    } else {
        let prev = clamped_sizes(cs.drop_last(), total);
        let left = total - seq_sum(prev);
        let b = base_size(cs.last(), total);
        prev.push(if b < left { b } else { left })
    }
}

/// The sum of a sequence of integers.
pub open spec fn seq_sum(s: Seq<int>) -> int
    decreases s.len(),
{
    if s.len() == 0 { 0 } else { seq_sum(s.drop_last()) + s.last() }
}

/// Size of segment `i` when the requests fit: flexible segments share the
/// left-over space evenly (the first ones get one cell more for the remainder);
/// with no flexible segment the last one takes it all.
pub open spec fn fitted_size(cs: Seq<Constraint>, total: int, i: int) -> int {
    let remaining = total - base_sum(cs, total);
    let n = flex_count(cs);
    let b = base_size(cs[i], total);
    if n > 0 {
        if is_flex(cs[i]) {
            sat_add16(b, remaining / n + if flex_count(cs.take(i)) < remaining % n { 1int } else { 0int })
        } else {
            b
        }
    } else if i == cs.len() - 1 {
        sat_add16(b, remaining)
    } else {
        b
    }
}

/// The final size of segment `i`.
pub open spec fn segment_size(cs: Seq<Constraint>, total: int, i: int) -> int {
    if base_sum(cs, total) <= total { fitted_size(cs, total, i) } else { clamped_sizes(cs, total)[i] }
}

/// The offset at which segment `i` starts (saturating sums of the earlier sizes).
pub open spec fn segment_pos(cs: Seq<Constraint>, total: int, start: int, i: int) -> int
    decreases i,
{
    if i <= 0 { start } else { sat_add16(segment_pos(cs, total, start, i - 1), segment_size(cs, total, i - 1)) }
}

impl Default for Layout {
    fn default() -> (l: Layout)
        ensures
            l.direction == Direction::Vertical,
            l.constraints@.len() == 0,
            l.margin == (Margin { horizontal: 0, vertical: 0 }),
    {
        Layout { direction: Direction::Vertical, constraints: Vec::new(), margin: Margin { horizontal: 0, vertical: 0 } }
    }
}

impl Layout {
    /// A vertical layout with no constraint and no margin.
    pub fn default() -> (l: Layout)
        ensures
            l.direction == Direction::Vertical,
            l.constraints@.len() == 0,
            l.margin == (Margin { horizontal: 0, vertical: 0 }),
    {
        <Layout as Default>::default()
    }

    pub fn direction(self, direction: Direction) -> (l: Layout)
        ensures
            l.direction == direction,
            l.constraints@ == self.constraints@,
            l.margin == self.margin,
    {
        Layout { direction, ..self }
    }

    pub fn constraints(self, constraints: Vec<Constraint>) -> (l: Layout)
        ensures
            l.direction == self.direction,
            l.constraints@ == constraints@,
            l.margin == self.margin,
    {
        Layout { constraints, ..self }
    }

    pub fn margin(self, margin: u16) -> (l: Layout)
        ensures
            l.direction == self.direction,
            l.constraints@ == self.constraints@,
            l.margin == (Margin { horizontal: margin, vertical: margin }),
    {
        Layout { margin: Margin { horizontal: margin, vertical: margin }, ..self }
    }

    pub fn horizontal_margin(self, margin: u16) -> (l: Layout)
        ensures
            l.direction == self.direction,
            l.constraints@ == self.constraints@,
            l.margin == (Margin { horizontal: margin, ..self.margin }),
    {
        Layout { margin: Margin { horizontal: margin, ..self.margin }, ..self }
    }

    pub fn vertical_margin(self, margin: u16) -> (l: Layout)
        ensures
            l.direction == self.direction,
            l.constraints@ == self.constraints@,
            l.margin == (Margin { vertical: margin, ..self.margin }),
    {
        Layout { margin: Margin { vertical: margin, ..self.margin }, ..self }
    }

    /// The length of the area along the layout's direction, after the margin.
    pub open spec fn total_for(self, area: Rect) -> int {
        let inner = area.spec_inner(self.margin);
        match self.direction {
            Direction::Horizontal => inner.width as int,
            Direction::Vertical => inner.height as int,
        }
    }

    /// The requests of this layout can be computed without overflow.
    pub open spec fn splittable(self, area: Rect) -> bool {
        &&& self.constraints@.len() < 65536
        &&& forall|i: int| 0 <= i < self.constraints@.len() ==>
            (#[trigger] self.constraints@[i] matches Constraint::Ratio(num, den) ==> self.total_for(area) * num <= u32::MAX)
    }

    /// The rectangle of segment `i` of a split of `area`.
    pub open spec fn segment(self, area: Rect, i: int) -> Rect {
        let inner = area.spec_inner(self.margin);
        let cs = self.constraints@;
        let total = self.total_for(area);
        let size = segment_size(cs, total, i) as u16;
        match self.direction {
            Direction::Horizontal => Rect {
                x: segment_pos(cs, total, inner.x as int, i) as u16, y: inner.y, width: size, height: inner.height },
            Direction::Vertical => Rect {
                x: inner.x, y: segment_pos(cs, total, inner.y as int, i) as u16, width: inner.width, height: size },
        }
    }
}

/// Clamped sizes of a prefix are a prefix of the clamped sizes.
pub proof fn lemma_clamped_prefix(cs: Seq<Constraint>, total: int, j: int)
    requires
        0 <= j <= cs.len(),
    ensures
        clamped_sizes(cs, total).len() == cs.len(),
        clamped_sizes(cs.take(j), total) == clamped_sizes(cs, total).take(j),
    decreases cs.len(),
{
    if cs.len() > 0 {
        lemma_clamped_prefix(cs.drop_last(), total, if j < cs.len() { j } else { cs.len() - 1 });
        if j == cs.len() {
            assert(cs.take(j) =~= cs);
            assert(clamped_sizes(cs, total).take(j) =~= clamped_sizes(cs, total));
        } else {
            assert(cs.drop_last().take(j) =~= cs.take(j));
            assert(clamped_sizes(cs, total).take(j) =~= clamped_sizes(cs.drop_last(), total).take(j));
        }
    } else {
        assert(cs.take(j) =~= cs);
    }
}

fn base_size_exec(c: Constraint, total: u16) -> (b: u16)
    requires
        c matches Constraint::Ratio(num, den) ==> total * num <= u32::MAX,
    ensures
        b == base_size(c, total as int),
{
    match c {
        Constraint::Length(l) => l,
        Constraint::Percentage(p) => {
            assert(total * p <= 65535 * 65535) by (nonlinear_arith) requires total <= 65535, p <= 65535;
            ((total as u32 * p as u32) / 100) as u16
        },
        Constraint::Ratio(num, den) => {
            if den == 0 { 0 } else { ((total as u32 * num) / den) as u16 }
        },
        Constraint::Min(m) => m,
        Constraint::Max(m) => m,
    }
}

proof fn lemma_take_step<T>(s: Seq<T>, i: int)
    requires
        0 <= i < s.len(),
    ensures
        s.take(i + 1).drop_last() == s.take(i),
        s.take(i + 1).last() == s[i],
{
    assert(s.take(i + 1).drop_last() =~= s.take(i));
}

proof fn lemma_seq_sum_bound(s: Seq<int>, cap: int)
    requires
        forall|k: int| 0 <= k < s.len() ==> 0 <= #[trigger] s[k],
    ensures
        seq_sum(s) >= 0,
    decreases s.len(),
{
    if s.len() > 0 {
        lemma_seq_sum_bound(s.drop_last(), cap);
    }
}

impl Layout {
    /// Splits `area` (shrunk by the margin) into one rectangle per constraint
    /// along the layout's direction; with no constraint the whole inner area is
    /// the only segment.
    pub fn split(&self, area: Rect) -> (rects: Vec<Rect>)
        requires
            self.splittable(area),
        ensures
            self.constraints@.len() == 0 ==> rects@ == seq![area.spec_inner(self.margin)],
            self.constraints@.len() > 0 ==> rects@.len() == self.constraints@.len(),
            forall|i: int| 0 <= i < self.constraints@.len() ==> #[trigger] rects@[i] == self.segment(area, i),
    {
        let inner = area.inner(&self.margin);
        if self.constraints.len() == 0 {
            let mut v = Vec::new();
            v.push(inner);
            return v;
        }
        let total: u16 = match self.direction {
            Direction::Horizontal => inner.width,
            Direction::Vertical => inner.height,
        };
        let ghost cs = self.constraints@;
        let ghost t = total as int;
        let n = self.constraints.len();
        let mut bases: Vec<u16> = Vec::new();
        let mut sum: u32 = 0;
        let mut flexes: usize = 0;
        let mut i: usize = 0;
        while i < n
            invariant
                n == cs.len(), n < 65536, cs == self.constraints@,
                t == total, self.splittable(area), t == self.total_for(area),
                i <= n,
                bases@.len() == i,
                forall|k: int| 0 <= k < i ==> #[trigger] bases@[k] == base_size(cs[k], t),
                sum == base_sum(cs.take(i as int), t),
                sum <= i * 65535,
                flexes == flex_count(cs.take(i as int)),
                flexes <= i,
            decreases n - i,
        {
            let c = self.constraints[i];
            assert(cs[i as int] == c);
            let b = base_size_exec(c, total);
            proof { lemma_take_step(cs, i as int); }
            bases.push(b);
            sum = sum + b as u32;
            if matches!(c, Constraint::Min(_)) {
                flexes = flexes + 1;
            }
            i += 1;
        }
        assert(cs.take(n as int) =~= cs);
        let mut sizes: Vec<u16> = Vec::new();
        if sum <= total as u32 {
            let remaining: u16 = (total as u32 - sum) as u16;
            let extra: u16 = if flexes > 0 { remaining / (flexes as u16) } else { 0 };
            let modulo: u16 = if flexes > 0 { remaining % (flexes as u16) } else { 0 };
            let mut left: u16 = modulo;
            let mut seen: usize = 0;
            let mut j: usize = 0;
            while j < n
                invariant
                    n == cs.len(), n >= 1, cs == self.constraints@, t == total,
                    bases@.len() == n,
                    forall|k: int| 0 <= k < n ==> #[trigger] bases@[k] == base_size(cs[k], t),
                    base_sum(cs, t) <= t,
                    remaining == t - base_sum(cs, t),
                    flexes == flex_count(cs),
                    flexes == 0 ==> modulo == 0,
                    flexes > 0 ==> extra == (remaining as int) / (flexes as int) && modulo == (remaining as int) % (flexes as int),
                    j <= n,
                    seen == flex_count(cs.take(j as int)),
                    seen <= j,
                    left == (if seen < modulo { modulo - seen } else { 0 }),
                    sizes@.len() == j,
                    forall|k: int| 0 <= k < j ==> #[trigger] sizes@[k] == fitted_size(cs, t, k),
                decreases n - j,
            {
                let b = bases[j];
                proof { lemma_take_step(cs, j as int); }
                let c = self.constraints[j];
                let is_min = matches!(c, Constraint::Min(_));
                let size: u16;
                if flexes > 0 {
                    if is_min {
                        let mut bonus: u16 = extra;
                        if left > 0 {
                            assert(modulo < flexes);
                            assert((remaining as int) / (flexes as int) <= 32767) by (nonlinear_arith)
                                requires flexes >= 2, remaining <= 65535;
                            left = left - 1;
                            bonus = extra + 1;
                        }
                        size = b.saturating_add(bonus);
                    } else {
                        size = b;
                    }
                } else if j == n - 1 {
                    size = b.saturating_add(remaining);
                } else {
                    size = b;
                }
                if is_min {
                    seen = seen + 1;
                }
                sizes.push(size);
                j += 1;
            }
        } else {
            let mut cur: u16 = total;
            let mut j: usize = 0;
            while j < n
                invariant
                    n == cs.len(), cs == self.constraints@, t == total,
                    bases@.len() == n,
                    forall|k: int| 0 <= k < n ==> #[trigger] bases@[k] == base_size(cs[k], t),
                    j <= n,
                    sizes@.len() == j,
                    forall|k: int| 0 <= k < j ==> #[trigger] sizes@[k] == clamped_sizes(cs, t)[k],
                    clamped_sizes(cs.take(j as int), t) == clamped_sizes(cs, t).take(j as int),
                    cur == t - seq_sum(clamped_sizes(cs.take(j as int), t)),
                    0 <= cur <= t,
                decreases n - j,
            {
                let b = bases[j];
                proof {
                    lemma_take_step(cs, j as int);
                    lemma_clamped_prefix(cs, t, j + 1);
                }
                let clamped: u16 = if b < cur { b } else { cur };
                cur = cur - clamped;
                sizes.push(clamped);
                proof {
                    assert(clamped_sizes(cs.take(j + 1), t) == clamped_sizes(cs.take(j as int), t).push(clamped as int));
                    assert(clamped_sizes(cs.take(j as int), t).push(clamped as int).drop_last() =~= clamped_sizes(cs.take(j as int), t));
                    assert(clamped_sizes(cs, t)[j as int] == clamped_sizes(cs.take(j + 1), t)[j as int]);
                }
                j += 1;
            }
        }
        let mut pos: u16 = match self.direction {
            Direction::Horizontal => inner.x,
            Direction::Vertical => inner.y,
        };
        let ghost start: int = pos as int;
        let mut rects: Vec<Rect> = Vec::new();
        let mut j: usize = 0;
        while j < n
            invariant
                n == cs.len(), n >= 1, cs == self.constraints@, t == total, t == self.total_for(area),
                inner == area.spec_inner(self.margin),
                start == (match self.direction { Direction::Horizontal => inner.x as int, Direction::Vertical => inner.y as int }),
                sizes@.len() == n,
                forall|k: int| 0 <= k < n ==> #[trigger] sizes@[k] == segment_size(cs, t, k),
                j <= n,
                pos == segment_pos(cs, t, start, j as int),
                rects@.len() == j,
                forall|k: int| 0 <= k < j ==> #[trigger] rects@[k] == self.segment(area, k),
            decreases n - j,
        {
            let size = sizes[j];
            let rect = match self.direction {
                Direction::Horizontal => Rect::new(pos, inner.y, size, inner.height),
                Direction::Vertical => Rect::new(inner.x, pos, inner.width, size),
            };
            rects.push(rect);
            pos = pos.saturating_add(size);
            j += 1;
        }
        rects
    }
}

} // verus!
