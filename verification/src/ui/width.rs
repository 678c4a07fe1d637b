//! Terminal display widths of characters and text, and a grapheme-like
//! segmentation (a base character followed by its combining marks).
use vstd::prelude::*;
use crate::text::chars_of;

verus! {

/// Whether a scalar is a zero-width combining mark.
pub open spec fn is_combining(u: u32) -> bool {
    ||| 0x0300 <= u <= 0x036F
    ||| 0x1AB0 <= u <= 0x1AFF
    ||| 0x1DC0 <= u <= 0x1DFF
    ||| 0x20D0 <= u <= 0x20FF
    ||| 0xFE20 <= u <= 0xFE2F
}

/// Whether a scalar occupies two terminal cells.
pub open spec fn is_wide(u: u32) -> bool {
    ||| 0x1100 <= u <= 0x115F
    ||| 0x2E80 <= u <= 0xA4CF
    ||| 0xAC00 <= u <= 0xD7A3
    ||| 0xF900 <= u <= 0xFAFF
    ||| 0xFE10 <= u <= 0xFE19
    ||| 0xFE30 <= u <= 0xFE6F
    ||| 0xFF00 <= u <= 0xFF60
    ||| 0xFFE0 <= u <= 0xFFE6
    ||| 0x1F300 <= u <= 0x1F64F
    ||| 0x1F680 <= u <= 0x1F6FF
    ||| 0x1F900 <= u <= 0x1F9FF
    ||| 0x20000 <= u <= 0x2FFFD
    ||| 0x30000 <= u <= 0x3FFFD
}

/// Terminal width of one scalar: halfwidth sound marks take a cell, control
/// characters, zero-width characters and combining marks none, wide CJK and
/// emoji ranges two, everything else one.
pub open spec fn char_w(c: char) -> nat {
    let u = c as u32;
    if u == 0xFF9E || u == 0xFF9F {
        1
    } else if u < 32 || (0x7F <= u <= 0x9F) || (0x200B <= u <= 0x200F) || u == 0xFEFF {
        0
    } else if is_combining(u) {
        0
    } else if u <= 0x7E {
        1
    } else if is_wide(u) {
        2
    } else {
        1
    }
}

/// Display width of a character sequence: the sum of its scalars' widths.
pub open spec fn width_of(s: Seq<char>) -> nat
    decreases s.len(),
{
    if s.len() == 0 {
        0
    } else {
        width_of(s.drop_last()) + char_w(s.last())
    }
}

/// Scalars that stay attached to the preceding one when segmenting graphemes.
pub open spec fn is_extender(u: u32) -> bool {
    ||| is_combining(u)
    ||| 0xFE00 <= u <= 0xFE0F
    ||| 0x1F3FB <= u <= 0x1F3FF
    ||| u == 0x200D
    ||| 0xFF9E <= u <= 0xFF9F
}

/// The end of the run of extenders starting at `j`.
pub open spec fn extender_run_end(s: Seq<char>, j: int) -> int
    decreases s.len() - j,
{
    if 0 <= j < s.len() && is_extender(s[j] as u32) {
        extender_run_end(s, j + 1)
    } else {
        j
    }
}

/// The end (exclusive) of the grapheme that starts at `start`.
pub open spec fn grapheme_end(s: Seq<char>, start: int) -> int {
    extender_run_end(s, start + 1)
}

/// A scalar's terminal width, treating halfwidth sound marks as visible cells.
pub fn char_width(ch: char) -> (w: usize)
    ensures
        w == char_w(ch),
{
    let u = ch as u32;
    if u == 0xFF9E || u == 0xFF9F {
        return 1;
    }
    if u < 32 || (0x7F <= u && u <= 0x9F) || (0x200B <= u && u <= 0x200F) || u == 0xFEFF {
        return 0;
    }
    if is_combining_mark(u) {
        return 0;
    }
    if u <= 0x7E {
        return 1;
    }
    if (0x1100 <= u && u <= 0x115F) || (0x2E80 <= u && u <= 0xA4CF) || (0xAC00 <= u && u <= 0xD7A3)
        || (0xF900 <= u && u <= 0xFAFF) || (0xFE10 <= u && u <= 0xFE19) || (0xFE30 <= u && u <= 0xFE6F)
        || (0xFF00 <= u && u <= 0xFF60) || (0xFFE0 <= u && u <= 0xFFE6)
        || (0x1F300 <= u && u <= 0x1F64F) || (0x1F680 <= u && u <= 0x1F6FF)
        || (0x1F900 <= u && u <= 0x1F9FF) || (0x20000 <= u && u <= 0x2FFFD)
        || (0x30000 <= u && u <= 0x3FFFD) {
        return 2;
    }
    1
}

fn is_combining_mark(u: u32) -> (b: bool)
    ensures
        b == is_combining(u),
{
    (0x0300 <= u && u <= 0x036F) || (0x1AB0 <= u && u <= 0x1AFF) || (0x1DC0 <= u && u <= 0x1DFF)
        || (0x20D0 <= u && u <= 0x20FF) || (0xFE20 <= u && u <= 0xFE2F)
}

fn is_extender_scalar(u: u32) -> (b: bool)
    ensures
        b == is_extender(u),
{
    is_combining_mark(u) || (0xFE00 <= u && u <= 0xFE0F) || (0x1F3FB <= u && u <= 0x1F3FF)
        || u == 0x200D || (0xFF9E <= u && u <= 0xFF9F)
}

/// Widths add up over concatenation.
pub proof fn lemma_width_concat(a: Seq<char>, b: Seq<char>)
    ensures
        width_of(a + b) == width_of(a) + width_of(b),
    decreases b.len(),
{
    if b.len() == 0 {
        assert(a + b =~= a);
    } else {
        lemma_width_concat(a, b.drop_last());
        assert((a + b).drop_last() =~= a + b.drop_last());
    }
}

/// No scalar is wider than two cells.
pub proof fn lemma_width_bound(s: Seq<char>)
    ensures
        width_of(s) <= 2 * s.len(),
    decreases s.len(),
{
    if s.len() > 0 {
        lemma_width_bound(s.drop_last());
    }
}

/// Width of a prefix extended by one scalar.
pub proof fn lemma_width_step(s: Seq<char>, i: int)
    requires
        0 <= i < s.len(),
    ensures
        width_of(s.subrange(0, i + 1)) == width_of(s.subrange(0, i)) + char_w(s[i]),
{
    assert(s.subrange(0, i + 1).drop_last() =~= s.subrange(0, i));
}

/// Display width of `v[from..to]`.
pub fn width_of_range(v: &[char], from: usize, to: usize) -> (w: usize)
    requires
        from <= to <= v@.len(),
        v@.len() <= usize::MAX / 2,
    ensures
        w == width_of(v@.subrange(from as int, to as int)),
{
    let mut w: usize = 0;
    let mut i: usize = from;
    while i < to
        invariant
            from <= i <= to <= v@.len() <= usize::MAX / 2,
            w == width_of(v@.subrange(from as int, i as int)),
        decreases to - i,
    {
        proof {
            lemma_width_step(v@.subrange(from as int, to as int), i - from);
            assert(v@.subrange(from as int, to as int).subrange(0, i - from) =~= v@.subrange(from as int, i as int));
            assert(v@.subrange(from as int, to as int).subrange(0, i - from + 1) =~= v@.subrange(from as int, i + 1));
            lemma_width_bound(v@.subrange(from as int, i as int));
        }
        w = w + char_width(v[i]);
        i += 1;
    }
    w
}

/// Display width of terminal text, as a `usize` with no `u16` limit.
pub fn display_width(text: &str) -> (w: usize)
    requires
        text@.len() <= usize::MAX / 2,
    ensures
        w == width_of(text@),
{
    let v = chars_of(text);
    assert(v@.subrange(0, v@.len() as int) =~= v@);
    width_of_range(v.as_slice(), 0, v.len())
}

/// Usable content width after reserving fixed columns; `None` when nothing is left.
pub fn usable_content_width(total_width: usize, reserved_cols: usize) -> (r: Option<usize>)
    ensures
        r == (if total_width > reserved_cols { Some((total_width - reserved_cols) as usize) } else { None::<usize> }),
{
    if total_width > reserved_cols {
        Some(total_width - reserved_cols)
    } else {
        None
    }
}

/// End (exclusive) of the grapheme of `v` that starts at `start`.
pub fn next_grapheme_end(v: &[char], start: usize) -> (end: usize)
    requires
        start < v@.len(),
    ensures
        end == grapheme_end(v@, start as int),
        start < end <= v@.len(),
{
    let n: usize = v.len();
    let mut j: usize = start + 1;
    while j < n && is_extender_scalar(v[j] as u32)
        invariant
            start < j <= v@.len(),
            n == v@.len(),
            extender_run_end(v@, j as int) == grapheme_end(v@, start as int),
        decreases v@.len() - j,
    {
        j += 1;
    }
    j
}

/// Each grapheme ends within the text, strictly after it starts.
pub proof fn lemma_grapheme_end_bounds(s: Seq<char>, start: int)
    requires
        0 <= start < s.len(),
    ensures
        start < grapheme_end(s, start) <= s.len(),
{
    lemma_run_end_bounds(s, start + 1);
}

/// A run of extenders ends within the text, at or after its start.
pub proof fn lemma_run_end_bounds(s: Seq<char>, j: int)
    requires
        0 <= j <= s.len(),
    ensures
        j <= extender_run_end(s, j) <= s.len(),
    decreases s.len() - j,
{
    if j < s.len() && is_extender(s[j] as u32) {
        lemma_run_end_bounds(s, j + 1);
    }
}

/// The end of the longest run of whole graphemes from `p` whose width, added
/// to `used`, stays within `budget`; with `stop_full`, the run also ends as
/// soon as the budget is exactly used up.
pub open spec fn greedy_end(s: Seq<char>, p: int, used: int, budget: int, stop_full: bool) -> int
    decreases s.len() - p,
{
    if p < 0 || p >= s.len() {
        p
    } else {
        let g = grapheme_end(s, p);
        let w = width_of(s.subrange(p, g)) as int;
        if used + w > budget || g <= p || g > s.len() {
            p
        } else if stop_full && used + w == budget {
            g
        } else {
            greedy_end(s, g, used + w, budget, stop_full)
        }
    }
}

/// The width used by the run that `greedy_end` selects.
pub open spec fn greedy_used(s: Seq<char>, p: int, used: int, budget: int, stop_full: bool) -> int
    decreases s.len() - p,
{
    if p < 0 || p >= s.len() {
        used
    } else {
        let g = grapheme_end(s, p);
        let w = width_of(s.subrange(p, g)) as int;
        if used + w > budget || g <= p || g > s.len() {
            used
        } else if stop_full && used + w == budget {
            used + w
        } else {
            greedy_used(s, g, used + w, budget, stop_full)
        }
    }
}

/// Bounds of the greedy run: it ends inside the text, its width is
/// `greedy_used - used`, and it stays within the budget.
pub proof fn lemma_greedy(s: Seq<char>, p: int, used: int, budget: int, stop_full: bool)
    requires
        0 <= p <= s.len(),
        0 <= used <= budget,
    ensures
        p <= greedy_end(s, p, used, budget, stop_full) <= s.len(),
        used <= greedy_used(s, p, used, budget, stop_full) <= budget,
        greedy_used(s, p, used, budget, stop_full) == used + width_of(s.subrange(p, greedy_end(s, p, used, budget, stop_full))),
    decreases s.len() - p,
{
    if p < s.len() {
        let g = grapheme_end(s, p);
        lemma_grapheme_end_bounds(s, p);
        let w = width_of(s.subrange(p, g)) as int;
        if used + w > budget || g <= p || g > s.len() {
            assert(s.subrange(p, p) =~= Seq::<char>::empty());
        } else if stop_full && used + w == budget {
        } else {
            lemma_greedy(s, g, used + w, budget, stop_full);
            let e = greedy_end(s, g, used + w, budget, stop_full);
            assert(s.subrange(p, e) =~= s.subrange(p, g) + s.subrange(g, e));
            lemma_width_concat(s.subrange(p, g), s.subrange(g, e));
        }
    } else {
        assert(s.subrange(p, p) =~= Seq::<char>::empty());
    }
}

/// Computes `greedy_end` and `greedy_used` from position `p`.
pub fn greedy_prefix(v: &[char], p: usize, used: usize, budget: usize, stop_full: bool) -> (r: (usize, usize))
    requires
        p <= v@.len(),
        used <= budget,
        v@.len() <= usize::MAX / 2,
    ensures
        r.0 == greedy_end(v@, p as int, used as int, budget as int, stop_full),
        r.1 == greedy_used(v@, p as int, used as int, budget as int, stop_full),
{
    let mut pos = p;
    let mut u = used;
    while pos < v.len()
        invariant
            p <= pos <= v@.len() <= usize::MAX / 2,
            u <= budget,
            greedy_end(v@, pos as int, u as int, budget as int, stop_full) == greedy_end(v@, p as int, used as int, budget as int, stop_full),
            greedy_used(v@, pos as int, u as int, budget as int, stop_full) == greedy_used(v@, p as int, used as int, budget as int, stop_full),
        decreases v@.len() - pos,
    {
        let g = next_grapheme_end(v, pos);
        let w = width_of_range(v, pos, g);
        if w > budget - u {
            return (pos, u);
        }
        if stop_full && u + w == budget {
            return (g, u + w);
        }
        u = u + w;
        pos = g;
    }
    (pos, u)
}

/// The East Asian wide and fullwidth blocks, by name: Hangul Jamo leading
/// consonants, CJK radicals through Yi syllables, Hangul syllables, CJK
/// compatibility ideographs, vertical forms, CJK compatibility forms and
/// small forms, fullwidth forms and fullwidth signs, the emoji blocks
/// (miscellaneous symbols and pictographs with emoticons, transport and map
/// symbols, supplemental symbols and pictographs), and the supplementary and
/// tertiary ideographic planes.
pub open spec fn east_asian_wide(u: u32) -> bool {
    ||| (u >= 0x1100 && u <= 0x115F)
    ||| (u >= 0x2E80 && u <= 0xA4CF)
    ||| (u >= 0xAC00 && u <= 0xD7A3)
    ||| (u >= 0xF900 && u <= 0xFAFF)
    ||| (u >= 0xFE10 && u <= 0xFE19)
    ||| (u >= 0xFE30 && u <= 0xFE6F)
    ||| (u >= 0xFF00 && u <= 0xFF60)
    ||| (u >= 0xFFE0 && u <= 0xFFE6)
    ||| (u >= 0x1F300 && u <= 0x1F64F)
    ||| (u >= 0x1F680 && u <= 0x1F6FF)
    ||| (u >= 0x1F900 && u <= 0x1F9FF)
    ||| (u >= 0x20000 && u <= 0x2FFFD)
    ||| (u >= 0x30000 && u <= 0x3FFFD)
}

/// Scalars that take no cell, by name: C0 and C1 control characters and
/// DEL, the zero-width space, joiners and direction marks, the byte order
/// mark, and the combining diacritical marks (basic, extended,
/// supplement, for symbols, and half marks).
pub open spec fn zero_width_scalar(u: u32) -> bool {
    ||| u < 0x20
    ||| (u >= 0x7F && u <= 0x9F)
    ||| (u >= 0x200B && u <= 0x200F)
    ||| u == 0xFEFF
    ||| (u >= 0x0300 && u <= 0x036F)
    ||| (u >= 0x1AB0 && u <= 0x1AFF)
    ||| (u >= 0x1DC0 && u <= 0x1DFF)
    ||| (u >= 0x20D0 && u <= 0x20FF)
    ||| (u >= 0xFE20 && u <= 0xFE2F)
}

/// Law: a scalar of the East Asian wide blocks (Hangul syllables among
/// them) takes two cells; printable ASCII takes one; control characters,
/// zero-width spaces and combining marks take none; the halfwidth sound
/// marks take one.
pub proof fn lemma_char_widths(c: char)
    ensures
        east_asian_wide(c as u32) ==> char_w(c) == 2,
        0x20 <= (c as u32) <= 0x7E ==> char_w(c) == 1,
        zero_width_scalar(c as u32) ==> char_w(c) == 0,
        ((c as u32) == 0xFF9E || (c as u32) == 0xFF9F) ==> char_w(c) == 1,
{
}

/// Law: text made only of East Asian wide scalars is twice as wide as it is
/// long.
pub proof fn lemma_wide_text(s: Seq<char>)
    requires
        forall|k: int| 0 <= k < s.len() ==> east_asian_wide(#[trigger] s[k] as u32),
    ensures
        width_of(s) == 2 * s.len(),
    decreases s.len(),
{
    if s.len() > 0 {
        lemma_char_widths(s.last());
        assert(east_asian_wide(s[s.len() - 1] as u32));
        lemma_wide_text(s.drop_last());
    }
}

} // verus!
