//! File tools over text: line ranges with numbers, exact replacement, and
//! line-range edits (one or several at once).
use vstd::prelude::*;
use crate::text::{chars_of, owned, push_str, push_char, string_of, dec, push_decimal, decimal_len,
    lemma_dec_len_bound, has_prefix, starts_with};
use crate::textops::{trim_ws, trim_str, find_seq, find_from, lemma_find_seq, replace_char, replaced_range};
use crate::ui::engine::widgets::{split_lines, text_lines};
use crate::repo::context::{texts, join, push_joined};
use crate::repo::contract::ot;
use crate::tools::exec_policy::{trim_matching, path_prefix, path_starts_with};
use crate::textops::has_suffix;

verus! {

/// A decimal right-aligned to a width with spaces (`{:>w}`).
pub open spec fn right_aligned(d: Seq<char>, w: nat) -> Seq<char> {
    if d.len() >= w { d } else { Seq::new((w - d.len()) as nat, |i: int| ' ') + d }
}

/// Lines `from..to` of `ls`, each after its 1-based number right-aligned in
/// six columns and two spaces.
pub open spec fn numbered(ls: Seq<Seq<char>>, from: int, to: int) -> Seq<Seq<char>> {
    Seq::new((to - from) as nat, |k: int| right_aligned(dec((from + k + 1) as nat), 6) + "  "@ + ls[from + k])
}

/// The smaller of two numbers.
pub open spec fn min_nat(a: nat, b: nat) -> nat {
    if a < b { a } else { b }
}

/// A line range of a text: a header `[lines start-last of total]`, then the
/// numbered lines from `start` to `end` (as far as the text goes).
pub open spec fn range_text(content: Seq<char>, start: nat, end: nat) -> Seq<char> {
    let ls = text_lines(content);
    let n = ls.len();
    let to = min_nat(end, n);
    let from = start - 1;
    let body = if from < to { join(numbered(ls, from, to as int), "\n"@) } else { Seq::empty() };
    "[lines "@ + dec(start) + "-"@ + dec(to) + " of "@ + dec(n) + "]\n"@ + body
}

/// Reading a line range of a file: refused when the range is not 1-based
/// and ordered, or when there is no file (`content` is `None`); else the
/// range (see `range_text`).
pub open spec fn read_range_result(content: Option<Seq<char>>, start: nat, end: nat) -> Result<Seq<char>, Seq<char>> {
    if start == 0 || end < start {
        Err("line range must be 1-based and end_line >= start_line"@)
    } else {
        match content {
            None => Err("file not found or path is outside workspace"@),
            Some(c) => Ok(range_text(c, start, end)),
        }
    }
}

fn push_right_aligned(out: &mut String, n: u64, w: usize)
    requires
        w <= 20,
    ensures
        final(out)@ == old(out)@ + right_aligned(dec(n as nat), w as nat),
{
    let l = decimal_len(n);
    let ghost start = out@;
    proof { lemma_dec_len_bound(n as nat); }
    if l < w {
        let mut k: usize = 0;
        while k < w - l
            invariant
                k <= w - l,
                l < w,
                out@ == start + Seq::new(k as nat, |i: int| ' '),
            decreases w - l - k,
        {
            push_char(out, ' ');
            k += 1;
            assert(out@ =~= start + Seq::new(k as nat, |i: int| ' '));
        }
    }
    let ghost mid = out@;
    push_decimal(out, n);
    if l < w {
        assert(out@ =~= start + (Seq::new((w - l) as nat, |i: int| ' ') + dec(n as nat)));
    } else {
        assert(out@ =~= start + dec(n as nat));
    }
}

/// Reads a line range (see `read_range_result`).
pub fn read_range(content: Option<&str>, start_line: usize, end_line: usize) -> (r: Result<String, String>)
    ensures
        match (r, read_range_result(match content { Some(c) => Some(c@), None => None }, start_line as nat, end_line as nat)) {
            (Ok(t), Ok(u)) => t@ == u,
            (Err(e), Err(u)) => e@ == u,
            _ => false,
        },
{
    if start_line == 0 || end_line < start_line {
        return Err(owned("line range must be 1-based and end_line >= start_line"));
    }
    let content = match content {
        Some(c) => c,
        None => return Err(owned("file not found or path is outside workspace")),
    };
    let lines = split_lines(content);
    let ghost ls = text_lines(content@);
    let n = lines.len();
    let to = if end_line < n { end_line } else { n };
    let from = start_line - 1;
    let mut out = owned("[lines ");
    push_decimal(&mut out, start_line as u64);
    push_str(&mut out, "-");
    push_decimal(&mut out, to as u64);
    push_str(&mut out, " of ");
    push_decimal(&mut out, n as u64);
    push_str(&mut out, "]\n");
    let mut items: Vec<String> = Vec::new();
    if from < to {
        let mut k = from;
        assert(numbered(ls, from as int, to as int).subrange(0, 0) =~= Seq::<Seq<char>>::empty());
        while k < to
            invariant
                from <= k <= to <= n == ls.len() == lines@.len(),
                forall|j: int| 0 <= j < lines@.len() ==> (#[trigger] lines@[j])@ == ls[j],
                texts(items@) == numbered(ls, from as int, to as int).subrange(0, (k - from) as int),
            decreases to - k,
        {
            let mut s = String::new();
            push_right_aligned(&mut s, (k + 1) as u64, 6);
            push_str(&mut s, "  ");
            push_str(&mut s, lines[k].as_str());
            let ghost before = texts(items@);
            let ghost sv = s@;
            items.push(s);
            assert(texts(items@) =~= before.push(sv));
            assert(numbered(ls, from as int, to as int).subrange(0, (k + 1 - from) as int)
                =~= numbered(ls, from as int, to as int).subrange(0, (k - from) as int).push(sv));
            k += 1;
        }
        assert(numbered(ls, from as int, to as int).subrange(0, (to - from) as int) =~= numbered(ls, from as int, to as int));
    }
    let ghost head = out@;
    push_joined(&mut out, &items, "\n");
    proof {
        if !(from < to) {
            assert(texts(items@) =~= Seq::<Seq<char>>::empty());
        }
    }
    Ok(out)
}


/// The number of non-overlapping occurrences of `p` in `s` from `i` on
/// (`match_indices(..).count()`); none for an empty `p`.
pub open spec fn occurrences(s: Seq<char>, p: Seq<char>, i: int) -> nat
    decreases s.len() + 1 - i,
{
    if p.len() == 0 || i < 0 {
        0
    } else {
        match find_seq(s, p, i) {
            Some(k) => if i <= k && k + p.len() <= s.len() { 1 + occurrences(s, p, k + p.len()) } else { 0 },
            None => 0,
        }
    }
}

/// Replacing `old` by `new` once: refused for an empty `old` and unless
/// `old` occurs exactly once.
pub open spec fn replace_exact_result(content: Seq<char>, old: Seq<char>, new: Seq<char>) -> Result<Seq<char>, Seq<char>> {
    if old.len() == 0 {
        Err("old text must not be empty"@)
    } else if occurrences(content, old, 0) != 1 {
        Err("expected exactly one match, found "@ + dec(occurrences(content, old, 0)) + "; file was not changed"@)
    } else {
        match find_seq(content, old, 0) {
            Some(k) => Ok(content.subrange(0, k) + new + content.subrange(k + old.len(), content.len() as int)),
            None => Err(Seq::empty()),
        }
    }
}

fn count_occurrences(v: &Vec<char>, p: &Vec<char>) -> (n: usize)
    requires
        p@.len() > 0,
    ensures
        n == occurrences(v@, p@, 0),
{
    let len = v.len();
    let mut n: usize = 0;
    let mut c: usize = 0;
    loop
        invariant
            c <= len == v@.len(),
            p@.len() > 0,
            n <= c,
            n + occurrences(v@, p@, c as int) == occurrences(v@, p@, 0),
        decreases len - c,
    {
        proof { lemma_find_seq(v@, p@, c as int); }
        match find_from(v.as_slice(), p.as_slice(), c) {
            Some(k) => {
                n += 1;
                c = k + p.len();
            },
            None => {
                return n;
            },
        }
    }
}

/// Replaces `old` by `new` once (see `replace_exact_result`).
pub fn replace_exact_text(content: &str, old: &str, new: &str) -> (r: Result<String, String>)
    ensures
        match (r, replace_exact_result(content@, old@, new@)) {
            (Ok(t), Ok(u)) => t@ == u,
            (Err(e), Err(u)) => e@ == u,
            _ => false,
        },
{
    let v = chars_of(content);
    let ov = chars_of(old);
    if ov.len() == 0 {
        return Err(owned("old text must not be empty"));
    }
    let count = count_occurrences(&v, &ov);
    if count != 1 {
        let mut e = owned("expected exactly one match, found ");
        push_decimal(&mut e, count as u64);
        push_str(&mut e, "; file was not changed");
        return Err(e);
    }
    let n = v.len();
    proof { lemma_find_seq(v@, ov@, 0); }
    match find_from(v.as_slice(), ov.as_slice(), 0) {
        Some(k) => {
            assert(k + ov@.len() <= n);
            let mut out = string_of(v.as_slice(), 0, k);
            push_str(&mut out, new);
            let tail = string_of(v.as_slice(), k + ov.len(), v.len());
            push_str(&mut out, tail.as_str());
            Ok(out)
        },
        None => {
            assert(false);
            Err(String::new())
        },
    }
}

/// Lines joined with newlines, ending in a newline when the original text
/// did and the joined lines do not.
pub open spec fn finish_text(content: Seq<char>, lines: Seq<Seq<char>>) -> Seq<char> {
    let j = join(lines, "\n"@);
    if content.len() > 0 && content.last() == '\n' && !(j.len() > 0 && j.last() == '\n') { j + "\n"@ } else { j }
}

/// Lines `a..b` of `ls` replaced by `repl`.
pub open spec fn splice_lines(ls: Seq<Seq<char>>, a: int, b: int, repl: Seq<Seq<char>>) -> Seq<Seq<char>> {
    ls.subrange(0, a) + repl + ls.subrange(b, ls.len() as int)
}

/// The lines after replacing lines `start..=end` (1-based; `end` capped at
/// the last line) by `new`: refused when `start` is 0 or past the line after
/// the last, when `end` comes before `start`, or when `old` is given and,
/// trimmed, differs from the lines replaced (joined, trimmed).
pub open spec fn edit_lines_result(ls: Seq<Seq<char>>, start: nat, end: nat, old: Option<Seq<char>>, new: Seq<char>) -> Result<Seq<Seq<char>>, Seq<char>> {
    let n = ls.len();
    if start == 0 || start > n + 1 {
        Err("start_line "@ + dec(start) + " is out of bounds (file has "@ + dec(n) + " lines)"@)
    } else if end < start {
        Err("end_line "@ + dec(end) + " must be >= start_line "@ + dec(start))
    } else {
        let e = min_nat(end, n) as int;
        let s0 = start - 1;
        let actual = trim_ws(join(ls.subrange(s0, e), "\n"@));
        match old {
            Some(o) => if actual != trim_ws(o) {
                Err("content mismatch at lines "@ + dec(start) + "-"@ + dec(end) + ":\nExpected:\n"@ + trim_ws(o)
                    + "\n\nActual:\n"@ + actual)
            } else {
                Ok(splice_lines(ls, s0, e, text_lines(new)))
            },
            None => Ok(splice_lines(ls, s0, e, text_lines(new))),
        }
    }
}

/// Editing a file's text: by line range when both ends are given, else by
/// replacing `old` exactly once (which must then be given).
pub open spec fn edit_result(content: Seq<char>, start: Option<nat>, end: Option<nat>, old: Option<Seq<char>>, new: Seq<char>) -> Result<Seq<char>, Seq<char>> {
    match (start, end) {
        (Some(s), Some(e)) => match edit_lines_result(text_lines(content), s, e, old, new) {
            Ok(ls) => Ok(finish_text(content, ls)),
            Err(m) => Err(m),
        },
        _ => match old {
            None => Err("start_line/end_line or old_content must be provided"@),
            Some(o) => replace_exact_result(content, o, new),
        },
    }
}

fn copy_lines(lines: &Vec<String>, a: usize, b: usize, out: &mut Vec<String>)
    requires
        a <= b <= lines@.len(),
    ensures
        texts(final(out)@) == texts(old(out)@) + texts(lines@).subrange(a as int, b as int),
{
    let ghost start = texts(out@);
    let mut i = a;
    assert(texts(lines@).subrange(a as int, a as int) =~= Seq::<Seq<char>>::empty());
    while i < b
        invariant
            a <= i <= b <= lines@.len(),
            texts(out@) == start + texts(lines@).subrange(a as int, i as int),
        decreases b - i,
    {
        let ghost before = texts(out@);
        out.push(owned(lines[i].as_str()));
        assert(texts(out@) =~= before.push(lines@[i as int]@));
        assert(texts(lines@).subrange(a as int, i + 1) =~= texts(lines@).subrange(a as int, i as int).push(lines@[i as int]@));
        i += 1;
    }
}

fn join_lines(lines: &Vec<String>, a: usize, b: usize) -> (r: String)
    requires
        a <= b <= lines@.len(),
    ensures
        r@ == join(texts(lines@).subrange(a as int, b as int), "\n"@),
{
    let mut part: Vec<String> = Vec::new();
    copy_lines(lines, a, b, &mut part);
    assert(texts(part@) =~= texts(lines@).subrange(a as int, b as int));
    let mut r = String::new();
    push_joined(&mut r, &part, "\n");
    assert(r@ =~= join(texts(part@), "\n"@));
    r
}

fn mismatch_message(start: usize, end: usize, old: &str, actual: &str) -> (m: String)
    ensures
        m@ == "content mismatch at lines "@ + dec(start as nat) + "-"@ + dec(end as nat) + ":\nExpected:\n"@ + old@
            + "\n\nActual:\n"@ + actual@,
{
    let mut m = owned("content mismatch at lines ");
    push_decimal(&mut m, start as u64);
    push_str(&mut m, "-");
    push_decimal(&mut m, end as u64);
    push_str(&mut m, ":\nExpected:\n");
    push_str(&mut m, old);
    push_str(&mut m, "\n\nActual:\n");
    push_str(&mut m, actual);
    m
}

/// Applies a line-range edit to lines (see `edit_lines_result`).
pub fn edit_lines(lines: &Vec<String>, start: usize, end: usize, old: Option<&str>, new: &str) -> (r: Result<Vec<String>, String>)
    ensures
        match (r, edit_lines_result(texts(lines@), start as nat, end as nat, match old { Some(o) => Some(o@), None => None }, new@)) {
            (Ok(t), Ok(u)) => texts(t@) == u,
            (Err(e), Err(u)) => e@ == u,
            _ => false,
        },
{
    let n = lines.len();
    if start == 0 || start - 1 > n {
        let mut m = owned("start_line ");
        push_decimal(&mut m, start as u64);
        push_str(&mut m, " is out of bounds (file has ");
        push_decimal(&mut m, n as u64);
        push_str(&mut m, " lines)");
        return Err(m);
    }
    if end < start {
        let mut m = owned("end_line ");
        push_decimal(&mut m, end as u64);
        push_str(&mut m, " must be >= start_line ");
        push_decimal(&mut m, start as u64);
        return Err(m);
    }
    let e = if end < n { end } else { n };
    let s0 = start - 1;
    match old {
        Some(o) => {
            let actual = join_lines(lines, s0, e);
            let ta = trim_str(actual.as_str());
            let to = trim_str(o);
            let av = chars_of(ta.as_str());
            let ov = chars_of(to.as_str());
            let same = av.len() == ov.len() && starts_with(av.as_slice(), ov.as_slice());
            proof {
                if ta@ == to@ {
                    assert(av@.subrange(0, ov@.len() as int) =~= av@);
                }
                if av@.len() == ov@.len() && has_prefix(av@, ov@) {
                    assert(av@ =~= av@.subrange(0, ov@.len() as int));
                }
            }
            if !same {
                return Err(mismatch_message(start, end, to.as_str(), ta.as_str()));
            }
        },
        None => {},
    }
    let repl = split_lines(new);
    let mut out: Vec<String> = Vec::new();
    copy_lines(lines, 0, s0, &mut out);
    let ghost head = texts(out@);
    let mut i: usize = 0;
    while i < repl.len()
        invariant
            i <= repl@.len() == text_lines(new@).len(),
            forall|j: int| 0 <= j < repl@.len() ==> (#[trigger] repl@[j])@ == text_lines(new@)[j],
            texts(out@) == head + text_lines(new@).subrange(0, i as int),
        decreases repl@.len() - i,
    {
        let ghost before = texts(out@);
        out.push(owned(repl[i].as_str()));
        assert(texts(out@) =~= before.push(text_lines(new@)[i as int]));
        assert(text_lines(new@).subrange(0, i + 1) =~= text_lines(new@).subrange(0, i as int).push(text_lines(new@)[i as int]));
        i += 1;
    }
    assert(text_lines(new@).subrange(0, i as int) =~= text_lines(new@));
    copy_lines(lines, e, n, &mut out);
    assert(texts(out@) =~= splice_lines(texts(lines@), s0 as int, e as int, text_lines(new@)));
    Ok(out)
}

/// Joins edited lines into a file's new text (see `finish_text`).
pub fn finish_lines(content: &str, lines: &Vec<String>) -> (r: String)
    ensures
        r@ == finish_text(content@, texts(lines@)),
{
    let mut j = String::new();
    push_joined(&mut j, lines, "\n");
    assert(j@ =~= join(texts(lines@), "\n"@));
    let cv = chars_of(content);
    let jv = chars_of(j.as_str());
    if cv.len() > 0 && cv[cv.len() - 1] == '\n' && !(jv.len() > 0 && jv[jv.len() - 1] == '\n') {
        push_str(&mut j, "\n");
    }
    j
}

/// Edits a file's text (see `edit_result`).
pub fn edit_text(content: &str, start: Option<usize>, end: Option<usize>, old: Option<&str>, new: &str) -> (r: Result<String, String>)
    ensures
        match (r, edit_result(content@, match start { Some(s) => Some(s as nat), None => None },
            match end { Some(e) => Some(e as nat), None => None }, match old { Some(o) => Some(o@), None => None }, new@)) {
            (Ok(t), Ok(u)) => t@ == u,
            (Err(e), Err(u)) => e@ == u,
            _ => false,
        },
{
    match (start, end) {
        (Some(s), Some(e)) => {
            let lines = split_lines(content);
            assert(texts(lines@) =~= text_lines(content@));
            match edit_lines(&lines, s, e, old, new) {
                Ok(ls) => Ok(finish_lines(content, &ls)),
                Err(m) => Err(m),
            }
        },
        _ => match old {
            None => Err(owned("start_line/end_line or old_content must be provided")),
            Some(o) => replace_exact_text(content, o, new),
        },
    }
}


/// One edit of several applied together.
#[derive(Debug, Clone)]
pub struct MultiEdit {
    pub start_line: usize,
    pub end_line: usize,
    pub old_content: Option<String>,
    pub new_content: String,
}

/// An edit by its values.
pub struct EditView {
    pub start: nat,
    pub end: nat,
    pub old: Option<Seq<char>>,
    pub new: Seq<char>,
}

/// The values of an edit.
pub open spec fn edit_view(e: MultiEdit) -> EditView {
    EditView { start: e.start_line as nat, end: e.end_line as nat, old: ot(e.old_content), new: e.new_content@ }
}

/// The values of edits.
pub open spec fn edit_views(es: Seq<MultiEdit>) -> Seq<EditView> {
    es.map_values(|e: MultiEdit| edit_view(e))
}

/// `x` placed into edits sorted by decreasing start, after every edit
/// starting at the same line or later.
pub open spec fn insert_desc(sorted: Seq<EditView>, x: EditView) -> Seq<EditView>
    decreases sorted.len(),
{
    if sorted.len() == 0 || !(x.start > sorted.last().start) {
        sorted.push(x)
    } else {
        insert_desc(sorted.drop_last(), x).push(sorted.last())
    }
}

/// Edits in decreasing order of their first line, ties in their given order.
pub open spec fn sort_desc(es: Seq<EditView>) -> Seq<EditView>
    decreases es.len(),
{
    if es.len() == 0 { Seq::empty() } else { insert_desc(sort_desc(es.drop_last()), es.last()) }
}

/// The refusal for the first pair of neighbouring sorted edits that overlap
/// (the earlier one, in sorted order, does not start after the other ends).
pub open spec fn first_overlap(sorted: Seq<EditView>, i: int) -> Option<Seq<char>>
    decreases sorted.len() - i,
{
    if i < 0 || i + 1 >= sorted.len() {
        None
    } else if sorted[i].start <= sorted[i + 1].end {
        Some("overlapping edits are not allowed: lines "@ + dec(sorted[i + 1].start) + "-"@ + dec(sorted[i + 1].end)
            + " overlaps lines "@ + dec(sorted[i].start) + "-"@ + dec(sorted[i].end))
    } else {
        first_overlap(sorted, i + 1)
    }
}

/// The lines after applying the sorted edits from `i` on, one after the
/// other, or the first refusal.
pub open spec fn apply_edits(ls: Seq<Seq<char>>, sorted: Seq<EditView>, i: int) -> Result<Seq<Seq<char>>, Seq<char>>
    decreases sorted.len() - i,
{
    if i < 0 || i >= sorted.len() {
        Ok(ls)
    } else {
        match edit_lines_result(ls, sorted[i].start, sorted[i].end, sorted[i].old, sorted[i].new) {
            Ok(next) => apply_edits(next, sorted, i + 1),
            Err(m) => Err(m),
        }
    }
}

/// Several edits of a file's text at once: refused when there are none or
/// two overlap; else applied from the last lines up, so that no edit moves
/// the lines of another.
pub open spec fn multi_edit_result(content: Seq<char>, edits: Seq<EditView>) -> Result<Seq<char>, Seq<char>> {
    if edits.len() == 0 {
        Err("edits must not be empty"@)
    } else {
        let sorted = sort_desc(edits);
        match first_overlap(sorted, 0) {
            Some(m) => Err(m),
            None => match apply_edits(text_lines(content), sorted, 0) {
                Ok(ls) => Ok(finish_text(content, ls)),
                Err(m) => Err(m),
            },
        }
    }
}

/// The edits picked by indices.
pub open spec fn picked(es: Seq<EditView>, idx: Seq<usize>) -> Seq<EditView> {
    idx.map_values(|i: usize| es[i as int])
}

fn insert_desc_position(edits: &[MultiEdit], sorted: &Vec<usize>, x: usize) -> (p: usize)
    requires
        x < edits@.len(),
        forall|j: int| 0 <= j < sorted@.len() ==> #[trigger] sorted@[j] < edits@.len(),
    ensures
        p <= sorted@.len(),
        insert_desc(picked(edit_views(edits@), sorted@), edit_views(edits@)[x as int])
            == picked(edit_views(edits@), sorted@.subrange(0, p as int).push(x) + sorted@.subrange(p as int, sorted@.len() as int)),
{
    let ghost es = edit_views(edits@);
    let ghost s = picked(es, sorted@);
    let ghost xv = es[x as int];
    let n = sorted.len();
    let mut p = n;
    assert(sorted@.subrange(0, n as int) =~= sorted@);
    assert(s.subrange(0, n as int) =~= s);
    assert(s.subrange(n as int, n as int) =~= Seq::<EditView>::empty());
    loop
        invariant
            p <= n == sorted@.len(),
            x < edits@.len(),
            es == edit_views(edits@),
            s == picked(es, sorted@),
            xv == es[x as int],
            forall|j: int| 0 <= j < sorted@.len() ==> #[trigger] sorted@[j] < edits@.len(),
            insert_desc(s, xv) == insert_desc(s.subrange(0, p as int), xv) + s.subrange(p as int, n as int),
        decreases p,
    {
        if p == 0 {
            assert(s.subrange(0, 0) =~= Seq::<EditView>::empty());
            assert(insert_desc(s.subrange(0, 0), xv) =~= Seq::<EditView>::empty().push(xv));
            assert(picked(es, sorted@.subrange(0, 0).push(x) + sorted@.subrange(0, n as int)) =~= insert_desc(s, xv));
            return 0;
        }
        let k = sorted[p - 1];
        let ghost pre = s.subrange(0, p as int);
        assert(pre.last() == es[k as int]);
        assert(es[k as int].start == edits@[k as int].start_line);
        assert(xv.start == edits@[x as int].start_line);
        if !(edits[x].start_line > edits[k].start_line) {
            assert(picked(es, sorted@.subrange(0, p as int).push(x) + sorted@.subrange(p as int, n as int))
                =~= s.subrange(0, p as int).push(xv) + s.subrange(p as int, n as int));
            return p;
        }
        assert(pre.drop_last() =~= s.subrange(0, p - 1));
        assert(s.subrange(p - 1, n as int) =~= seq![s[p - 1]] + s.subrange(p as int, n as int));
        assert(insert_desc(s, xv) =~= insert_desc(s.subrange(0, p - 1), xv) + s.subrange(p - 1, n as int));
        p -= 1;
    }
}

proof fn lemma_sort_desc_len(es: Seq<EditView>)
    ensures
        sort_desc(es).len() == es.len(),
    decreases es.len(),
{
    if es.len() > 0 {
        lemma_sort_desc_len(es.drop_last());
        lemma_insert_desc_len(sort_desc(es.drop_last()), es.last());
    }
}

proof fn lemma_insert_desc_len(s: Seq<EditView>, x: EditView)
    ensures
        insert_desc(s, x).len() == s.len() + 1,
    decreases s.len(),
{
    if s.len() > 0 && x.start > s.last().start {
        lemma_insert_desc_len(s.drop_last(), x);
    }
}

fn sort_edit_indices(edits: &[MultiEdit]) -> (r: Vec<usize>)
    ensures
        r@.len() == edits@.len(),
        forall|j: int| 0 <= j < r@.len() ==> #[trigger] r@[j] < edits@.len(),
        picked(edit_views(edits@), r@) == sort_desc(edit_views(edits@)),
{
    let ghost es = edit_views(edits@);
    let mut sorted: Vec<usize> = Vec::new();
    let mut t: usize = 0;
    assert(picked(es, sorted@) =~= Seq::<EditView>::empty());
    assert(es.subrange(0, 0) =~= Seq::<EditView>::empty());
    while t < edits.len()
        invariant
            t <= edits@.len(),
            es == edit_views(edits@),
            forall|j: int| 0 <= j < sorted@.len() ==> #[trigger] sorted@[j] < edits@.len(),
            picked(es, sorted@) == sort_desc(es.subrange(0, t as int)),
        decreases edits@.len() - t,
    {
        let p = insert_desc_position(edits, &sorted, t);
        let ghost before = sorted@;
        sorted.insert(p, t);
        assert(sorted@ =~= before.subrange(0, p as int).push(t) + before.subrange(p as int, before.len() as int));
        assert(es.subrange(0, t + 1).drop_last() =~= es.subrange(0, t as int));
        assert(es.subrange(0, t + 1).last() == es[t as int]);
        t += 1;
    }
    assert(es.subrange(0, t as int) =~= es);
    proof { lemma_sort_desc_len(es); }
    assert(picked(es, sorted@).len() == sorted@.len());
    sorted
}

/// Applies several edits to a file's text at once (see `multi_edit_result`).
pub fn multi_edit_text(content: &str, edits: &[MultiEdit]) -> (r: Result<String, String>)
    ensures
        match (r, multi_edit_result(content@, edit_views(edits@))) {
            (Ok(t), Ok(u)) => t@ == u,
            (Err(e), Err(u)) => e@ == u,
            _ => false,
        },
{
    if edits.len() == 0 {
        return Err(owned("edits must not be empty"));
    }
    let ghost es = edit_views(edits@);
    let order = sort_edit_indices(edits);
    let ghost srt = picked(es, order@);
    let mut w: usize = 0;
    let m = order.len();
    while w + 1 < m
        invariant
            m == order@.len() == edits@.len() == srt.len(),
            m > 0,
            srt == picked(es, order@),
            srt == sort_desc(es),
            es == edit_views(edits@),
            forall|j: int| 0 <= j < order@.len() ==> #[trigger] order@[j] < edits@.len(),
            w < m,
            first_overlap(srt, w as int) == first_overlap(srt, 0),
        decreases m - w,
    {
        let a = &edits[order[w]];
        let b = &edits[order[w + 1]];
        assert(srt[w as int] == es[order@[w as int] as int]);
        assert(srt[w + 1] == es[order@[w + 1] as int]);
        assert(srt[w as int].start == a.start_line as nat);
        assert(srt[w + 1].end == b.end_line as nat);
        if a.start_line <= b.end_line {
            let mut m = owned("overlapping edits are not allowed: lines ");
            push_decimal(&mut m, b.start_line as u64);
            push_str(&mut m, "-");
            push_decimal(&mut m, b.end_line as u64);
            push_str(&mut m, " overlaps lines ");
            push_decimal(&mut m, a.start_line as u64);
            push_str(&mut m, "-");
            push_decimal(&mut m, a.end_line as u64);
            assert(srt[w + 1].start == b.start_line as nat);
            assert(srt[w as int].end == a.end_line as nat);
            assert(first_overlap(srt, w as int) == Some(m@));
            assert(sort_desc(edit_views(edits@)) == srt);
            return Err(m);
        }
        w += 1;
    }
    assert(first_overlap(srt, w as int) is None);
    let lines0 = split_lines(content);
    assert(texts(lines0@) =~= text_lines(content@));
    let mut lines = lines0;
    let mut i: usize = 0;
    while i < order.len()
        invariant
            srt == picked(es, order@),
            srt == sort_desc(es),
            es == edit_views(edits@),
            forall|j: int| 0 <= j < order@.len() ==> #[trigger] order@[j] < edits@.len(),
            i <= order@.len(),
            apply_edits(texts(lines@), srt, i as int) == apply_edits(text_lines(content@), srt, 0),
            first_overlap(srt, 0) is None,
            order@.len() == srt.len(),
        decreases order@.len() - i,
    {
        let e = &edits[order[i]];
        assert(srt[i as int] == es[order@[i as int] as int]);
        let old = match &e.old_content {
            Some(o) => Some(o.as_str()),
            None => None,
        };
        assert(match old { Some(o) => Some(o@), None => None::<Seq<char>> } == srt[i as int].old);
        assert(srt[i as int].start == e.start_line as nat && srt[i as int].end == e.end_line as nat);
        assert(srt[i as int].new == e.new_content@);
        match edit_lines(&lines, e.start_line, e.end_line, old, e.new_content.as_str()) {
            Ok(next) => {
                lines = next;
            },
            Err(m) => {
                assert(apply_edits(texts(lines@), srt, i as int) == Err::<Seq<Seq<char>>, Seq<char>>(m@));
                assert(sort_desc(edit_views(edits@)) == srt);
                return Err(m);
            },
        }
        i += 1;
    }
    Ok(finish_lines(content, &lines))
}

/// The deny entries of file tools as kept: separators made `/`, outer `/`
/// removed, empty entries dropped.
pub open spec fn deny_entries(entries: Seq<Seq<char>>) -> Seq<Seq<char>>
    decreases entries.len(),
{
    if entries.len() == 0 {
        Seq::empty()
    } else {
        let rest = deny_entries(entries.drop_last());
        let e = trim_matching(replace_char(entries.last(), '\\', '/'), '/');
        if e.len() > 0 { rest.push(e) } else { rest }
    }
}

/// Normalizes deny entries (see `deny_entries`).
pub fn normalize_denylist(entries: &Vec<String>) -> (r: Vec<String>)
    ensures
        texts(r@) == deny_entries(texts(entries@)),
{
    let mut r: Vec<String> = Vec::new();
    let mut i: usize = 0;
    let ghost es = texts(entries@);
    assert(es.subrange(0, 0) =~= Seq::<Seq<char>>::empty());
    while i < entries.len()
        invariant
            i <= entries@.len(),
            es == texts(entries@),
            texts(r@) == deny_entries(es.subrange(0, i as int)),
        decreases entries@.len() - i,
    {
        let v = chars_of(entries[i].as_str());
        let replaced = replaced_range(v.as_slice(), 0, v.len(), '\\', '/');
        assert(v@.subrange(0, v@.len() as int) =~= v@);
        let rv = chars_of(replaced.as_str());
        let t = crate::tools::exec_policy::trim_slashes(rv.as_slice());
        assert(es.subrange(0, i + 1).drop_last() =~= es.subrange(0, i as int));
        assert(es.subrange(0, i + 1).last() == entries@[i as int]@);
        if t.as_str().unicode_len() > 0 {
            let ghost before = texts(r@);
            let ghost tv = t@;
            r.push(t);
            assert(texts(r@) =~= before.push(tv));
        }
        i += 1;
    }
    assert(es.subrange(0, i as int) =~= es);
    r
}


/// The name `Path::strip_prefix` gives: what follows `base`'s components in
/// `p`, or nothing when `p` does not start with them.
pub uninterp spec fn path_stripped(p: Seq<char>, base: Seq<char>) -> Option<Seq<char>>;

/// `Path::strip_prefix` on paths given as text. Its result is named by
/// `path_stripped`.
#[verifier::external_body]
pub fn path_strip_prefix(p: &str, base: &str) -> (r: Option<String>)
    ensures
        ot(r) == path_stripped(p@, base@),
{
    std::path::Path::new(p).strip_prefix(base).ok().map(|q| q.to_string_lossy().to_string())
}

/// File tools bound to a workspace: paths outside it are refused unless
/// under an allowed prefix, and workspace-relative deny prefixes are
/// refused too.
#[derive(Debug, Clone)]
pub struct FileTools {
    workspace: String,
    allowlist: Vec<String>,
    denylist: Vec<String>,
}

/// Whether a workspace-relative path (separators made `/`, outer `/`
/// removed) is a deny entry or lies under one.
pub open spec fn under_deny(rel: Seq<char>, deny: Seq<Seq<char>>) -> bool {
    exists|i: int| 0 <= i < deny.len() && (rel == #[trigger] deny[i] || has_prefix(rel, deny[i] + "/"@))
}

impl FileTools {
    /// The workspace root.
    pub closed spec fn root(&self) -> Seq<char> {
        self.workspace@
    }

    /// The allowed outside prefixes.
    pub closed spec fn allowed(&self) -> Seq<Seq<char>> {
        texts(self.allowlist@)
    }

    /// The deny entries.
    pub closed spec fn denied(&self) -> Seq<Seq<char>> {
        texts(self.denylist@)
    }

    /// Tools over a workspace (given in its canonical form), with allowed
    /// outside prefixes (canonical too) and deny entries (normalized, see
    /// `deny_entries`).
    pub fn new_with_policy(workspace: String, allowlist: Vec<String>, denylist: Vec<String>) -> (t: FileTools)
        ensures
            t.root() == workspace@,
            t.allowed() == texts(allowlist@),
            t.denied() == deny_entries(texts(denylist@)),
    {
        let denylist = normalize_denylist(&denylist);
        FileTools { workspace, allowlist, denylist }
    }

    /// The workspace root.
    pub fn workspace_root(&self) -> (r: &str)
        ensures
            r@ == self.root(),
    {
        self.workspace.as_str()
    }

    /// Whether a (lexically normalized) path falls under a deny entry.
    pub fn denylisted(&self, path: &str) -> (b: bool)
        ensures
            b == (self.denied().len() > 0 && match path_stripped(path@, self.root()) {
                Some(rel) => under_deny(trim_matching(replace_char(rel, '\\', '/'), '/'), self.denied()),
                None => false,
            }),
    {
        if self.denylist.len() == 0 {
            return false;
        }
        let rel = match path_strip_prefix(path, self.workspace.as_str()) {
            Some(r) => r,
            None => return false,
        };
        let rv = chars_of(rel.as_str());
        let replaced = replaced_range(rv.as_slice(), 0, rv.len(), '\\', '/');
        assert(rv@.subrange(0, rv@.len() as int) =~= rv@);
        let r2 = chars_of(replaced.as_str());
        let t = crate::tools::exec_policy::trim_slashes(r2.as_slice());
        let tv = chars_of(t.as_str());
        let ghost deny = texts(self.denylist@);
        assert(tv@ == trim_matching(replace_char(rel@, '\\', '/'), '/'));
        let mut i: usize = 0;
        while i < self.denylist.len()
            invariant
                i <= self.denylist@.len(),
                deny == texts(self.denylist@),
                self.denylist@.len() > 0,
                path_stripped(path@, self.workspace@) == Some(rel@),
                tv@ == trim_matching(replace_char(rel@, '\\', '/'), '/'),
                forall|k: int| 0 <= k < i ==> !(tv@ == #[trigger] deny[k] || has_prefix(tv@, deny[k] + "/"@)),
            decreases self.denylist@.len() - i,
        {
            let ev = chars_of(self.denylist[i].as_str());
            assert(deny[i as int] == self.denylist@[i as int]@);
            let mut under = ev.clone();
            under.push('/');
            proof { reveal_strlit("/"); }
            assert(under@ =~= ev@ + "/"@);
            let same = tv.len() == ev.len() && starts_with(tv.as_slice(), ev.as_slice());
            proof {
                if tv@ == ev@ {
                    assert(tv@.subrange(0, ev@.len() as int) =~= tv@);
                }
                if tv@.len() == ev@.len() && has_prefix(tv@, ev@) {
                    assert(tv@ =~= tv@.subrange(0, ev@.len() as int));
                }
            }
            if same || starts_with(tv.as_slice(), under.as_slice()) {
                assert(tv@ == deny[i as int] || has_prefix(tv@, deny[i as int] + "/"@));
                assert(under_deny(tv@, deny));
                return true;
            }
            i += 1;
        }
        false
    }

    /// Whether a (canonical) path lies inside the workspace.
    pub fn contains_path(&self, candidate: &str) -> (b: bool)
        ensures
            b == path_prefix(candidate@, self.root()),
    {
        path_starts_with(candidate, self.workspace.as_str())
    }

    /// Whether a (canonical) path lies under an allowed outside prefix.
    pub fn allowed_outside(&self, candidate: &str) -> (b: bool)
        ensures
            b == exists|i: int| 0 <= i < self.allowed().len() && path_prefix(candidate@, #[trigger] self.allowed()[i]),
    {
        let ghost al = texts(self.allowlist@);
        let mut i: usize = 0;
        while i < self.allowlist.len()
            invariant
                i <= self.allowlist@.len(),
                al == texts(self.allowlist@),
                forall|k: int| 0 <= k < i ==> !path_prefix(candidate@, #[trigger] al[k]),
            decreases self.allowlist@.len() - i,
        {
            assert(al[i as int] == self.allowlist@[i as int]@);
            if path_starts_with(candidate, self.allowlist[i].as_str()) {
                assert(path_prefix(candidate@, self.allowed()[i as int]));
                return true;
            }
            i += 1;
        }
        false
    }
}

/// The listing of a tree: its entries sorted, then a truncation note when
/// the listing reached `max_entries`, one per line.
pub open spec fn tree_text(entries: Seq<Seq<char>>, max_entries: nat) -> Seq<char> {
    let sorted = crate::tools::transaction::sorted_texts(entries);
    let all = if sorted.len() >= max_entries {
        sorted.push("...[truncated at "@ + dec(max_entries) + " entries]"@)
    } else {
        sorted
    };
    join(all, "\n"@)
}

/// The listing of a tree (see `tree_text`).
pub fn render_tree(entries: Vec<String>, max_entries: usize) -> (r: String)
    ensures
        r@ == tree_text(texts(entries@), max_entries as nat),
{
    let mut sorted = crate::tools::transaction::sort_strings(entries);
    if sorted.len() >= max_entries {
        let mut note = owned("...[truncated at ");
        push_decimal(&mut note, max_entries as u64);
        push_str(&mut note, " entries]");
        let ghost before = texts(sorted@);
        let ghost nv = note@;
        sorted.push(note);
        assert(texts(sorted@) =~= before.push(nv));
    }
    let mut r = String::new();
    push_joined(&mut r, &sorted, "\n");
    assert(r@ =~= join(texts(sorted@), "\n"@));
    r
}

} // verus!
