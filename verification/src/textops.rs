//! Searching, splitting, trimming and number parsing over character
//! sequences, with the meaning of the corresponding `str` methods.
use vstd::prelude::*;
use crate::text::{chars_of, is_ws, is_whitespace, push_char, push_chars, string_of, has_prefix, starts_with};

verus! {

/// The text without leading whitespace (`str::trim_start`).
pub open spec fn trim_start_ws(s: Seq<char>) -> Seq<char>
    decreases s.len(),
{
    if s.len() > 0 && is_ws(s[0]) { trim_start_ws(s.drop_first()) } else { s }
}

/// The text without trailing whitespace (`str::trim_end`).
pub open spec fn trim_end_ws(s: Seq<char>) -> Seq<char>
    decreases s.len(),
{
    if s.len() > 0 && is_ws(s.last()) { trim_end_ws(s.drop_last()) } else { s }
}

/// The text without leading and trailing whitespace (`str::trim`).
pub open spec fn trim_ws(s: Seq<char>) -> Seq<char> {
    trim_end_ws(trim_start_ws(s))
}

proof fn lemma_trim_start_skip(s: Seq<char>, k: int)
    requires
        0 <= k <= s.len(),
        forall|j: int| 0 <= j < k ==> is_ws(#[trigger] s[j]),
    ensures
        trim_start_ws(s) == trim_start_ws(s.subrange(k, s.len() as int)),
    decreases k,
{
    if k == 0 {
        assert(s.subrange(0, s.len() as int) =~= s);
    } else {
        assert(is_ws(s[0]));
        lemma_trim_start_skip(s.drop_first(), k - 1);
        assert(s.drop_first().subrange(k - 1, s.len() - 1) =~= s.subrange(k, s.len() as int));
    }
}

proof fn lemma_trim_end_skip(s: Seq<char>, k: int)
    requires
        0 <= k <= s.len(),
        forall|j: int| k <= j < s.len() ==> is_ws(#[trigger] s[j]),
    ensures
        trim_end_ws(s) == trim_end_ws(s.subrange(0, k)),
    decreases s.len() - k,
{
    if k == s.len() {
        assert(s.subrange(0, k) =~= s);
    } else {
        assert(is_ws(s.last()));
        lemma_trim_end_skip(s.drop_last(), k);
        assert(s.drop_last().subrange(0, k) =~= s.subrange(0, k));
    }
}

/// The bounds of `v[lo..hi]` once trimmed (see `trim_ws`).
pub fn trim_bounds(v: &[char], lo: usize, hi: usize) -> (r: (usize, usize))
    requires
        lo <= hi <= v@.len(),
    ensures
        lo <= r.0 <= r.1 <= hi,
        v@.subrange(r.0 as int, r.1 as int) == trim_ws(v@.subrange(lo as int, hi as int)),
{
    let ghost s = v@.subrange(lo as int, hi as int);
    let mut a = lo;
    while a < hi && is_whitespace(v[a])
        invariant
            lo <= a <= hi <= v@.len(),
            forall|j: int| lo <= j < a ==> is_ws(#[trigger] v@[j]),
        decreases hi - a,
    {
        a += 1;
    }
    proof {
        assert forall|j: int| 0 <= j < a - lo implies is_ws(#[trigger] s[j]) by {
            assert(s[j] == v@[lo + j]);
        }
        lemma_trim_start_skip(s, a - lo);
        assert(s.subrange(a - lo, s.len() as int) =~= v@.subrange(a as int, hi as int));
        if a < hi {
            assert(!is_ws(v@.subrange(a as int, hi as int)[0]));
        }
    }
    let mut b = hi;
    while b > a && is_whitespace(v[b - 1])
        invariant
            lo <= a <= b <= hi <= v@.len(),
            forall|j: int| b <= j < hi ==> is_ws(#[trigger] v@[j]),
        decreases b,
    {
        b -= 1;
    }
    proof {
        let t = v@.subrange(a as int, hi as int);
        assert forall|j: int| b - a <= j < t.len() implies is_ws(#[trigger] t[j]) by {
            assert(t[j] == v@[a + j]);
        }
        lemma_trim_end_skip(t, b - a);
        assert(t.subrange(0, b - a) =~= v@.subrange(a as int, b as int));
        if a < b {
            assert(!is_ws(v@.subrange(a as int, b as int).last()));
        }
        if a == hi {
            assert(v@.subrange(a as int, hi as int) =~= Seq::<char>::empty());
        }
    }
    (a, b)
}

/// `str::trim`.
pub fn trim_str(s: &str) -> (r: String)
    ensures
        r@ == trim_ws(s@),
{
    let v = chars_of(s);
    let (a, b) = trim_bounds(v.as_slice(), 0, v.len());
    assert(v@.subrange(0, v@.len() as int) =~= v@);
    string_of(v.as_slice(), a, b)
}

/// The first position at or after `i` where `p` occurs in `s`.
pub open spec fn find_seq(s: Seq<char>, p: Seq<char>, i: int) -> Option<int>
    decreases s.len() + 1 - i,
{
    if i < 0 || i + p.len() > s.len() {
        None
    } else if s.subrange(i, i + p.len()) == p {
        Some(i)
    } else {
        find_seq(s, p, i + 1)
    }
}

/// Bounds of a found position.
pub proof fn lemma_find_seq(s: Seq<char>, p: Seq<char>, i: int)
    requires
        0 <= i,
    ensures
        find_seq(s, p, i) matches Some(k) ==> i <= k && k + p.len() <= s.len()
            && s.subrange(k, k + p.len()) == p,
    decreases s.len() + 1 - i,
{
    if i + p.len() <= s.len() && s.subrange(i, i + p.len()) != p {
        lemma_find_seq(s, p, i + 1);
    }
}

/// The first occurrence of `p` in `v` at or after `from` (`str::find`).
pub fn find_from(v: &[char], p: &[char], from: usize) -> (r: Option<usize>)
    requires
        from <= v@.len(),
    ensures
        r == match find_seq(v@, p@, from as int) {
            Some(k) => Some(k as usize),
            None => None::<usize>,
        },
{
    let n = v.len();
    if p.len() > n {
        return None;
    }
    if p.len() == 0 {
        assert(v@.subrange(from as int, from as int) =~= p@);
        return Some(from);
    }
    let last = n - p.len();
    let mut i = from;
    while i <= last
        invariant
            n == v@.len(),
            p@.len() > 0,
            from <= i,
            last == v@.len() - p@.len(),
            p@.len() <= v@.len(),
            find_seq(v@, p@, i as int) == find_seq(v@, p@, from as int),
        decreases last + 1 - i,
    {
        let mut k: usize = 0;
        let mut same = true;
        while k < p.len()
            invariant
                n == v@.len(),
                i <= last,
                last == v@.len() - p@.len(),
                k <= p@.len(),
                same ==> forall|j: int| 0 <= j < k ==> v@[i + j] == p@[j],
                !same ==> v@.subrange(i as int, i + p@.len()) != p@,
            decreases p@.len() - k,
        {
            if v[i + k] != p[k] {
                assert(v@.subrange(i as int, i + p@.len())[k as int] != p@[k as int]);
                same = false;
            }
            k += 1;
        }
        if same {
            assert(v@.subrange(i as int, i + p@.len()) =~= p@);
            return Some(i);
        }
        i += 1;
    }
    None
}

/// The first occurrence of `p` in `s` (`str::find` with a string pattern).
pub fn find_str(s: &str, p: &str) -> (r: Option<usize>)
    ensures
        r == match find_seq(s@, p@, 0) {
            Some(k) => Some(k as usize),
            None => None::<usize>,
        },
{
    let v = chars_of(s);
    let pv = chars_of(p);
    find_from(v.as_slice(), pv.as_slice(), 0)
}

/// The first index at or after `i` holding `c`, or the length.
pub open spec fn index_of(s: Seq<char>, c: char, i: int) -> int
    decreases s.len() - i,
{
    if i < 0 || i >= s.len() { s.len() as int } else if s[i] == c { i } else { index_of(s, c, i + 1) }
}

/// Bounds of `index_of`, and no `c` before it.
pub proof fn lemma_index_of(s: Seq<char>, c: char, i: int)
    requires
        0 <= i <= s.len(),
    ensures
        i <= index_of(s, c, i) <= s.len(),
        index_of(s, c, i) < s.len() ==> s[index_of(s, c, i)] == c,
        forall|k: int| i <= k < index_of(s, c, i) ==> s[k] != c,
    decreases s.len() - i,
{
    if i < s.len() && s[i] != c {
        lemma_index_of(s, c, i + 1);
    }
}

/// `j` is the first `c` at or after `i`.
pub proof fn lemma_index_of_at(s: Seq<char>, c: char, i: int, j: int)
    requires
        0 <= i <= j <= s.len(),
        forall|k: int| i <= k < j ==> s[k] != c,
        j == s.len() || s[j] == c,
    ensures
        index_of(s, c, i) == j,
    decreases j - i,
{
    if i < j {
        lemma_index_of_at(s, c, i + 1, j);
    }
}

/// The first `c` in `v` at or after `from`, or the length.
pub fn index_of_char(v: &[char], c: char, from: usize) -> (r: usize)
    requires
        from <= v@.len(),
    ensures
        r == index_of(v@, c, from as int),
{
    let mut i = from;
    while i < v.len() && v[i] != c
        invariant
            from <= i <= v@.len(),
            index_of(v@, c, i as int) == index_of(v@, c, from as int),
        decreases v@.len() - i,
    {
        i += 1;
    }
    i
}

/// The pieces of a text between occurrences of `c` (`str::split(c)`).
pub open spec fn pieces(s: Seq<char>, c: char) -> Seq<Seq<char>>
    decreases s.len(),
{
    let i = index_of(s, c, 0);
    if 0 <= i < s.len() {
        seq![s.subrange(0, i)] + pieces(s.subrange(i + 1, s.len() as int), c)
    } else {
        seq![s]
    }
}

/// Splits `v[from..]` at every `c` (see `pieces`), as bounds into `v`.
pub fn split_bounds(v: &[char], c: char, from: usize) -> (r: Vec<(usize, usize)>)
    requires
        from <= v@.len(),
    ensures
        r@.len() == pieces(v@.subrange(from as int, v@.len() as int), c).len(),
        forall|k: int| 0 <= k < r@.len() ==> {
            &&& (#[trigger] r@[k]).0 <= r@[k].1 <= v@.len()
            &&& v@.subrange(r@[k].0 as int, r@[k].1 as int) == pieces(v@.subrange(from as int, v@.len() as int), c)[k]
        },
{
    let n = v.len();
    let mut out: Vec<(usize, usize)> = Vec::new();
    let mut start = from;
    let ghost whole = v@.subrange(from as int, n as int);
    assert(whole =~= v@.subrange(start as int, n as int));
    loop
        invariant_except_break
            out@.map_values(|b: (usize, usize)| v@.subrange(b.0 as int, b.1 as int))
                + pieces(v@.subrange(start as int, n as int), c) == pieces(whole, c),
        invariant
            from <= start <= n,
            n == v@.len(),
            whole == v@.subrange(from as int, n as int),
            forall|k: int| 0 <= k < out@.len() ==> (#[trigger] out@[k]).0 <= out@[k].1 <= n,
        ensures
            forall|k: int| 0 <= k < out@.len() ==> (#[trigger] out@[k]).0 <= out@[k].1 <= n,
            out@.map_values(|b: (usize, usize)| v@.subrange(b.0 as int, b.1 as int)) == pieces(whole, c),
        decreases n - start,
    {
        let ghost rest = v@.subrange(start as int, n as int);
        let i = index_of_char(v, c, start);
        let ghost before = out@.map_values(|b: (usize, usize)| v@.subrange(b.0 as int, b.1 as int));
        proof {
            lemma_index_of(v@, c, start as int);
            assert forall|k: int| 0 <= k < i - start implies rest[k] != c by {
                assert(rest[k] == v@[start + k]);
            }
            if i < n {
                assert(rest[i - start] == v@[i as int]);
            }
            lemma_index_of_at(rest, c, 0, i - start);
        }
        out.push((start, i));
        assert(out@.map_values(|b: (usize, usize)| v@.subrange(b.0 as int, b.1 as int))
            =~= before.push(v@.subrange(start as int, i as int)));
        if i == n {
            proof {
                assert(rest.subrange(0, rest.len() as int) =~= rest);
                assert(pieces(rest, c) == seq![rest]);
                assert(before.push(rest) =~= before + seq![rest]);
            }
            break;
        }
        proof {
            assert(rest.subrange(0, i - start) =~= v@.subrange(start as int, i as int));
            assert(rest.subrange(i - start + 1, rest.len() as int) =~= v@.subrange(i + 1, n as int));
            let later = pieces(v@.subrange(i + 1, n as int), c);
            assert(pieces(rest, c) == seq![v@.subrange(start as int, i as int)] + later);
            assert(before.push(v@.subrange(start as int, i as int)) + later
                =~= before + (seq![v@.subrange(start as int, i as int)] + later));
        }
        start = i + 1;
    }
    proof {
        assert forall|k: int| 0 <= k < out@.len() implies
            v@.subrange((#[trigger] out@[k]).0 as int, out@[k].1 as int) == pieces(whole, c)[k] by {
            assert(out@.map_values(|b: (usize, usize)| v@.subrange(b.0 as int, b.1 as int))[k]
                == v@.subrange(out@[k].0 as int, out@[k].1 as int));
        }
    }
    out
}

/// A text with every `a` replaced by `b` (`str::replace` of one character).
pub open spec fn replace_char(s: Seq<char>, a: char, b: char) -> Seq<char> {
    s.map_values(|x: char| if x == a { b } else { x })
}

/// `v[from..to]` with every `a` replaced by `b`.
pub fn replaced_range(v: &[char], from: usize, to: usize, a: char, b: char) -> (r: String)
    requires
        from <= to <= v@.len(),
    ensures
        r@ == replace_char(v@.subrange(from as int, to as int), a, b),
{
    let mut out = String::new();
    let mut i = from;
    while i < to
        invariant
            from <= i <= to <= v@.len(),
            out@ == replace_char(v@.subrange(from as int, i as int), a, b),
        decreases to - i,
    {
        let c = v[i];
        push_char(&mut out, if c == a { b } else { c });
        assert(out@ =~= replace_char(v@.subrange(from as int, i + 1), a, b));
        i += 1;
    }
    out
}

/// The value of a run of decimal digits.
pub open spec fn digits_value(s: Seq<char>) -> int
    decreases s.len(),
{
    if s.len() == 0 { 0 } else { digits_value(s.drop_last()) * 10 + ((s.last() as int) - ('0' as int)) }
}

/// Whether every character is an ASCII digit.
pub open spec fn all_digits(s: Seq<char>) -> bool {
    forall|i: int| 0 <= i < s.len() ==> '0' <= #[trigger] s[i] <= '9'
}

/// `usize::from_str`: an optional `+` and at least one digit, whose value
/// fits in a `usize`.
pub open spec fn parse_usize(s: Seq<char>) -> Option<usize> {
    let d = if s.len() > 0 && s[0] == '+' { s.drop_first() } else { s };
    if d.len() > 0 && all_digits(d) && digits_value(d) <= usize::MAX {
        Some(digits_value(d) as usize)
    } else {
        None
    }
}

proof fn lemma_digits_step(s: Seq<char>, k: int)
    requires
        0 <= k < s.len(),
    ensures
        digits_value(s.subrange(0, k + 1)) == digits_value(s.subrange(0, k)) * 10 + ((s[k] as int) - ('0' as int)),
{
    assert(s.subrange(0, k + 1).drop_last() =~= s.subrange(0, k));
}

proof fn lemma_digits_monotone(s: Seq<char>, k: int)
    requires
        0 <= k <= s.len(),
        all_digits(s),
    ensures
        digits_value(s.subrange(0, k)) <= digits_value(s),
    decreases s.len() - k,
{
    if k < s.len() {
        lemma_digits_step(s, k);
        lemma_digits_monotone(s, k + 1);
        lemma_digits_nonneg(s.subrange(0, k));
    } else {
        assert(s.subrange(0, k) =~= s);
    }
}

proof fn lemma_digits_nonneg(s: Seq<char>)
    requires
        all_digits(s),
    ensures
        digits_value(s) >= 0,
    decreases s.len(),
{
    if s.len() > 0 {
        assert(all_digits(s.drop_last()));
        lemma_digits_nonneg(s.drop_last());
        assert('0' <= s[s.len() - 1] <= '9');
    }
}

/// Parses `v[from..to]` as a `usize` (see `parse_usize`).
pub fn parse_usize_range(v: &[char], from: usize, to: usize) -> (r: Option<usize>)
    requires
        from <= to <= v@.len(),
    ensures
        r == parse_usize(v@.subrange(from as int, to as int)),
{
    let ghost s = v@.subrange(from as int, to as int);
    let mut start = from;
    if from < to && v[from] == '+' {
        start = from + 1;
    }
    let ghost d = v@.subrange(start as int, to as int);
    assert(d == (if s.len() > 0 && s[0] == '+' { s.drop_first() } else { s }));
    if start == to {
        return None;
    }
    let mut value: usize = 0;
    let mut i = start;
    while i < to
        invariant
            start <= i <= to <= v@.len(),
            start < to,
            s == v@.subrange(from as int, to as int),
            d == (if s.len() > 0 && s[0] == '+' { s.drop_first() } else { s }),
            d == v@.subrange(start as int, to as int),
            forall|j: int| start <= j < i ==> '0' <= #[trigger] v@[j] <= '9',
            value == digits_value(d.subrange(0, i - start)),
        decreases to - i,
    {
        let c = v[i];
        if !('0' <= c && c <= '9') {
            assert(!('0' <= d[i - start] <= '9'));
            return None;
        }
        let digit = (c as u32 - '0' as u32) as usize;
        proof { lemma_digits_step(d, i - start); }
        if value > (usize::MAX - digit) / 10 {
            proof {
                if all_digits(d) {
                    lemma_digits_monotone(d, i - start + 1);
                }
                assert(value * 10 + digit > usize::MAX) by (nonlinear_arith)
                    requires value > (usize::MAX - digit) / 10, digit <= 9;
            }
            return None;
        }
        assert(value * 10 + digit <= usize::MAX) by (nonlinear_arith)
            requires value <= (usize::MAX - digit) / 10, digit <= 9;
        value = value * 10 + digit;
        i += 1;
    }
    assert(d.subrange(0, d.len() as int) =~= d);
    assert(all_digits(d)) by {
        assert forall|j: int| 0 <= j < d.len() implies '0' <= #[trigger] d[j] <= '9' by {
            assert(d[j] == v@[start + j]);
        }
    }
    Some(value)
}

/// Whether `s` starts with the text `p`.
pub fn starts_with_str(s: &[char], p: &str) -> (b: bool)
    ensures
        b == has_prefix(s@, p@),
{
    let pv = chars_of(p);
    starts_with(s, pv.as_slice())
}

/// Whether `v[from..to]` equals the text `p`.
pub fn range_eq_str(v: &[char], from: usize, to: usize, p: &str) -> (b: bool)
    requires
        from <= to <= v@.len(),
    ensures
        b == (v@.subrange(from as int, to as int) == p@),
{
    let pv = chars_of(p);
    if to - from != pv.len() {
        return false;
    }
    let mut i: usize = 0;
    while i < pv.len()
        invariant
            to - from == pv@.len(),
            from <= to <= v@.len(),
            pv@ == p@,
            i <= pv@.len(),
            forall|j: int| 0 <= j < i ==> v@[from + j] == pv@[j],
        decreases pv@.len() - i,
    {
        if v[from + i] != pv[i] {
            assert(v@.subrange(from as int, to as int)[i as int] != pv@[i as int]);
            return false;
        }
        i += 1;
    }
    assert(v@.subrange(from as int, to as int) =~= pv@);
    true
}

/// Whether a text ends with `p`.
pub open spec fn has_suffix(s: Seq<char>, p: Seq<char>) -> bool {
    p.len() <= s.len() && s.subrange(s.len() - p.len(), s.len() as int) == p
}

/// Whether `s` ends with `p` (`str::ends_with`).
pub fn ends_with(s: &[char], p: &[char]) -> (b: bool)
    ensures
        b == has_suffix(s@, p@),
{
    let n = s.len();
    if p.len() > n {
        return false;
    }
    let off = n - p.len();
    let mut i: usize = 0;
    while i < p.len()
        invariant
            n == s@.len(),
            off == s@.len() - p@.len(),
            p@.len() <= s@.len(),
            i <= p@.len(),
            forall|k: int| 0 <= k < i ==> s@[off + k] == p@[k],
        decreases p@.len() - i,
    {
        if s[off + i] != p[i] {
            assert(s@.subrange(off as int, s@.len() as int)[i as int] != p@[i as int]);
            return false;
        }
        i += 1;
    }
    assert(s@.subrange(off as int, s@.len() as int) =~= p@);
    true
}

/// Whether a scalar is alphanumeric in the Unicode sense.
pub uninterp spec fn unicode_alphanumeric(c: char) -> bool;

/// `char::is_alphanumeric`: whether `c` has the `Alphabetic` property or a
/// numeric general category; among ASCII scalars exactly letters and digits.
#[verifier::external_body]
pub fn is_alphanumeric(c: char) -> (b: bool)
    ensures
        b == unicode_alphanumeric(c),
        (c as u32) < 128 ==> (b <==> ('a' <= c <= 'z' || 'A' <= c <= 'Z' || '0' <= c <= '9')),
{
    c.is_alphanumeric()
}

/// Whether a scalar has the Unicode `Alphabetic` property.
pub uninterp spec fn unicode_alphabetic(c: char) -> bool;

/// `char::is_alphabetic`: whether `c` has the `Alphabetic` property; among
/// ASCII scalars exactly the letters.
#[verifier::external_body]
pub fn is_alphabetic(c: char) -> (b: bool)
    ensures
        b == unicode_alphabetic(c),
        (c as u32) < 128 ==> (b <==> ('a' <= c <= 'z' || 'A' <= c <= 'Z')),
{
    c.is_alphabetic()
}

/// The text `str::to_lowercase` gives.
pub uninterp spec fn unicode_lowercase(s: Seq<char>) -> Seq<char>;

/// Whether every scalar of a text is ASCII.
pub open spec fn all_ascii(s: Seq<char>) -> bool {
    forall|i: int| 0 <= i < s.len() ==> (#[trigger] s[i] as u32) < 128
}

/// The ASCII lowercase form of a scalar: `A`..`Z` become `a`..`z`.
pub open spec fn ascii_lower(c: char) -> char {
    if 'A' <= c <= 'Z' { ((c as u32) + 32) as char } else { c }
}

/// The ASCII uppercase form of a scalar: `a`..`z` become `A`..`Z`.
pub open spec fn ascii_upper(c: char) -> char {
    if 'a' <= c <= 'z' { ((c as u32) - 32) as char } else { c }
}

/// `str::to_lowercase`: the text with every scalar mapped to its Unicode
/// lowercase form; on ASCII text, the ASCII lowercase of each scalar.
#[verifier::external_body]
pub fn to_lowercase(s: &str) -> (r: String)
    ensures
        r@ == unicode_lowercase(s@),
        all_ascii(s@) ==> r@ == s@.map_values(|c: char| ascii_lower(c)),
{
    s.to_lowercase()
}

/// Whether `p` occurs in `s`.
pub open spec fn contains_seq(s: Seq<char>, p: Seq<char>) -> bool {
    find_seq(s, p, 0) is Some
}

/// Whether the text `p` occurs in `s` (`str::contains`).
pub fn contains_str(s: &[char], p: &str) -> (b: bool)
    ensures
        b == contains_seq(s@, p@),
{
    let pv = chars_of(p);
    find_from(s, pv.as_slice(), 0).is_some()
}

/// The text after removing every leading copy of `p` (`trim_start_matches`).
pub open spec fn strip_prefixes(s: Seq<char>, p: Seq<char>) -> Seq<char>
    decreases s.len(),
{
    if p.len() > 0 && has_prefix(s, p) { strip_prefixes(s.subrange(p.len() as int, s.len() as int), p) } else { s }
}

/// The text after removing every trailing `c` (`trim_end_matches`).
pub open spec fn trim_end_char(s: Seq<char>, c: char) -> Seq<char>
    decreases s.len(),
{
    if s.len() > 0 && s.last() == c { trim_end_char(s.drop_last(), c) } else { s }
}

/// The end of `v[from..to]` once trailing `c` are removed.
pub fn trim_end_char_bound(v: &[char], from: usize, to: usize, c: char) -> (e: usize)
    requires
        from <= to <= v@.len(),
    ensures
        from <= e <= to,
        v@.subrange(from as int, e as int) == trim_end_char(v@.subrange(from as int, to as int), c),
{
    let mut e = to;
    while e > from && v[e - 1] == c
        invariant
            from <= e <= to <= v@.len(),
            trim_end_char(v@.subrange(from as int, e as int), c) == trim_end_char(v@.subrange(from as int, to as int), c),
        decreases e,
    {
        assert(v@.subrange(from as int, e as int).drop_last() =~= v@.subrange(from as int, e - 1));
        e -= 1;
    }
    e
}

/// The number of `c` in a text.
pub open spec fn count_char(s: Seq<char>, c: char) -> nat
    decreases s.len(),
{
    if s.len() == 0 { 0 } else { count_char(s.drop_last(), c) + if s.last() == c { 1nat } else { 0nat } }
}

/// Counts the `c` in `v`.
pub fn count_char_exec(v: &[char], c: char) -> (n: usize)
    ensures
        n == count_char(v@, c),
{
    let mut n: usize = 0;
    let mut i: usize = 0;
    while i < v.len()
        invariant
            i <= v@.len(),
            n == count_char(v@.subrange(0, i as int), c),
            n <= i,
        decreases v@.len() - i,
    {
        assert(v@.subrange(0, i + 1).drop_last() =~= v@.subrange(0, i as int));
        if v[i] == c {
            n += 1;
        }
        i += 1;
    }
    assert(v@.subrange(0, i as int) =~= v@);
    n
}

/// Whether `c` occurs in a text.
pub open spec fn has_char(s: Seq<char>, c: char) -> bool {
    index_of(s, c, 0) < s.len()
}

/// Whether `c` occurs in `v`.
pub fn has_char_exec(v: &[char], c: char) -> (b: bool)
    ensures
        b == has_char(v@, c),
{
    index_of_char(v, c, 0) < v.len()
}

/// The text before the first `c` (all of it when there is none).
pub open spec fn before_char(s: Seq<char>, c: char) -> Seq<char> {
    s.subrange(0, index_of(s, c, 0))
}

/// A copy of `v[a..b]`.
pub fn sub_vec(v: &[char], a: usize, b: usize) -> (r: Vec<char>)
    requires
        a <= b <= v@.len(),
    ensures
        r@ == v@.subrange(a as int, b as int),
{
    let mut r: Vec<char> = Vec::new();
    let mut i = a;
    while i < b
        invariant
            a <= i <= b <= v@.len(),
            r@ == v@.subrange(a as int, i as int),
        decreases b - i,
    {
        r.push(v[i]);
        assert(r@ =~= v@.subrange(a as int, i + 1));
        i += 1;
    }
    r
}

/// Lexicographic order of texts by scalar value.
pub open spec fn text_lt(a: Seq<char>, b: Seq<char>) -> bool
    decreases a.len(),
{
    if a.len() == 0 {
        b.len() > 0
    } else if b.len() == 0 {
        false
    } else if a[0] != b[0] {
        (a[0] as int) < (b[0] as int)
    } else {
        text_lt(a.drop_first(), b.drop_first())
    }
}

/// No text sorts before itself.
pub proof fn lemma_text_lt_irreflexive(a: Seq<char>)
    ensures
        !text_lt(a, a),
    decreases a.len(),
{
    if a.len() > 0 {
        lemma_text_lt_irreflexive(a.drop_first());
    }
}

/// The order is transitive.
pub proof fn lemma_text_lt_transitive(a: Seq<char>, b: Seq<char>, c: Seq<char>)
    requires
        text_lt(a, b),
        text_lt(b, c),
    ensures
        text_lt(a, c),
    decreases a.len(),
{
    if a.len() > 0 && b.len() > 0 && c.len() > 0 && a[0] == b[0] && b[0] == c[0] {
        lemma_text_lt_transitive(a.drop_first(), b.drop_first(), c.drop_first());
    }
}

/// Two different texts are ordered one way or the other.
pub proof fn lemma_text_lt_total(a: Seq<char>, b: Seq<char>)
    ensures
        a == b || text_lt(a, b) || text_lt(b, a),
    decreases a.len(),
{
    if a.len() == 0 && b.len() == 0 {
        assert(a =~= b);
    } else if a.len() > 0 && b.len() > 0 && a[0] == b[0] {
        lemma_text_lt_total(a.drop_first(), b.drop_first());
        if a.drop_first() == b.drop_first() {
            assert(a =~= seq![a[0]] + a.drop_first());
            assert(b =~= seq![b[0]] + b.drop_first());
        }
    } else if a.len() > 0 && b.len() > 0 {
        assert((a[0] as int) != (b[0] as int));
    }
}

proof fn lemma_text_lt_skip(a: Seq<char>, b: Seq<char>, i: int)
    requires
        0 <= i <= a.len(),
        i <= b.len(),
        forall|k: int| 0 <= k < i ==> a[k] == b[k],
    ensures
        text_lt(a, b) == text_lt(a.subrange(i, a.len() as int), b.subrange(i, b.len() as int)),
    decreases i,
{
    if i > 0 {
        lemma_text_lt_skip(a.drop_first(), b.drop_first(), i - 1);
        assert(a.drop_first().subrange(i - 1, a.len() - 1) =~= a.subrange(i, a.len() as int));
        assert(b.drop_first().subrange(i - 1, b.len() - 1) =~= b.subrange(i, b.len() as int));
    } else {
        assert(a.subrange(0, a.len() as int) =~= a);
        assert(b.subrange(0, b.len() as int) =~= b);
    }
}

/// Whether `a` sorts before `b` (see `text_lt`).
pub fn text_less(a: &[char], b: &[char]) -> (r: bool)
    ensures
        r == text_lt(a@, b@),
{
    let mut i: usize = 0;
    while i < a.len() && i < b.len() && a[i] == b[i]
        invariant
            i <= a@.len(),
            i <= b@.len(),
            forall|k: int| 0 <= k < i ==> a@[k] == b@[k],
        decreases a@.len() - i,
    {
        i += 1;
    }
    proof {
        lemma_text_lt_skip(a@, b@, i as int);
        let sa = a@.subrange(i as int, a@.len() as int);
        let sb = b@.subrange(i as int, b@.len() as int);
        if i < a@.len() && i < b@.len() {
            assert(sa[0] == a@[i as int] && sb[0] == b@[i as int]);
        }
    }
    if i == a.len() {
        i < b.len()
    } else if i == b.len() {
        false
    } else {
        a[i] < b[i]
    }
}


} // verus!
