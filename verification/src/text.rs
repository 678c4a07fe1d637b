//! Character-level helpers shared by the rendering, parsing and policy code.
//!
//! Strings are modelled by their `Seq<char>` view; these helpers move between
//! `String`/`&str` and `Vec<char>` and format integers in decimal.
use vstd::prelude::*;
use vstd::string::StringExecFns;

verus! {

/// Appends one character to a string (`String::push`).
#[verifier::external_body]
pub fn push_char(s: &mut String, c: char)
    ensures
        final(s)@ == old(s)@.push(c),
{
    s.push(c);
}

/// Appends a string slice to a string.
pub fn push_str(s: &mut String, t: &str)
    ensures
        final(s)@ == old(s)@ + t@,
{
    s.append(t);
}

/// An owned copy of a string slice.
pub fn owned(s: &str) -> (r: String)
    ensures
        r@ == s@,
{
    s.to_owned()
}

/// The characters of a string slice, in order.
pub fn chars_of(s: &str) -> (v: Vec<char>)
    ensures
        v@ == s@,
{
    let mut v: Vec<char> = Vec::new();
    for c in it: s.chars()
        invariant
            v@ == it.seq().take(it.index() as int),
    {
        v.push(c);
    }
    v
}

/// Appends the characters `v[from..to]` to `out`.
pub fn push_chars(out: &mut String, v: &[char], from: usize, to: usize)
    requires
        from <= to <= v@.len(),
    ensures
        final(out)@ == old(out)@ + v@.subrange(from as int, to as int),
{
    let mut i: usize = from;
    while i < to
        invariant
            from <= i <= to <= v@.len(),
            out@ == old(out)@ + v@.subrange(from as int, i as int),
        decreases to - i,
    {
        push_char(out, v[i]);
        assert(v@.subrange(from as int, i + 1) == v@.subrange(from as int, i as int).push(v@[i as int]));
        i += 1;
    }
}

/// A string holding the characters `v[from..to]`.
pub fn string_of(v: &[char], from: usize, to: usize) -> (s: String)
    requires
        from <= to <= v@.len(),
    ensures
        s@ == v@.subrange(from as int, to as int),
{
    let mut s = String::new();
    push_chars(&mut s, v, from, to);
    s
}

/// The decimal digit character for `d < 10`.
pub open spec fn digit_char(d: nat) -> char {
    if d == 0 { '0' }
    else if d == 1 { '1' }
    else if d == 2 { '2' }
    else if d == 3 { '3' }
    else if d == 4 { '4' }
    else if d == 5 { '5' }
    else if d == 6 { '6' }
    else if d == 7 { '7' }
    else if d == 8 { '8' }
    else { '9' }
}

/// The shortest decimal representation of `n`.
pub open spec fn dec(n: nat) -> Seq<char>
    decreases n,
{
    if n < 10 {
        seq![digit_char(n)]
    } else {
        dec(n / 10).push(digit_char(n % 10))
    }
}

/// The decimal representation of `n`, left-padded with zeros to `width` characters.
pub open spec fn dec_padded(n: nat, width: nat) -> Seq<char> {
    let d = dec(n);
    if d.len() >= width {
        d
    } else {
        Seq::new((width - d.len()) as nat, |i: int| '0') + d
    }
}

/// Signed decimal as Rust's `{:0w}` prints it: the sign counts toward the width.
pub open spec fn signed_padded(n: int, width: nat) -> Seq<char> {
    if n >= 0 {
        dec_padded(n as nat, width)
    } else {
        seq!['-'] + dec_padded((-n) as nat, if width > 0 { (width - 1) as nat } else { 0 })
    }
}

/// The character for a decimal digit.
pub fn digit(d: u64) -> (c: char)
    requires
        d < 10,
    ensures
        c == digit_char(d as nat),
{
    if d == 0 { '0' }
    else if d == 1 { '1' }
    else if d == 2 { '2' }
    else if d == 3 { '3' }
    else if d == 4 { '4' }
    else if d == 5 { '5' }
    else if d == 6 { '6' }
    else if d == 7 { '7' }
    else if d == 8 { '8' }
    else { '9' }
}

/// Appends the decimal representation of `n`.
pub fn push_decimal(out: &mut String, n: u64)
    ensures
        final(out)@ == old(out)@ + dec(n as nat),
    decreases n,
{
    if n < 10 {
        push_char(out, digit(n));
    } else {
        push_decimal(out, n / 10);
        push_char(out, digit(n % 10));
    }
}

/// The number of decimal digits of `n`.
pub fn decimal_len(n: u64) -> (l: usize)
    ensures
        l == dec(n as nat).len(),
        1 <= l <= 20,
    decreases n,
{
    proof { lemma_dec_len_bound(n as nat); }
    if n < 10 {
        1
    } else {
        decimal_len(n / 10) + 1
    }
}

/// Decimal representations are short: at most 20 characters below 2^64.
pub proof fn lemma_dec_len_bound(n: nat)
    ensures
        dec(n).len() >= 1,
        n < 10 ==> dec(n).len() == 1,
        n <= u64::MAX ==> dec(n).len() <= 20,
    decreases n,
{
    if n >= 10 {
        lemma_dec_len_bound(n / 10);
        if n <= u64::MAX {
            // dec(n/10) has at most 19 characters since n/10 < 2^64/10
            lemma_dec_len_small(n / 10, 19);
        }
    }
}

proof fn lemma_dec_len_small(n: nat, k: nat)
    requires
        k >= 1,
        n <= 1844674407370955161,
        k == 19,
    ensures
        dec(n).len() <= k,
    decreases n,
{
    lemma_dec_len_pow(n);
}

/// dec(n) has at most as many digits as the decimal magnitude of `n`.
proof fn lemma_dec_len_pow(n: nat)
    ensures
        n < 10 ==> dec(n).len() == 1,
        n < 100 ==> dec(n).len() <= 2,
        n < 1000 ==> dec(n).len() <= 3,
        n < 10000 ==> dec(n).len() <= 4,
        n < 100000 ==> dec(n).len() <= 5,
        n < 1000000 ==> dec(n).len() <= 6,
        n < 10000000 ==> dec(n).len() <= 7,
        n < 100000000 ==> dec(n).len() <= 8,
        n < 1000000000 ==> dec(n).len() <= 9,
        n < 10000000000 ==> dec(n).len() <= 10,
        n < 100000000000 ==> dec(n).len() <= 11,
        n < 1000000000000 ==> dec(n).len() <= 12,
        n < 10000000000000 ==> dec(n).len() <= 13,
        n < 100000000000000 ==> dec(n).len() <= 14,
        n < 1000000000000000 ==> dec(n).len() <= 15,
        n < 10000000000000000 ==> dec(n).len() <= 16,
        n < 100000000000000000 ==> dec(n).len() <= 17,
        n < 1000000000000000000 ==> dec(n).len() <= 18,
        n < 10000000000000000000 ==> dec(n).len() <= 19,
    decreases n,
{
    if n >= 10 {
        lemma_dec_len_pow(n / 10);
    }
}

/// Appends `n` in decimal, zero-padded on the left to `width` characters.
pub fn push_decimal_padded(out: &mut String, n: u64, width: usize)
    requires
        width <= 20,
    ensures
        final(out)@ == old(out)@ + dec_padded(n as nat, width as nat),
{
    let l: usize = decimal_len(n);
    let ghost start = out@;
    if l < width {
        let mut i: usize = 0;
        while i < width - l
            invariant
                l < width <= 20,
                i <= width - l,
                out@ == start + Seq::new(i as nat, |k: int| '0'),
            decreases width - l - i,
        {
            push_char(out, '0');
            assert(Seq::new((i + 1) as nat, |k: int| '0') == Seq::new(i as nat, |k: int| '0').push('0'));
            i += 1;
        }
    }
    let ghost mid = out@;
    push_decimal(out, n);
    assert(out@ == mid + dec(n as nat));
    if l < width {
        assert(out@ == start + (Seq::new((width - l) as nat, |k: int| '0') + dec(n as nat)));
    }
}

/// Appends a signed integer the way `{:0w}` prints it.
pub fn push_signed_padded(out: &mut String, n: i64, width: usize)
    requires
        1 <= width <= 20,
        n > i64::MIN,
    ensures
        final(out)@ == old(out)@ + signed_padded(n as int, width as nat),
{
    if n >= 0 {
        push_decimal_padded(out, n as u64, width);
    } else {
        let ghost start = out@;
        push_char(out, '-');
        push_decimal_padded(out, (-n) as u64, width - 1);
        assert(out@ == start + (seq!['-'] + dec_padded((-n) as nat, (width - 1) as nat)));
    }
}

/// Whether `c` is whitespace in the sense of `char::is_whitespace`.
pub open spec fn is_ws(c: char) -> bool {
    ||| c == ' '
    ||| ('\u{9}' <= c <= '\u{d}')
    ||| c == '\u{85}'
    ||| c == '\u{a0}'
    ||| c == '\u{1680}'
    ||| ('\u{2000}' <= c <= '\u{200a}')
    ||| c == '\u{2028}'
    ||| c == '\u{2029}'
    ||| c == '\u{202f}'
    ||| c == '\u{205f}'
    ||| c == '\u{3000}'
}

/// `char::is_whitespace`, for the Unicode `White_Space` property.
pub fn is_whitespace(c: char) -> (b: bool)
    ensures
        b == is_ws(c),
{
    c == ' ' || ('\u{9}' <= c && c <= '\u{d}') || c == '\u{85}' || c == '\u{a0}' || c == '\u{1680}'
        || ('\u{2000}' <= c && c <= '\u{200a}') || c == '\u{2028}' || c == '\u{2029}'
        || c == '\u{202f}' || c == '\u{205f}' || c == '\u{3000}'
}

/// Whether `s` starts with `p`.
pub open spec fn has_prefix(s: Seq<char>, p: Seq<char>) -> bool {
    p.len() <= s.len() && s.subrange(0, p.len() as int) == p
}

/// Whether `s` starts with `p` (`str::starts_with`).
pub fn starts_with(s: &[char], p: &[char]) -> (b: bool)
    ensures
        b == has_prefix(s@, p@),
{
    if p.len() > s.len() {
        return false;
    }
    let mut i: usize = 0;
    while i < p.len()
        invariant
            p@.len() <= s@.len(),
            i <= p@.len(),
            forall|k: int| 0 <= k < i ==> s@[k] == p@[k],
        decreases p.len() - i,
    {
        if s[i] != p[i] {
            assert(s@.subrange(0, p@.len() as int)[i as int] != p@[i as int]);
            return false;
        }
        i += 1;
    }
    assert(s@.subrange(0, p@.len() as int) =~= p@);
    true
}

/// The index of the first `\n` at or after `from`, or the length.
pub open spec fn first_newline(s: Seq<char>, from: int) -> int
    decreases s.len() - from,
{
    if from >= s.len() { s.len() as int } else if s[from] == '\n' { from } else { first_newline(s, from + 1) }
}

/// Bounds of `first_newline`, and no `\n` before it.
pub proof fn lemma_first_newline(s: Seq<char>, from: int)
    requires
        0 <= from <= s.len(),
    ensures
        from <= first_newline(s, from) <= s.len(),
        first_newline(s, from) < s.len() ==> s[first_newline(s, from)] == '\n',
        forall|k: int| from <= k < first_newline(s, from) ==> s[k] != '\n',
    decreases s.len() - from,
{
    if from < s.len() && s[from] != '\n' {
        lemma_first_newline(s, from + 1);
    }
}

/// `j` is the first `\n` at or after `from`.
pub proof fn lemma_first_newline_at(s: Seq<char>, from: int, j: int)
    requires
        0 <= from <= j <= s.len(),
        forall|k: int| from <= k < j ==> s[k] != '\n',
        j == s.len() || s[j] == '\n',
    ensures
        first_newline(s, from) == j,
    decreases j - from,
{
    if from < j {
        lemma_first_newline_at(s, from + 1, j);
    }
}


/// Bytes that a scalar takes in UTF-8.
pub open spec fn utf8_width(c: char) -> nat {
    let u = c as u32;
    if u < 0x80 { 1 } else if u < 0x800 { 2 } else if u < 0x10000 { 3 } else { 4 }
}

/// Bytes that a text takes in UTF-8.
pub open spec fn utf8_len(s: Seq<char>) -> nat
    decreases s.len(),
{
    if s.len() == 0 { 0 } else { utf8_len(s.drop_last()) + utf8_width(s.last()) }
}

/// Byte length of a scalar in UTF-8 (`char::len_utf8`).
pub fn char_len_utf8(c: char) -> (n: usize)
    ensures
        n == utf8_width(c),
{
    let u = c as u32;
    if u < 0x80 { 1 } else if u < 0x800 { 2 } else if u < 0x10000 { 3 } else { 4 }
}

/// UTF-8 length of `v[..k+1]` from that of `v[..k]`.
pub proof fn lemma_utf8_step(s: Seq<char>, k: int)
    requires
        0 <= k < s.len(),
    ensures
        utf8_len(s.subrange(0, k + 1)) == utf8_len(s.subrange(0, k)) + utf8_width(s[k]),
{
    assert(s.subrange(0, k + 1).drop_last() =~= s.subrange(0, k));
}

/// UTF-8 length of a prefix is at most that of the whole text.
pub proof fn lemma_utf8_prefix(s: Seq<char>, k: int)
    requires
        0 <= k <= s.len(),
    ensures
        utf8_len(s.subrange(0, k)) <= utf8_len(s),
    decreases s.len() - k,
{
    if k < s.len() {
        lemma_utf8_step(s, k);
        lemma_utf8_prefix(s, k + 1);
    } else {
        assert(s.subrange(0, k) =~= s);
    }
}

/// Byte offsets of the first `k` scalars of `v`.
pub fn utf8_prefix_len(v: &[char], k: usize) -> (n: usize)
    requires
        k <= v@.len(),
        utf8_len(v@) <= usize::MAX,
    ensures
        n == utf8_len(v@.subrange(0, k as int)),
{
    let mut n: usize = 0;
    let mut i: usize = 0;
    while i < k
        invariant
            i <= k <= v@.len(),
            utf8_len(v@) <= usize::MAX,
            n == utf8_len(v@.subrange(0, i as int)),
        decreases k - i,
    {
        proof {
            lemma_utf8_step(v@, i as int);
            lemma_utf8_prefix(v@, i + 1);
        }
        n = n + char_len_utf8(v[i]);
        i += 1;
    }
    n
}

} // verus!
