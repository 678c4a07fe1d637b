//! Base64 (RFC 4648, standard alphabet, with `=` padding).
use vstd::prelude::*;

verus! {

/// The character of a 6-bit value in the standard alphabet.
pub open spec fn b64_char(v: int) -> char {
    if v < 26 {
        (65 + v) as char
    } else if v < 52 {
        (97 + v - 26) as char
    } else if v < 62 {
        (48 + v - 52) as char
    } else if v == 62 {
        '+'
    } else {
        '/'
    }
}

/// The Base64 text of `d`: each 3 bytes become 4 characters, and a last group
/// of 1 or 2 bytes is padded with `=`.
pub open spec fn encoded(d: Seq<u8>) -> Seq<char>
    decreases d.len(),
{
    if d.len() == 0 {
        Seq::empty()
    } else if d.len() == 1 {
        seq![b64_char((d[0] / 4) as int), b64_char(((d[0] % 4) * 16) as int), '=', '=']
    } else if d.len() == 2 {
        seq![b64_char((d[0] / 4) as int), b64_char(((d[0] % 4) * 16 + d[1] / 16) as int), b64_char(((d[1] % 16) * 4) as int), '=']
    } else {
        seq![b64_char((d[0] / 4) as int), b64_char(((d[0] % 4) * 16 + d[1] / 16) as int), b64_char(((d[1] % 16) * 4 + d[2] / 64) as int),
            b64_char((d[2] % 64) as int)] + encoded(d.subrange(3, d.len() as int))
    }
}

fn b64_char_exec(v: u8) -> (c: char)
    requires
        v < 64,
    ensures
        c == b64_char(v as int),
{
    if v < 26 {
        (65 + v) as char
    } else if v < 52 {
        (97 + v - 26) as char
    } else if v < 62 {
        (48 + v - 52) as char
    } else if v == 62 {
        '+'
    } else {
        '/'
    }
}

/// Encodes bytes as Base64 (see `encoded`).
pub fn encode(data: &[u8]) -> (s: String)
    ensures
        s@ == encoded(data@),
{
    let n = data.len();
    let mut out = String::new();
    let mut i: usize = 0;
    assert(data@.subrange(0, n as int) =~= data@);
    while i < n
        invariant
            n == data@.len(),
            i <= n,
            out@ + encoded(data@.subrange(i as int, n as int)) == encoded(data@),
        decreases n - i,
    {
        let ghost rest = data@.subrange(i as int, n as int);
        let ghost before = out@;
        let a = data[i];
        crate::text::push_char(&mut out, b64_char_exec(a / 4));
        if n - i == 1 {
            crate::text::push_char(&mut out, b64_char_exec((a % 4) * 16));
            crate::text::push_char(&mut out, '=');
            crate::text::push_char(&mut out, '=');
            assert(out@ =~= before + encoded(rest));
            assert(data@.subrange(n as int, n as int) =~= Seq::<u8>::empty());
            i = n;
        } else {
            let b = data[i + 1];
            crate::text::push_char(&mut out, b64_char_exec((a % 4) * 16 + b / 16));
            if n - i == 2 {
                crate::text::push_char(&mut out, b64_char_exec((b % 16) * 4));
                crate::text::push_char(&mut out, '=');
                assert(out@ =~= before + encoded(rest));
                assert(data@.subrange(n as int, n as int) =~= Seq::<u8>::empty());
                i = n;
            } else {
                let c = data[i + 2];
                crate::text::push_char(&mut out, b64_char_exec((b % 16) * 4 + c / 64));
                crate::text::push_char(&mut out, b64_char_exec(c % 64));
                assert(rest.subrange(3, rest.len() as int) =~= data@.subrange(i + 3, n as int));
                assert(out@ + encoded(data@.subrange(i + 3, n as int)) =~= before + encoded(rest));
                i = i + 3;
            }
        }
    }
    assert(out@ + Seq::<char>::empty() =~= out@);
    out
}

} // verus!
