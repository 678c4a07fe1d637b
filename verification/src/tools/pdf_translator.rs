//! Text from PDF files without a PDF library: the literal and hex strings
//! inside text blocks, and the text cut into chunks for translation.
use vstd::prelude::*;
use crate::text::{chars_of, owned, push_str, push_char, string_of, has_prefix, starts_with};
use crate::textops::{trim_ws, trim_str, range_eq_str, trim_end_char, trim_end_char_bound};
use crate::ui::engine::widgets::{split_lines, text_lines};
use crate::tools::patch::hex_digit;
use crate::repo::spec::{utf8_lossy, lossy_text};
use crate::repo::context::texts;
use crate::tools::web::is_ascii_ws;
use crate::textops::{find_seq, find_from, lemma_find_seq};
use vstd::utf8::encode_utf8;

verus! {

/// `u8::is_ascii_whitespace` on a byte.
pub open spec fn ascii_ws_byte(b: u8) -> bool {
    b == 32 || b == 9 || b == 10 || b == 12 || b == 13
}

/// The value of a hexadecimal digit byte, or nothing.
pub open spec fn hex_value(b: u8) -> Option<u8> {
    if 48 <= b <= 57 {
        Some((b - 48) as u8)
    } else if 97 <= b <= 102 {
        Some((b - 97 + 10) as u8)
    } else if 65 <= b <= 70 {
        Some((b - 65 + 10) as u8)
    } else {
        None
    }
}

/// Hex digits read in pairs (other bytes skipped): the bytes so far and a
/// pending high digit.
pub open spec fn hex_pairs(input: Seq<u8>) -> (Seq<u8>, Option<u8>)
    decreases input.len(),
{
    if input.len() == 0 {
        (Seq::empty(), None)
    } else {
        let p = hex_pairs(input.drop_last());
        match hex_value(input.last()) {
            None => p,
            Some(v) => match p.1 {
                Some(h) => (p.0.push((h * 16 + v) as u8), None),
                None => (p.0, Some(v)),
            },
        }
    }
}

/// The bytes hex digits stand for; a last lone digit is its high half.
pub open spec fn hex_decoded(input: Seq<u8>) -> Seq<u8> {
    let p = hex_pairs(input);
    match p.1 {
        Some(h) => p.0.push((h * 16) as u8),
        None => p.0,
    }
}

fn hex_value_exec(b: u8) -> (r: Option<u8>)
    ensures
        r == hex_value(b),
{
    if 48 <= b && b <= 57 {
        Some(b - 48)
    } else if 97 <= b && b <= 102 {
        Some(b - 97 + 10)
    } else if 65 <= b && b <= 70 {
        Some(b - 65 + 10)
    } else {
        None
    }
}

/// Decodes hex digits (see `hex_decoded`).
pub fn hex_decode(input: &[u8]) -> (r: Vec<u8>)
    ensures
        r@ == hex_decoded(input@),
{
    let mut res: Vec<u8> = Vec::new();
    let mut high: Option<u8> = None;
    let mut i: usize = 0;
    assert(input@.subrange(0, 0) =~= Seq::<u8>::empty());
    while i < input.len()
        invariant
            i <= input@.len(),
            hex_pairs(input@.subrange(0, i as int)) == (res@, high),
            high matches Some(h) ==> h < 16,
        decreases input@.len() - i,
    {
        assert(input@.subrange(0, i + 1).drop_last() =~= input@.subrange(0, i as int));
        match hex_value_exec(input[i]) {
            None => {},
            Some(v) => {
                match high {
                    Some(h) => {
                        res.push(h * 16 + v);
                        high = None;
                    },
                    None => {
                        high = Some(v);
                    },
                }
            },
        }
        i += 1;
    }
    assert(input@.subrange(0, i as int) =~= input@);
    match high {
        Some(h) => res.push(h * 16),
        None => {},
    }
    res
}

/// Text followed by a space when it has any, after trimming.
pub open spec fn emit(out: Seq<char>, bytes: Seq<u8>) -> Seq<char> {
    let t = trim_ws(utf8_lossy(bytes));
    if t.len() > 0 { out + t + " "@ } else { out }
}

/// The state of reading a PDF: the text so far, whether inside a `BT`
/// block, a `(...)` literal (and after a `\`) or a `<...>` hex string, and
/// the bytes of the string being read.
pub struct PdfScan {
    pub out: Seq<char>,
    pub in_bt: bool,
    pub in_paren: bool,
    pub escape: bool,
    pub in_hex: bool,
    pub lit: Seq<u8>,
    pub hex: Seq<u8>,
}

/// The byte an escape stands for inside a literal.
pub open spec fn escaped(b: u8) -> u8 {
    if b == 110 { 10 } else if b == 114 { 13 } else if b == 116 { 9 } else { b }
}

/// One step of reading from `i`: the next position and state. Outside a
/// block, `BT` at the start or after whitespace opens one; inside, `ET`
/// (outside strings) closes it with a newline, `(` and `<` (not `<<`) open
/// strings, and a closed string's text is added.
pub open spec fn pdf_step(s: Seq<u8>, i: int, st: PdfScan) -> (int, PdfScan) {
    if !st.in_bt {
        if i + 1 < s.len() && s[i] == 66 && s[i + 1] == 84 && (i == 0 || ascii_ws_byte(s[i - 1])) {
            (i + 2, PdfScan { in_bt: true, in_paren: false, escape: false, in_hex: false, lit: Seq::empty(), hex: Seq::empty(), ..st })
        } else {
            (i + 1, st)
        }
    } else if !st.in_paren && !st.in_hex && i + 1 < s.len() && s[i] == 69 && s[i + 1] == 84 {
        (i + 2, PdfScan { in_bt: false, out: st.out.push('\n'), ..st })
    } else {
        let b = s[i];
        let next = if st.in_paren {
            if st.escape {
                PdfScan { lit: st.lit.push(escaped(b)), escape: false, ..st }
            } else if b == 92 {
                PdfScan { escape: true, ..st }
            } else if b == 41 {
                if st.lit.len() > 0 {
                    PdfScan { in_paren: false, out: emit(st.out, st.lit), lit: Seq::empty(), ..st }
                } else {
                    PdfScan { in_paren: false, ..st }
                }
            } else {
                PdfScan { lit: st.lit.push(b), ..st }
            }
        } else if st.in_hex {
            if b == 62 {
                PdfScan { in_hex: false, out: emit(st.out, hex_decoded(st.hex)), hex: Seq::empty(), ..st }
            } else if !ascii_ws_byte(b) {
                PdfScan { hex: st.hex.push(b), ..st }
            } else {
                st
            }
        } else if b == 40 {
            PdfScan { in_paren: true, escape: false, lit: Seq::empty(), ..st }
        } else if b == 60 && i + 1 < s.len() && s[i + 1] != 60 {
            PdfScan { in_hex: true, hex: Seq::empty(), ..st }
        } else {
            st
        };
        (i + 1, next)
    }
}

/// The state once every byte from `i` on is read.
pub open spec fn pdf_run(s: Seq<u8>, i: int, st: PdfScan) -> PdfScan
    decreases s.len() - i,
{
    if i < 0 || i >= s.len() {
        st
    } else {
        let (j, nst) = pdf_step(s, i, st);
        if j <= i { st } else { pdf_run(s, j, nst) }
    }
}

/// The text of a PDF: refused without a `%PDF-` header or when no text is
/// found; else the text of its blocks, trimmed.
pub open spec fn pdf_text(s: Seq<u8>) -> Result<Seq<char>, Seq<char>> {
    if !(s.len() >= 5 && s.subrange(0, 5) == seq![37u8, 80u8, 68u8, 70u8, 45u8]) {
        Err("Arquivo informado não possui cabeçalho PDF válido."@)
    } else {
        let start = PdfScan { out: Seq::empty(), in_bt: false, in_paren: false, escape: false, in_hex: false, lit: Seq::empty(), hex: Seq::empty() };
        let t = trim_ws(pdf_run(s, 0, start).out);
        if t.len() == 0 {
            Err("Nenhum texto pôde ser extraído. Se for um PDF escaneado (imagem pura) ou compactado com criptografia pesada, o OCR é necessário."@)
        } else {
            Ok(t)
        }
    }
}

fn is_ascii_ws_byte(b: u8) -> (r: bool)
    ensures
        r == ascii_ws_byte(b),
{
    b == 32 || b == 9 || b == 10 || b == 12 || b == 13
}

fn emit_exec(out: &mut String, bytes: &[u8])
    ensures
        final(out)@ == emit(old(out)@, bytes@),
{
    let s = lossy_text(bytes);
    let t = trim_str(s.as_str());
    if t.as_str().unicode_len() > 0 {
        push_str(out, t.as_str());
        push_str(out, " ");
    }
}

/// Reads the text of a PDF's bytes (see `pdf_text`).
pub fn pdf_text_of(bytes: &[u8]) -> (r: Result<String, String>)
    ensures
        match (r, pdf_text(bytes@)) {
            (Ok(t), Ok(u)) => t@ == u,
            (Err(e), Err(u)) => e@ == u,
            _ => false,
        },
{
    let len = bytes.len();
    if !(len >= 5 && bytes[0] == 37 && bytes[1] == 80 && bytes[2] == 68 && bytes[3] == 70 && bytes[4] == 45) {
        proof {
            if bytes@.len() >= 5 && bytes@.subrange(0, 5) == seq![37u8, 80u8, 68u8, 70u8, 45u8] {
                assert(bytes@.subrange(0, 5)[0] == bytes@[0]);
                assert(bytes@.subrange(0, 5)[1] == bytes@[1]);
                assert(bytes@.subrange(0, 5)[2] == bytes@[2]);
                assert(bytes@.subrange(0, 5)[3] == bytes@[3]);
                assert(bytes@.subrange(0, 5)[4] == bytes@[4]);
            }
        }
        return Err(owned("Arquivo informado não possui cabeçalho PDF válido."));
    }
    assert(bytes@.subrange(0, 5) =~= seq![37u8, 80u8, 68u8, 70u8, 45u8]);
    let ghost start = PdfScan { out: Seq::empty(), in_bt: false, in_paren: false, escape: false, in_hex: false, lit: Seq::empty(), hex: Seq::empty() };
    let mut out = String::new();
    let mut in_bt = false;
    let mut in_paren = false;
    let mut escape = false;
    let mut in_hex = false;
    let mut lit: Vec<u8> = Vec::new();
    let mut hex: Vec<u8> = Vec::new();
    let mut i: usize = 0;
    assert(out@ =~= Seq::<char>::empty());
    while i < len
        invariant
            len == bytes@.len(),
            i <= len,
            pdf_run(bytes@, i as int, PdfScan { out: out@, in_bt, in_paren, escape, in_hex, lit: lit@, hex: hex@ })
                == pdf_run(bytes@, 0, start),
        decreases len - i,
    {
        let ghost st = PdfScan { out: out@, in_bt, in_paren, escape, in_hex, lit: lit@, hex: hex@ };
        if !in_bt {
            if i + 1 < len && bytes[i] == 66 && bytes[i + 1] == 84 && (i == 0 || is_ascii_ws_byte(bytes[i - 1])) {
                in_bt = true;
                in_paren = false;
                escape = false;
                in_hex = false;
                lit = Vec::new();
                hex = Vec::new();
                i += 2;
            } else {
                i += 1;
            }
        } else if !in_paren && !in_hex && i + 1 < len && bytes[i] == 69 && bytes[i + 1] == 84 {
            push_char(&mut out, '\n');
            in_bt = false;
            i += 2;
        } else {
            let b = bytes[i];
            if in_paren {
                if escape {
                    let e: u8 = if b == 110 { 10 } else if b == 114 { 13 } else if b == 116 { 9 } else { b };
                    lit.push(e);
                    escape = false;
                } else if b == 92 {
                    escape = true;
                } else if b == 41 {
                    in_paren = false;
                    if lit.len() > 0 {
                        emit_exec(&mut out, lit.as_slice());
                        lit = Vec::new();
                    }
                } else {
                    lit.push(b);
                }
            } else if in_hex {
                if b == 62 {
                    in_hex = false;
                    let decoded = hex_decode(hex.as_slice());
                    emit_exec(&mut out, decoded.as_slice());
                    hex = Vec::new();
                } else if !is_ascii_ws_byte(b) {
                    hex.push(b);
                }
            } else if b == 40 {
                in_paren = true;
                escape = false;
                lit = Vec::new();
            } else if b == 60 && i + 1 < len && bytes[i + 1] != 60 {
                in_hex = true;
                hex = Vec::new();
            }
            i += 1;
        }
    }
    let t = trim_str(out.as_str());
    if t.as_str().unicode_len() == 0 {
        Err(owned("Nenhum texto pôde ser extraído. Se for um PDF escaneado (imagem pura) ou compactado com criptografia pesada, o OCR é necessário."))
    } else {
        Ok(t)
    }
}


/// A text split at every non-overlapping `p` (`str::split` with a string).
pub open spec fn split_on(s: Seq<char>, p: Seq<char>) -> Seq<Seq<char>>
    decreases s.len(),
{
    match find_seq(s, p, 0) {
        Some(k) => if p.len() > 0 && 0 <= k && k + p.len() <= s.len() {
            seq![s.subrange(0, k)] + split_on(s.subrange(k + p.len(), s.len() as int), p)
        } else {
            seq![s]
        },
        None => seq![s],
    }
}

/// The chunks closed so far and the chunk being filled, after the first
/// paragraphs: a paragraph that would take a non-empty chunk past 2500
/// bytes starts a new one; each paragraph is followed by a blank line.
pub open spec fn chunk_fold(ps: Seq<Seq<char>>) -> (Seq<Seq<char>>, Seq<char>)
    decreases ps.len(),
{
    if ps.len() == 0 {
        (Seq::empty(), Seq::empty())
    } else {
        let prev = chunk_fold(ps.drop_last());
        let p = ps.last();
        let full = encode_utf8(prev.1).len() + encode_utf8(p).len() > 2500 && prev.1.len() > 0;
        let cs = if full { prev.0.push(prev.1) } else { prev.0 };
        let cur = if full { Seq::empty() } else { prev.1 };
        (cs, cur + p + "\n\n"@)
    }
}

/// The chunks a text is translated in: its paragraphs (split at blank
/// lines) gathered up to about 2500 bytes each; the whole text when no
/// chunk has content.
pub open spec fn text_chunks(raw: Seq<char>) -> Seq<Seq<char>> {
    let f = chunk_fold(split_on(raw, "\n\n"@));
    let cs = if trim_ws(f.1).len() > 0 { f.0.push(f.1) } else { f.0 };
    if cs.len() == 0 { seq![raw] } else { cs }
}

/// Splits a text at every `p` (see `split_on`).
pub fn split_text(s: &str, p: &str) -> (r: Vec<String>)
    requires
        p@.len() > 0,
    ensures
        texts(r@) == split_on(s@, p@),
{
    let v = chars_of(s);
    let pv = chars_of(p);
    let n = v.len();
    let mut r: Vec<String> = Vec::new();
    let mut c: usize = 0;
    assert(v@.subrange(0, n as int) =~= v@);
    loop
        invariant
            c <= n == v@.len(),
            v@ == s@,
            pv@ == p@,
            p@.len() > 0,
            texts(r@) + split_on(v@.subrange(c as int, n as int), p@) == split_on(s@, p@),
        decreases n - c,
    {
        let ghost cur = v@.subrange(c as int, n as int);
        proof {
            crate::repo::chrono_context::lemma_find_seq_shift(v@, p@, c as int, 0);
            lemma_find_seq(v@, p@, c as int);
        }
        match find_from(v.as_slice(), pv.as_slice(), c) {
            Some(k) => {
                let piece = string_of(v.as_slice(), c, k);
                let ghost before = texts(r@);
                r.push(piece);
                let ghost kr = k - c;
                assert(cur.subrange(0, kr) =~= v@.subrange(c as int, k as int));
                assert(cur.subrange(kr + p@.len(), cur.len() as int) =~= v@.subrange(k + p@.len(), n as int));
                assert(texts(r@) =~= before.push(v@.subrange(c as int, k as int)));
                assert(texts(r@) + split_on(v@.subrange(k + p@.len(), n as int), p@) =~= before + split_on(cur, p@));
                c = k + pv.len();
            },
            None => {
                let piece = string_of(v.as_slice(), c, n);
                let ghost before = texts(r@);
                r.push(piece);
                assert(texts(r@) =~= before + split_on(cur, p@));
                return r;
            },
        }
    }
}

/// Cuts a text into chunks for translation (see `text_chunks`).
pub fn chunk_text(raw: &str) -> (r: Vec<String>)
    ensures
        texts(r@) == text_chunks(raw@),
{
    proof { reveal_strlit("\n\n"); }
    let paragraphs = split_text(raw, "\n\n");
    let ghost ps = texts(paragraphs@);
    let mut chunks: Vec<String> = Vec::new();
    let mut current = String::new();
    let mut i: usize = 0;
    assert(ps.subrange(0, 0) =~= Seq::<Seq<char>>::empty());
    assert(current@ =~= Seq::<char>::empty());
    while i < paragraphs.len()
        invariant
            i <= paragraphs@.len(),
            ps == texts(paragraphs@),
            chunk_fold(ps.subrange(0, i as int)) == (texts(chunks@), current@),
        decreases paragraphs@.len() - i,
    {
        let p = paragraphs[i].as_str();
        assert(ps.subrange(0, i + 1).drop_last() =~= ps.subrange(0, i as int));
        assert(ps.subrange(0, i + 1).last() == p@);
        let cl = current.as_str().as_bytes().len();
        let pl = p.as_bytes().len();
        let over = cl > 2500 || pl > 2500 - cl;
        if over && current.as_str().unicode_len() > 0 {
            let ghost before = texts(chunks@);
            let ghost cv = current@;
            chunks.push(current);
            assert(texts(chunks@) =~= before.push(cv));
            current = String::new();
            assert(current@ =~= Seq::<char>::empty());
        }
        push_str(&mut current, p);
        push_str(&mut current, "\n\n");
        i += 1;
    }
    assert(ps.subrange(0, i as int) =~= ps);
    let t = trim_str(current.as_str());
    if t.as_str().unicode_len() > 0 {
        let ghost before = texts(chunks@);
        let ghost cv = current@;
        chunks.push(current);
        assert(texts(chunks@) =~= before.push(cv));
    }
    if chunks.len() == 0 {
        let ghost before = texts(chunks@);
        chunks.push(owned(raw));
        assert(texts(chunks@) =~= seq![raw@]);
    }
    chunks
}

/// The acceleration label printed for a GPU choice: CPU only, one of the two
/// known GPUs, the choice as given, or automatic.
pub open spec fn gpu_label_text(gpu: Option<Seq<char>>) -> Seq<char> {
    match gpu {
        Some(g) => if g == "cpu"@ {
            "🖥️ CPU Puro (0 layers GPU)"@
        } else if g == "0"@ {
            "⚡ GPU 0 (NVIDIA GeForce GTX 1650)"@
        } else if g == "1"@ {
            "⚡ GPU 1 (Intel UHD Graphics)"@
        } else {
            g
        },
        None => "⚡ GPU Auto"@,
    }
}

/// The acceleration label of a GPU choice (see `gpu_label_text`).
pub fn gpu_label(gpu: Option<&str>) -> (s: String)
    ensures
        s@ == gpu_label_text(match gpu { Some(g) => Some(g@), None => None }),
{
    match gpu {
        Some(g) => {
            let v = chars_of(g);
            let n = v.len();
            assert(v@.subrange(0, n as int) =~= v@);
            if range_eq_str(v.as_slice(), 0, n, "cpu") {
                owned("🖥️ CPU Puro (0 layers GPU)")
            } else if range_eq_str(v.as_slice(), 0, n, "0") {
                owned("⚡ GPU 0 (NVIDIA GeForce GTX 1650)")
            } else if range_eq_str(v.as_slice(), 0, n, "1") {
                owned("⚡ GPU 1 (Intel UHD Graphics)")
            } else {
                owned(g)
            }
        },
        None => owned("⚡ GPU Auto"),
    }
}

/// The value of decimal digits.
pub open spec fn digits_value(s: Seq<char>) -> nat
    decreases s.len(),
{
    if s.len() == 0 { 0 } else { digits_value(s.drop_last()) * 10 + ((s.last() as u32) - 48) as nat }
}

/// Every character is an ASCII digit.
pub open spec fn all_digits(s: Seq<char>) -> bool {
    forall|k: int| 0 <= k < s.len() ==> '0' <= #[trigger] s[k] <= '9'
}

/// `str::parse::<u32>`: an optional `+` and then one or more ASCII digits
/// whose value fits in a `u32`.
pub open spec fn parsed_u32(s: Seq<char>) -> Option<u32> {
    let d = if s.len() > 0 && s[0] == '+' { s.drop_first() } else { s };
    if d.len() > 0 && all_digits(d) && digits_value(d) <= u32::MAX { Some(digits_value(d) as u32) } else { None }
}

/// Reads a `u32` as `str::parse` does (see `parsed_u32`).
pub fn parse_u32(s: &str) -> (r: Option<u32>)
    ensures
        r == parsed_u32(s@),
{
    let v = chars_of(s);
    let start: usize = if v.len() > 0 && v[0] == '+' { 1 } else { 0 };
    let ghost d = if s@.len() > 0 && s@[0] == '+' { s@.drop_first() } else { s@ };
    assert(d =~= v@.subrange(start as int, v@.len() as int));
    if start == v.len() {
        return None;
    }
    let mut acc: u64 = 0;
    let mut i = start;
    while i < v.len()
        invariant
            start <= i <= v@.len(),
            v@ == s@,
            d == (if s@.len() > 0 && s@[0] == '+' { s@.drop_first() } else { s@ }),
            d == v@.subrange(start as int, v@.len() as int),
            all_digits(v@.subrange(start as int, i as int)),
            acc == digits_value(v@.subrange(start as int, i as int)),
            acc <= u32::MAX,
        decreases v@.len() - i,
    {
        let c = v[i];
        if !('0' <= c && c <= '9') {
            assert(d[i - start] == c);
            assert(!('0' <= d[i - start] <= '9'));
            assert(!all_digits(d));
            assert(parsed_u32(s@) is None);
            return None;
        }
        let digit = (c as u32 - 48) as u64;
        assert(v@.subrange(start as int, i + 1).drop_last() =~= v@.subrange(start as int, i as int));
        assert(v@.subrange(start as int, i + 1).last() == c);
        let next = acc * 10 + digit;
        if next > u32::MAX as u64 {
            proof {
                assert(d.subrange(0, i + 1 - start) =~= v@.subrange(start as int, i + 1));
                assert(digits_value(v@.subrange(start as int, i + 1)) == acc * 10 + digit);
                assert(all_digits(v@.subrange(start as int, i + 1)));
                lemma_digits_grow(d, i + 1 - start);
                assert(parsed_u32(s@) is None);
            }
            return None;
        }
        acc = next;
        i += 1;
    }
    assert(v@.subrange(start as int, v@.len() as int) =~= d);
    Some(acc as u32)
}

/// Digits past a prefix whose value is too large keep the value too large.
proof fn lemma_digits_grow(d: Seq<char>, k: int)
    requires
        0 < k <= d.len(),
        all_digits(d.subrange(0, k)) ==> digits_value(d.subrange(0, k)) > u32::MAX,
        all_digits(d.subrange(0, k)),
    ensures
        !(all_digits(d) && digits_value(d) <= u32::MAX),
    decreases d.len() - k,
{
    if k < d.len() {
        if all_digits(d) {
            assert(all_digits(d.subrange(0, k + 1)));
            assert(d.subrange(0, k + 1).drop_last() =~= d.subrange(0, k));
            lemma_digits_grow(d, k + 1);
        }
    } else {
        assert(d.subrange(0, k) =~= d);
    }
}

/// The generation options of a GPU choice: how many layers go to the GPU
/// and which GPU leads, for CPU only, GPU 0, GPU 1, another GPU number, or
/// automatic.
pub open spec fn gpu_options_spec(gpu: Option<Seq<char>>) -> (Option<u32>, Option<u32>) {
    match gpu {
        Some(g) => if g == "cpu"@ {
            (Some(0u32), None)
        } else if g == "0"@ {
            (Some(99u32), Some(0u32))
        } else if g == "1"@ {
            (Some(99u32), Some(1u32))
        } else {
            match parsed_u32(g) {
                Some(n) => (Some(99u32), Some(n)),
                None => (Some(99u32), None),
            }
        },
        None => (Some(99u32), None),
    }
}

/// The layers sent to the GPU and the leading GPU for a GPU choice (see
/// `gpu_options_spec`).
pub fn gpu_options(gpu: Option<&str>) -> (r: (Option<u32>, Option<u32>))
    ensures
        r == gpu_options_spec(match gpu { Some(g) => Some(g@), None => None }),
{
    match gpu {
        Some(g) => {
            let v = chars_of(g);
            let n = v.len();
            assert(v@.subrange(0, n as int) =~= v@);
            if range_eq_str(v.as_slice(), 0, n, "cpu") {
                (Some(0), None)
            } else if range_eq_str(v.as_slice(), 0, n, "0") {
                (Some(99), Some(0))
            } else if range_eq_str(v.as_slice(), 0, n, "1") {
                (Some(99), Some(1))
            } else {
                match parse_u32(g) {
                    Some(k) => (Some(99), Some(k)),
                    None => (Some(99), None),
                }
            }
        },
        None => (Some(99), None),
    }
}

/// `{:x}`: lowercase hexadecimal digits without padding.
pub open spec fn hex_text(n: nat) -> Seq<char>
    decreases n,
{
    if n < 16 { seq![hex_digit(n as int)] } else { hex_text(n / 16) + seq![hex_digit((n % 16) as int)] }
}

fn push_hex(out: &mut String, n: u64)
    ensures
        final(out)@ == old(out)@ + hex_text(n as nat),
    decreases n,
{
    if n >= 16 {
        push_hex(out, n / 16);
    }
    let d = n % 16;
    let c: char = if d < 10 { ((d + 48) as u8) as char } else { ((d + 87) as u8) as char };
    push_char(out, c);
    assert(out@ =~= old(out)@ + hex_text(n as nat));
}

/// The cache key of a translated chunk: model, target language and the
/// chunk's hash in hexadecimal, separated by `:`.
pub fn cache_key(model: &str, target_lang: &str, chunk_hash: u64) -> (k: String)
    ensures
        k@ == model@ + ":"@ + target_lang@ + ":"@ + hex_text(chunk_hash as nat),
{
    let mut k = owned(model);
    push_str(&mut k, ":");
    push_str(&mut k, target_lang);
    push_str(&mut k, ":");
    push_hex(&mut k, chunk_hash);
    k
}


/// The value `DefaultHasher` gives for a string: a fresh hasher (std's
/// `DefaultHasher::new` is unseeded, so every instance is the same) fed the
/// string's bytes and then `0xff`.
pub uninterp spec fn str_hash_of(s: Seq<char>) -> u64;

/// `Hash::hash` of a string into a fresh `DefaultHasher`, then `finish`;
/// its value is named by `str_hash_of`. Nothing more is stated of it: the
/// algorithm is unspecified.
#[verifier::external_body]
fn str_hash(s: &str) -> (h: u64)
    ensures
        h == str_hash_of(s@),
{
    let mut hasher = std::collections::hash_map::DefaultHasher::new();
    std::hash::Hash::hash(s, &mut hasher);
    std::hash::Hasher::finish(&hasher)
}

/// The cache key of a chunk (see `cache_key`), with the chunk's hash.
pub fn chunk_cache_key(model: &str, target_lang: &str, chunk: &str) -> (k: String)
    ensures
        k@ == model@ + ":"@ + target_lang@ + ":"@ + hex_text(str_hash_of(chunk@) as nat),
{
    let h = str_hash(chunk);
    cache_key(model, target_lang, h)
}

/// What ends each translated block in the output.
pub open spec fn block_separator() -> Seq<char> {
    "\n\n---\n\n"@
}

/// Appends a block restored from the cache, then the separator.
pub fn push_cached_block(translation: &mut String, cached: &str)
    ensures
        final(translation)@ == old(translation)@ + cached@ + block_separator(),
{
    push_str(translation, cached);
    push_str(translation, "\n\n---\n\n");
}

/// Appends a streamed piece of a response to both the block and the whole
/// translation.
pub fn push_response(translation: &mut String, block: &mut String, piece: &str)
    ensures
        final(translation)@ == old(translation)@ + piece@,
        final(block)@ == old(block)@ + piece@,
{
    push_str(block, piece);
    push_str(translation, piece);
}

/// Ends a translated block: appends the separator and says whether the
/// block is worth caching (it holds more than whitespace).
pub fn end_block(translation: &mut String, block: &str) -> (store: bool)
    ensures
        final(translation)@ == old(translation)@ + block_separator(),
        store == (trim_ws(block@).len() > 0),
{
    push_str(translation, "\n\n---\n\n");
    trim_str(block).as_str().unicode_len() > 0
}

/// The lines of a piece of a streamed reply worth reading: those that are
/// not blank, in order.
pub fn reply_lines(text: &str) -> (r: Vec<String>)
    ensures
        texts(r@) == text_lines(text@).filter(|l: Seq<char>| trim_ws(l).len() > 0),
{
    let lines = split_lines(text);
    let ghost ls = text_lines(text@);
    let mut out: Vec<String> = Vec::new();
    let mut i: usize = 0;
    assert(ls.take(0).filter(|l: Seq<char>| trim_ws(l).len() > 0) =~= Seq::<Seq<char>>::empty());
    assert(texts(out@) =~= Seq::<Seq<char>>::empty());
    while i < lines.len()
        invariant
            i <= lines@.len(),
            lines@.len() == ls.len(),
            ls == text_lines(text@),
            forall|k: int| 0 <= k < lines@.len() ==> (#[trigger] lines@[k])@ == ls[k],
            texts(out@) == ls.take(i as int).filter(|l: Seq<char>| trim_ws(l).len() > 0),
        decreases lines@.len() - i,
    {
        let ghost before = texts(out@);
        assert(ls.take(i + 1).drop_last() =~= ls.take(i as int));
        assert(ls.take(i + 1).last() == ls[i as int]);
        reveal(Seq::filter);
        if trim_str(lines[i].as_str()).as_str().unicode_len() > 0 {
            let l = lines[i].clone();
            out.push(l);
            assert(texts(out@) =~= before.push(ls[i as int]));
        } else {
            assert(texts(out@) =~= before);
        }
        i += 1;
    }
    assert(ls.take(i as int) =~= ls);
    out
}

/// The generate endpoint of a model host: the host without trailing `/`,
/// then `/api/generate`.
pub fn generate_url(host: &str) -> (u: String)
    ensures
        u@ == trim_end_char(host@, '/') + "/api/generate"@,
{
    let v = chars_of(host);
    let e = trim_end_char_bound(v.as_slice(), 0, v.len(), '/');
    assert(v@.subrange(0, v@.len() as int) =~= v@);
    let mut u = string_of(v.as_slice(), 0, e);
    push_str(&mut u, "/api/generate");
    u
}

/// The instructions a translation model gets, naming the target language.
pub open spec fn system_prompt_text(target_lang: Seq<char>) -> Seq<char> {
    "Você é um tradutor técnico e acadêmico especializado em Inteligência Artificial e Computação.\nTraduza o texto fornecido diretamente para o idioma: \""@
        + target_lang
        + "\".\nRegras:\n1. Retorne APENAS o conteúdo traduzido em formato Markdown.\n2. NÃO adicione introduções, explicações, cumprimentos ou notas.\n3. Mantenha fórmulas, referências e formatação intactos."@
}

/// The instructions a translation model gets (see `system_prompt_text`).
pub fn system_prompt(target_lang: &str) -> (p: String)
    ensures
        p@ == system_prompt_text(target_lang@),
{
    let mut p = owned("Você é um tradutor técnico e acadêmico especializado em Inteligência Artificial e Computação.\nTraduza o texto fornecido diretamente para o idioma: \"");
    push_str(&mut p, target_lang);
    push_str(&mut p, "\".\nRegras:\n1. Retorne APENAS o conteúdo traduzido em formato Markdown.\n2. NÃO adicione introduções, explicações, cumprimentos ou notas.\n3. Mantenha fórmulas, referências e formatação intactos.");
    p
}

/// The request for one chunk: the target language, then the chunk trimmed,
/// between triple quotes.
pub fn chunk_prompt(target_lang: &str, chunk: &str) -> (p: String)
    ensures
        p@ == "Traduza o seguinte trecho para "@ + target_lang@ + ":\n\n\"\"\"\n"@ + trim_ws(chunk@) + "\n\"\"\""@,
{
    let mut p = owned("Traduza o seguinte trecho para ");
    push_str(&mut p, target_lang);
    push_str(&mut p, ":\n\n\"\"\"\n");
    let t = trim_str(chunk);
    push_str(&mut p, t.as_str());
    push_str(&mut p, "\n\"\"\"");
    p
}

} // verus!
