//! WebSocket (RFC 6455) handshake digest and frame codec.
use vstd::prelude::*;
use vstd::utf8::encode_utf8;
use crate::base64::{encode, encoded};
use crate::textops::{trim_ws, trim_str};
use crate::repo::spec::{utf8_lossy, lossy_text};

verus! {

/// `x` rotated left by `n` bits.
pub open spec fn rotl(x: u32, n: u32) -> u32 {
    (x << n) | (x >> ((32 - n) as u32))
}

fn rotl_exec(x: u32, n: u32) -> (r: u32)
    requires
        0 < n < 32,
    ensures
        r == rotl(x, n),
{
    (x << n) | (x >> (32 - n))
}

/// The number of zero bytes that pad a message of `len` bytes (after its
/// `0x80` marker) to 56 bytes modulo 64.
pub open spec fn pad_zeros(len: nat) -> nat {
    let r = len % 64;
    if r <= 55 { (55 - r) as nat } else { (119 - r) as nat }
}

/// The big-endian bytes of a 64-bit number.
pub open spec fn be64(x: u64) -> Seq<u8> {
    Seq::new(8, |i: int| ((x >> ((56 - 8 * i) as u64)) & 0xff) as u8)
}

/// The big-endian bytes of a 32-bit number.
pub open spec fn be32(x: u32) -> Seq<u8> {
    seq![(x >> 24u32) as u8, ((x >> 16u32) & 0xff) as u8, ((x >> 8u32) & 0xff) as u8, (x & 0xff) as u8]
}

/// A message padded for SHA-1: a `0x80` byte, zeros, and its length in bits.
pub open spec fn sha1_padded(data: Seq<u8>) -> Seq<u8> {
    data + seq![0x80u8] + Seq::new(pad_zeros(data.len()), |i: int| 0u8) + be64((data.len() as u64).wrapping_mul(8))
}

/// The big-endian word at byte offset `o`.
pub open spec fn word_at(m: Seq<u8>, o: int) -> u32 {
    (m[o] * 0x100_0000 + m[o + 1] * 0x1_0000 + m[o + 2] * 0x100 + m[o + 3]) as u32
}

/// The schedule has one word per step.
proof fn lemma_schedule_len(m: Seq<u8>, base: int, t: nat)
    ensures
        schedule(m, base, t).len() == t,
    decreases t,
{
    if t > 0 {
        lemma_schedule_len(m, base, (t - 1) as nat);
    }
}

/// The first `t` words of the message schedule of the block at `base`.
pub open spec fn schedule(m: Seq<u8>, base: int, t: nat) -> Seq<u32>
    decreases t,
{
    if t == 0 {
        Seq::empty()
    } else {
        let prev = schedule(m, base, (t - 1) as nat);
        let i = t - 1;
        prev.push(
            if i < 16 {
                word_at(m, base + 4 * i)
            } else {
                rotl(prev[i - 3] ^ prev[i - 8] ^ prev[i - 14] ^ prev[i - 16], 1)
            },
        )
    }
}

/// The round function and constant of round `i`.
pub open spec fn round_fk(i: int, b: u32, c: u32, d: u32) -> (u32, u32) {
    if i < 20 {
        ((b & c) | ((!b) & d), 0x5A827999u32)
    } else if i < 40 {
        (b ^ c ^ d, 0x6ED9EBA1u32)
    } else if i < 60 {
        ((b & c) | (b & d) | (c & d), 0x8F1BBCDCu32)
    } else {
        (b ^ c ^ d, 0xCA62C1D6u32)
    }
}

/// The working state after the first `t` rounds over schedule `w`.
pub open spec fn rounds(w: Seq<u32>, s: (u32, u32, u32, u32, u32), t: nat) -> (u32, u32, u32, u32, u32)
    decreases t,
{
    if t == 0 {
        s
    } else {
        let p = rounds(w, s, (t - 1) as nat);
        let i = t - 1;
        let fk = round_fk(i, p.1, p.2, p.3);
        let temp = rotl(p.0, 5).wrapping_add(fk.0).wrapping_add(p.4).wrapping_add(fk.1).wrapping_add(w[i]);
        (temp, p.0, rotl(p.1, 30), p.2, p.3)
    }
}

/// The hash state after the block at `base`.
pub open spec fn compress(h: (u32, u32, u32, u32, u32), m: Seq<u8>, base: int) -> (u32, u32, u32, u32, u32) {
    let r = rounds(schedule(m, base, 80), h, 80);
    (h.0.wrapping_add(r.0), h.1.wrapping_add(r.1), h.2.wrapping_add(r.2), h.3.wrapping_add(r.3), h.4.wrapping_add(r.4))
}

/// The hash state after the first `n` blocks of a padded message.
pub open spec fn sha1_state(m: Seq<u8>, n: nat) -> (u32, u32, u32, u32, u32)
    decreases n,
{
    if n == 0 {
        (0x67452301u32, 0xEFCDAB89u32, 0x98BADCFEu32, 0x10325476u32, 0xC3D2E1F0u32)
    } else {
        compress(sha1_state(m, (n - 1) as nat), m, 64 * (n - 1))
    }
}

/// The SHA-1 digest of `data` (FIPS 180-4).
pub open spec fn sha1_digest(data: Seq<u8>) -> Seq<u8> {
    let m = sha1_padded(data);
    let h = sha1_state(m, m.len() / 64);
    be32(h.0) + be32(h.1) + be32(h.2) + be32(h.3) + be32(h.4)
}

proof fn lemma_padded_len(len: nat)
    ensures
        (len + 1 + pad_zeros(len) + 8) % 64 == 0,
{
}

fn pad_message(data: &[u8]) -> (m: Vec<u8>)
    ensures
        m@ == sha1_padded(data@),
        m@.len() % 64 == 0,
{
    let n = data.len();
    let mut m: Vec<u8> = Vec::new();
    let mut i: usize = 0;
    while i < n
        invariant
            n == data@.len(),
            i <= n,
            m@ == data@.subrange(0, i as int),
        decreases n - i,
    {
        m.push(data[i]);
        i += 1;
    }
    assert(data@.subrange(0, n as int) =~= data@);
    m.push(0x80);
    let r = n % 64;
    let k = if r <= 55 { 55 - r } else { 119 - r };
    let mut j: usize = 0;
    while j < k
        invariant
            j <= k,
            k == pad_zeros(n as nat),
            m@ == data@ + seq![0x80u8] + Seq::new(j as nat, |i: int| 0u8),
        decreases k - j,
    {
        m.push(0);
        j += 1;
        assert(m@ =~= data@ + seq![0x80u8] + Seq::new(j as nat, |i: int| 0u8));
    }
    let bits: u64 = (n as u64).wrapping_mul(8);
    let mut s: usize = 0;
    let ghost before = m@;
    while s < 8
        invariant
            s <= 8,
            m@ == before + be64(bits).subrange(0, s as int),
        decreases 8 - s,
    {
        let shift: u64 = (56 - 8 * s) as u64;
        m.push(((bits >> shift) & 0xff) as u8);
        s += 1;
        assert(m@ =~= before + be64(bits).subrange(0, s as int));
    }
    assert(be64(bits).subrange(0, 8) =~= be64(bits));
    proof { lemma_padded_len(n as nat); }
    m
}

fn word_exec(m: &Vec<u8>, o: usize) -> (w: u32)
    requires
        o + 4 <= m@.len(),
    ensures
        w == word_at(m@, o as int),
{
    let n = m.len();
    assert(o + 4 <= n);
    let a = m[o] as u32;
    let b = m[o + 1] as u32;
    let c = m[o + 2] as u32;
    let d = m[o + 3] as u32;
    assert(a < 256 && b < 256 && c < 256 && d < 256);
    assert(a * 0x100_0000 <= 255 * 0x100_0000 && b * 0x1_0000 <= 255 * 0x1_0000 && c * 0x100 <= 255 * 0x100)
        by (nonlinear_arith)
        requires
            a < 256,
            b < 256,
            c < 256,
    ;
    a * 0x100_0000 + b * 0x1_0000 + c * 0x100 + d
}

fn schedule_exec(m: &Vec<u8>, base: usize) -> (w: Vec<u32>)
    requires
        base + 64 <= m@.len(),
    ensures
        w@ == schedule(m@, base as int, 80),
{
    let mut w: Vec<u32> = Vec::new();
    let mut t: usize = 0;
    let ghost len = m.len();
    while t < 80
        invariant
            base + 64 <= m@.len(),
            m@.len() <= usize::MAX,
            t <= 80,
            w@.len() == t,
            w@ == schedule(m@, base as int, t as nat),
        decreases 80 - t,
    {
        let x = if t < 16 {
            word_exec(m, base + 4 * t)
        } else {
            rotl_exec(w[t - 3] ^ w[t - 8] ^ w[t - 14] ^ w[t - 16], 1)
        };
        w.push(x);
        t += 1;
        proof { lemma_schedule_len(m@, base as int, t as nat); }
    }
    w
}

fn round_fk_exec(i: usize, b: u32, c: u32, d: u32) -> (r: (u32, u32))
    ensures
        r == round_fk(i as int, b, c, d),
{
    if i < 20 {
        ((b & c) | ((!b) & d), 0x5A827999u32)
    } else if i < 40 {
        (b ^ c ^ d, 0x6ED9EBA1u32)
    } else if i < 60 {
        ((b & c) | (b & d) | (c & d), 0x8F1BBCDCu32)
    } else {
        (b ^ c ^ d, 0xCA62C1D6u32)
    }
}

fn compress_exec(h: (u32, u32, u32, u32, u32), m: &Vec<u8>, base: usize) -> (r: (u32, u32, u32, u32, u32))
    requires
        base + 64 <= m@.len(),
    ensures
        r == compress(h, m@, base as int),
{
    let w = schedule_exec(m, base);
    proof { lemma_schedule_len(m@, base as int, 80); }
    let mut s = h;
    let mut t: usize = 0;
    while t < 80
        invariant
            w@.len() == 80,
            t <= 80,
            s == rounds(w@, h, t as nat),
        decreases 80 - t,
    {
        let fk = round_fk_exec(t, s.1, s.2, s.3);
        let temp = rotl_exec(s.0, 5).wrapping_add(fk.0).wrapping_add(s.4).wrapping_add(fk.1).wrapping_add(w[t]);
        s = (temp, s.0, rotl_exec(s.1, 30), s.2, s.3);
        t += 1;
    }
    (h.0.wrapping_add(s.0), h.1.wrapping_add(s.1), h.2.wrapping_add(s.2), h.3.wrapping_add(s.3), h.4.wrapping_add(s.4))
}

fn be32_exec(x: u32) -> (b: (u8, u8, u8, u8))
    ensures
        seq![b.0, b.1, b.2, b.3] == be32(x),
{
    ((x >> 24u32) as u8, ((x >> 16u32) & 0xff) as u8, ((x >> 8u32) & 0xff) as u8, (x & 0xff) as u8)
}

/// The SHA-1 digest of `data`, as the handshake needs it.
pub fn sha1(data: &[u8]) -> (out: [u8; 20])
    ensures
        out@ == sha1_digest(data@),
{
    let m = pad_message(data);
    let nb = m.len() / 64;
    let mut h: (u32, u32, u32, u32, u32) = (0x67452301u32, 0xEFCDAB89u32, 0x98BADCFEu32, 0x10325476u32, 0xC3D2E1F0u32);
    let mut b: usize = 0;
    while b < nb
        invariant
            nb == m@.len() / 64,
            m@.len() <= usize::MAX,
            b <= nb,
            h == sha1_state(m@, b as nat),
        decreases nb - b,
    {
        assert(64 * b + 64 <= m@.len()) by (nonlinear_arith)
            requires
                b < nb,
                nb == m@.len() / 64,
        ;
        h = compress_exec(h, &m, 64 * b);
        b += 1;
    }
    let x0 = be32_exec(h.0);
    let x1 = be32_exec(h.1);
    let x2 = be32_exec(h.2);
    let x3 = be32_exec(h.3);
    let x4 = be32_exec(h.4);
    let out: [u8; 20] = [x0.0, x0.1, x0.2, x0.3, x1.0, x1.1, x1.2, x1.3, x2.0, x2.1, x2.2, x2.3,
        x3.0, x3.1, x3.2, x3.3, x4.0, x4.1, x4.2, x4.3];
    assert(out@ =~= sha1_digest(data@));
    out
}


/// The GUID that the handshake appends to the client's key.
pub const WS_GUID: &'static str = "258EAFA5-E914-47DA-95CA-C5AB0DC85B11";

/// The `Sec-WebSocket-Accept` value for a client key: the Base64 of the SHA-1
/// of the trimmed key's bytes followed by the GUID.
pub open spec fn accept_value(key: Seq<char>) -> Seq<char> {
    encoded(sha1_digest(encode_utf8(trim_ws(key)) + encode_utf8(WS_GUID@)))
}

/// Computes the `Sec-WebSocket-Accept` value (see `accept_value`).
pub fn compute_accept(key: &str) -> (r: String)
    ensures
        r@ == accept_value(key@),
{
    let k = trim_str(key);
    let kb = k.as_str().as_bytes();
    let gb = WS_GUID.as_bytes();
    let mut concat: Vec<u8> = Vec::new();
    let mut i: usize = 0;
    while i < kb.len()
        invariant
            i <= kb@.len(),
            concat@ == kb@.subrange(0, i as int),
        decreases kb@.len() - i,
    {
        concat.push(kb[i]);
        i += 1;
    }
    assert(kb@.subrange(0, kb@.len() as int) =~= kb@);
    let mut j: usize = 0;
    while j < gb.len()
        invariant
            j <= gb@.len(),
            concat@ == kb@ + gb@.subrange(0, j as int),
        decreases gb@.len() - j,
    {
        concat.push(gb[j]);
        j += 1;
        assert(concat@ =~= kb@ + gb@.subrange(0, j as int));
    }
    assert(gb@.subrange(0, gb@.len() as int) =~= gb@);
    let digest = sha1(concat.as_slice());
    encode(&digest)
}

/// A message received on a WebSocket.
#[derive(Debug, PartialEq, Eq)]
pub enum WsMessage {
    Text(String),
    Binary(Vec<u8>),
    Ping(Vec<u8>),
    Pong(Vec<u8>),
    Close,
}

/// The header of a final frame: FIN with the opcode's low four bits, then
/// the payload length in 7 bits, or 126 and 16 bits, or 127 and 64 bits.
pub open spec fn frame_header(opcode: u8, len: nat) -> Seq<u8> {
    let first = (0x80u8 | (opcode & 0x0Fu8)) as u8;
    if len <= 125 {
        seq![first, len as u8]
    } else if len <= 65535 {
        seq![first, 126u8, (len / 256) as u8, (len % 256) as u8]
    } else {
        seq![first, 127u8] + be64(len as u64)
    }
}

/// The header of a final frame (see `frame_header`).
pub fn encode_frame_header(opcode: u8, len: usize) -> (h: Vec<u8>)
    ensures
        h@ == frame_header(opcode, len as nat),
{
    let mut h: Vec<u8> = Vec::new();
    h.push(0x80u8 | (opcode & 0x0Fu8));
    if len <= 125 {
        h.push(len as u8);
    } else if len <= 65535 {
        h.push(126u8);
        h.push((len / 256) as u8);
        h.push((len % 256) as u8);
    } else {
        h.push(127u8);
        let x = len as u64;
        let ghost before = h@;
        let mut s: usize = 0;
        while s < 8
            invariant
                s <= 8,
                h@ == before + be64(x).subrange(0, s as int),
            decreases 8 - s,
        {
            let shift: u64 = (56 - 8 * s) as u64;
            h.push(((x >> shift) & 0xff) as u8);
            s += 1;
            assert(h@ =~= before + be64(x).subrange(0, s as int));
        }
        assert(be64(x).subrange(0, 8) =~= be64(x));
    }
    h
}

/// The first two bytes of a frame, read: the opcode, whether the payload is
/// masked, and the 7-bit length code.
#[derive(Clone, Copy, Debug, PartialEq, Eq, Structural)]
pub struct FrameHead {
    pub opcode: u8,
    pub masked: bool,
    pub len_code: u8,
}

/// Reads the first two bytes of a frame.
pub fn parse_frame_head(b0: u8, b1: u8) -> (h: FrameHead)
    ensures
        h.opcode == b0 % 16,
        h.masked == (b1 >= 128),
        h.len_code == b1 % 128,
{
    FrameHead { opcode: b0 % 16, masked: b1 >= 128, len_code: b1 % 128 }
}

/// How many extended length bytes follow a length code: 2 after 126, 8
/// after 127, none otherwise.
pub open spec fn ext_len_bytes(code: u8) -> nat {
    if code == 126 { 2 } else if code == 127 { 8 } else { 0 }
}

/// The big-endian value of bytes.
pub open spec fn be_value(b: Seq<u8>) -> nat
    decreases b.len(),
{
    if b.len() == 0 { 0 } else { be_value(b.drop_last()) * 256 + (b.last() as nat) }
}

/// The payload length of a frame from its length code and the extended
/// length bytes that followed it.
pub fn payload_len(code: u8, ext: &[u8]) -> (n: u64)
    requires
        code < 128,
        ext@.len() == ext_len_bytes(code),
    ensures
        n == if code < 126 { code as nat } else { be_value(ext@) },
{
    if code < 126 {
        return code as u64;
    }
    let mut n: u64 = 0;
    let mut i: usize = 0;
    assert(ext@.subrange(0, 0) =~= Seq::<u8>::empty());
    while i < ext.len()
        invariant
            i <= ext@.len() <= 8,
            n == be_value(ext@.subrange(0, i as int)),
            n < pow256(i as nat),
        decreases ext@.len() - i,
    {
        assert(ext@.subrange(0, i + 1).drop_last() =~= ext@.subrange(0, i as int));
        proof { lemma_pow256_bound(i as nat); }
        assert(n * 256 + 255 < pow256((i + 1) as nat)) by (nonlinear_arith)
            requires
                n < pow256(i as nat),
                pow256((i + 1) as nat) == pow256(i as nat) * 256,
        ;
        n = n * 256 + ext[i] as u64;
        i += 1;
    }
    assert(ext@.subrange(0, ext@.len() as int) =~= ext@);
    n
}

/// `256` to the power `k`.
pub open spec fn pow256(k: nat) -> nat
    decreases k,
{
    if k == 0 { 1 } else { pow256((k - 1) as nat) * 256 }
}

proof fn lemma_pow256_bound(k: nat)
    requires
        k <= 7,
    ensures
        pow256(k + 1) == pow256(k) * 256,
        pow256(k + 1) <= 0x1_0000_0000_0000_0000,
{
    assert(pow256(0) == 1);
    assert(pow256(1) == 0x100);
    assert(pow256(2) == 0x1_0000);
    assert(pow256(3) == 0x100_0000);
    assert(pow256(4) == 0x1_0000_0000);
    assert(pow256(5) == 0x100_0000_0000);
    assert(pow256(6) == 0x1_0000_0000_0000);
    assert(pow256(7) == 0x100_0000_0000_0000);
    assert(pow256(8) == 0x1_0000_0000_0000_0000);
    if k == 0 {
    } else if k == 1 {
    } else if k == 2 {
    } else if k == 3 {
    } else if k == 4 {
    } else if k == 5 {
    } else if k == 6 {
    } else {
        assert(k == 7);
    }
}

/// Unmasks a payload: byte `i` is XORed with `mask[i % 4]`.
pub fn apply_mask(payload: &mut Vec<u8>, mask: [u8; 4])
    ensures
        final(payload)@.len() == old(payload)@.len(),
        forall|i: int| 0 <= i < old(payload)@.len() ==> #[trigger] final(payload)@[i] == old(payload)@[i] ^ mask@[i % 4],
{
    let n = payload.len();
    let mut i: usize = 0;
    while i < n
        invariant
            n == payload@.len() == old(payload)@.len(),
            i <= n,
            forall|k: int| 0 <= k < i ==> #[trigger] payload@[k] == old(payload)@[k] ^ mask@[k % 4],
            forall|k: int| i <= k < n ==> #[trigger] payload@[k] == old(payload)@[k],
        decreases n - i,
    {
        let b = payload[i] ^ mask[i % 4];
        payload.set(i, b);
        i += 1;
    }
}

/// What a received frame asks of the reader: a message to hand on, a pong to
/// send back (for a ping), or nothing (pongs and unknown opcodes).
#[derive(Debug, PartialEq, Eq)]
pub enum FrameAction {
    Deliver(WsMessage),
    ReplyPong(Vec<u8>),
    Ignore,
}

/// What a frame with this opcode and (unmasked) payload asks of the reader:
/// text (decoded, invalid UTF-8 replaced) for 1, binary for 2, close for 8,
/// a pong with the same payload for 9, nothing otherwise.
pub fn frame_action(opcode: u8, payload: Vec<u8>) -> (a: FrameAction)
    ensures
        opcode == 1 ==> (a matches FrameAction::Deliver(WsMessage::Text(t)) && t@ == utf8_lossy(payload@)),
        opcode == 2 ==> (a matches FrameAction::Deliver(WsMessage::Binary(b)) && b@ == payload@),
        opcode == 8 ==> a matches FrameAction::Deliver(WsMessage::Close),
        opcode == 9 ==> (a matches FrameAction::ReplyPong(b) && b@ == payload@),
        !(opcode == 1 || opcode == 2 || opcode == 8 || opcode == 9) ==> a matches FrameAction::Ignore,
{
    if opcode == 1 {
        FrameAction::Deliver(WsMessage::Text(lossy_text(payload.as_slice())))
    } else if opcode == 2 {
        FrameAction::Deliver(WsMessage::Binary(payload))
    } else if opcode == 8 {
        FrameAction::Deliver(WsMessage::Close)
    } else if opcode == 9 {
        FrameAction::ReplyPong(payload)
    } else {
        FrameAction::Ignore
    }
}

} // verus!
