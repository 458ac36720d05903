//! LZ4 block codec and frame layout.

use vstd::prelude::*;
use crate::flate::{copy_back, copy_match, le16};

verus! {


/// The frame magic number.
pub const MAGIC: u32 = 0x184d2204;
/// The shortest match; a token stores the match length minus this.
pub const MIN_MATCH: u32 = 4;
/// Bits of the hash used by the encoder's match finder.
pub const HASH_LOG: u32 = 17;
/// The number of entries of the encoder's hash table.
pub const HASH_TABLE_SIZE: usize = 131072;
/// Bytes searched without a match before the encoder's step grows.
pub const INCOMPRESSIBLE: u64 = 128;
/// Offset added to stored positions, so that an unfilled table entry is far
/// out of reach.
pub const UNINITHASH: u32 = 0x88888888;
/// The largest input the encoder accepts.
pub const MAX_INPUT_SIZE: u32 = 0x7e000000;

/// What can go wrong while decoding an LZ4 block or frame.
#[derive(PartialEq, Eq, Structural, Debug, Clone, Copy)]
pub enum Lz4Error {
    /// The input ended inside a sequence or a header.
    UnexpectedEof,
    /// A match refers to no byte, or to a byte before the output.
    InvalidDistance,
    /// The frame does not start with the magic number.
    InvalidMagic,
    /// The frame's version bits are not `01`.
    InvalidVersion,
    /// The frame asks for a preset dictionary.
    PresetDictionary,
    /// A block decodes to more bytes than memory can address.
    OutputTooLarge,
    /// The frame names a maximum block size that is not one of 64 KiB,
    /// 256 KiB, 1 MiB or 4 MiB, or a block is longer than it.
    UnsupportedBlockSize,
}

/// The maximum block size that a frame's BD byte names, or 0 for the
/// indices that name none.
pub open spec fn max_block_size(bd: u8) -> int {
    let k = (bd / 16) % 8;
    if k == 4 {
        65536
    } else if k == 5 {
        262144
    } else if k == 6 {
        1048576
    } else if k == 7 {
        4194304
    } else {
        0
    }
}

/// An extended length: `acc` plus the bytes from `p` on, as long as they
/// are 255, plus the first byte that is not. Gives the length and the
/// position after it.
pub open spec fn ext_len(input: Seq<u8>, p: int, acc: nat) -> Option<(nat, int)>
    decreases input.len() - p,
{
    if p < 0 || p >= input.len() {
        None
    } else if input[p] == 255 {
        ext_len(input, p + 1, acc + 255)
    } else {
        Some((acc + input[p] as nat, p + 1))
    }
}

/// A token nibble, extended when it is 15.
pub open spec fn read_len(input: Seq<u8>, p: int, nibble: nat) -> Option<(nat, int)> {
    if nibble == 15 {
        ext_len(input, p, 15)
    } else {
        Some((nibble, p))
    }
}

/// What decoding the sequences of a block from byte `cur` on appends to `out`,
/// or `None` when they are malformed.
pub open spec fn block_decode(input: Seq<u8>, cur: int, out: Seq<u8>) -> Option<Seq<u8>>
    decreases input.len() - cur,
{
    if cur < 0 || cur >= input.len() {
        Some(out)
    } else {
        let token = input[cur];
        match read_len(input, cur + 1, (token / 16) as nat) {
            None => None,
            Some((lit, p1)) => if p1 + lit > input.len() {
                None
            } else {
                let o1 = out + input.subrange(p1, p1 + lit);
                let c1 = p1 + lit;
                if c1 == input.len() {
                    Some(o1)
                } else if c1 + 2 > input.len() {
                    None
                } else {
                    let back = le16(input, c1);
                    if back == 0 || back > o1.len() {
                        None
                    } else {
                        match read_len(input, c1 + 2, (token % 16) as nat) {
                            None => None,
                            Some((m, p2)) => if p2 <= cur || p2 > input.len() {
                                None
                            } else {
                                block_decode(input, p2, copy_back(o1, back, m + 4))
                            },
                        }
                    }
                }
            },
        }
    }
}

proof fn lemma_ext_len_pos(input: Seq<u8>, p: int, acc: nat)
    ensures
        ext_len(input, p, acc) matches Some((n, q)) ==> p < q <= input.len() && acc <= n <= acc + 255 * (q - p),
    decreases input.len() - p,
{
    if 0 <= p < input.len() && input[p] == 255 {
        lemma_ext_len_pos(input, p + 1, acc + 255);
    }
}

/// The largest block `decode_block` reads: the most a block-length field
/// can give.
pub const MAX_BLOCK_SIZE: usize = 0x7fffffff;

/// Reads a length whose token nibble is `nibble`.
fn read_length(input: &[u8], p: usize, nibble: u8) -> (r: Option<(u64, usize)>)
    requires
        nibble < 16,
        p <= input@.len() <= MAX_BLOCK_SIZE,
    ensures
        r matches Some((n, q)) ==> read_len(input@, p as int, nibble as nat) == Some((n as nat, q as int)),
        r is None ==> read_len(input@, p as int, nibble as nat) is None,
{
    if nibble != 15 {
        return Some((nibble as u64, p));
    }
    let mut acc: u64 = 15;
    let mut q: usize = p;
    while q < input.len() && input[q] == 255
        invariant
            p <= q <= input@.len() <= MAX_BLOCK_SIZE,
            acc <= 15 + 255 * (q - p),
            ext_len(input@, q as int, acc as nat) == ext_len(input@, p as int, 15),
        decreases input.len() - q,
    {
        acc = acc + 255;
        q = q + 1;
    }
    if q >= input.len() {
        return None;
    }
    Some((acc + input[q] as u64, q + 1))
}

proof fn lemma_block_decode_grows(input: Seq<u8>, cur: int, out: Seq<u8>)
    ensures
        block_decode(input, cur, out) matches Some(o) ==> o.len() >= out.len(),
    decreases input.len() - cur,
{
    if 0 <= cur < input.len() {
        let token = input[cur];
        match read_len(input, cur + 1, (token / 16) as nat) {
            None => {},
            Some((lit, p1)) => if p1 + lit <= input.len() {
                let o1 = out + input.subrange(p1, p1 + lit);
                let c1 = p1 + lit;
                if c1 != input.len() && c1 + 2 <= input.len() {
                    let back = le16(input, c1);
                    if !(back == 0 || back > o1.len()) {
                        match read_len(input, c1 + 2, (token % 16) as nat) {
                            None => {},
                            Some((m, p2)) => if !(p2 <= cur || p2 > input.len()) {
                                crate::flate::lemma_copy_back_len(o1, back, m + 4);
                                lemma_block_decode_grows(input, p2, copy_back(o1, back, m + 4));
                            },
                        }
                    }
                }
            },
        }
    }
}

/// Decodes one LZ4 block into `output`, which it replaces. Gives the number
/// of bytes decoded. A block that would decode to more bytes than memory can
/// address fails with `OutputTooLarge`.
pub fn decode_block(input: &[u8], output: &mut Vec<u8>) -> (r: Result<usize, Lz4Error>)
    requires
        input@.len() <= MAX_BLOCK_SIZE,
    ensures
        block_decode(input@, 0, seq![]) matches Some(o) ==> (o.len() <= usize::MAX ==> r == Ok::<usize, Lz4Error>(
            o.len() as usize,
        ) && final(output)@ == o),
        block_decode(input@, 0, seq![]) is None ==> r is Err,
        block_decode(input@, 0, seq![]) matches Some(o) ==> (o.len() > usize::MAX ==> r is Err),
{
    output.clear();
    let n = input.len();
    let mut cur: usize = 0;
    while cur < n
        invariant
            n == input@.len() <= MAX_BLOCK_SIZE,
            cur <= n,
            block_decode(input@, cur as int, output@) == block_decode(input@, 0, seq![]),
        decreases n - cur,
    {
        let token = input[cur];
        proof {
            assert(token >> 4 == token / 16 && token / 16 < 16) by (bit_vector);
            assert(token & 0xf == token % 16) by (bit_vector);
        }
        let (lit64, p1) = match read_length(input, cur + 1, token >> 4) {
            Some(v) => v,
            None => {
                return Err(Lz4Error::UnexpectedEof);
            },
        };
        proof {
            lemma_ext_len_pos(input@, cur + 1, 15);
        }
        if lit64 > (n - p1) as u64 {
            return Err(Lz4Error::UnexpectedEof);
        }
        let lit = lit64 as usize;
        let ghost o0 = output@;
        let mut k: usize = 0;
        while k < lit
            invariant
                k <= lit,
                p1 + lit <= n == input@.len(),
                output@ == o0 + input@.subrange(p1 as int, p1 + k),
            decreases lit - k,
        {
            output.push(input[p1 + k]);
            proof {
                assert(o0 + input@.subrange(p1 as int, p1 + k + 1) =~= (o0 + input@.subrange(p1 as int, p1 + k)).push(
                    input@[p1 + k],
                ));
            }
            k = k + 1;
        }
        let c1 = p1 + lit;
        if c1 == n {
            return Ok(output.len());
        }
        if n - c1 < 2 {
            return Err(Lz4Error::UnexpectedEof);
        }
        let back = input[c1] as usize + 256 * input[c1 + 1] as usize;
        if back == 0 || back > output.len() {
            return Err(Lz4Error::InvalidDistance);
        }
        let (m, p2) = match read_length(input, c1 + 2, token & 0xf) {
            Some(v) => v,
            None => {
                return Err(Lz4Error::UnexpectedEof);
            },
        };
        proof {
            lemma_ext_len_pos(input@, c1 + 2, 15);
        }
        if m > (usize::MAX - 4) as u64 {
            proof {
                let o1 = output@;
                crate::flate::lemma_copy_back_len(o1, back as int, (m + 4) as nat);
                lemma_block_decode_grows(input@, p2 as int, copy_back(o1, back as int, (m + 4) as nat));
            }
            return Err(Lz4Error::OutputTooLarge);
        }
        copy_match(output, back, (m + 4) as usize);
        cur = p2;
    }
    assert(block_decode(input@, cur as int, output@) == Some(output@));
    Ok(output.len())
}

/// The largest size that encoding `size` bytes can give, or `None` when
/// the input is too large to encode.
pub fn compression_bound(size: u32) -> (r: Option<u32>)
    ensures
        size > MAX_INPUT_SIZE ==> r is None,
        size <= MAX_INPUT_SIZE ==> r == Some((size + size / 255 + 20) as u32),
{
    if size > MAX_INPUT_SIZE {
        None
    } else {
        Some(size + (size / 255) + 16 + 4)
    }
}

/// The four bytes at `pos`, read as a little-endian integer.
pub open spec fn le32(input: Seq<u8>, pos: int) -> int {
    input[pos] as int + input[pos + 1] as int * 0x100 + input[pos + 2] as int * 0x10000 + input[pos + 3] as int
        * 0x1000000
}

/// Loads the four bytes at `pos` as a little-endian integer.
fn seq_at(input: &[u8], pos: usize) -> (r: u32)
    requires
        pos + 3 < input@.len(),
    ensures
        r == le32(input@, pos as int),
{
    let b0 = input[pos] as u32;
    let b1 = input[pos + 1] as u32;
    let b2 = input[pos + 2] as u32;
    let b3 = input[pos + 3] as u32;
    assert(b0 < 256 && b1 < 256 && b2 < 256 && b3 < 256 ==> (b3 << 24) | (b2 << 16) | (b1 << 8) | b0 == b0
        + b1 * 0x100 + b2 * 0x10000 + b3 * 0x1000000) by (bit_vector);
    (b3 << 24) | (b2 << 16) | (b1 << 8) | b0
}

/// The bytes that extend a length field whose nibble is full: `n` is what
/// remains after the nibble's fifteen.
pub open spec fn ext_bytes(n: nat) -> Seq<u8>
    decreases n,
{
    if n < 255 {
        seq![n as u8]
    } else {
        seq![255u8] + ext_bytes((n - 255) as nat)
    }
}

/// The token byte for a literal run of `lit` bytes and a match of `ml + 4`.
pub open spec fn token_byte(lit: nat, ml: nat) -> u8 {
    ((if lit >= 15 { 15 } else { lit }) * 16 + if ml >= 15 { 15 } else { ml }) as u8
}

/// The token, the literal length's extension and the literals of a sequence.
pub open spec fn literal_part(input: Seq<u8>, pos: int, lit: nat, ml: nat) -> Seq<u8> {
    seq![token_byte(lit, ml)] + (if lit >= 15 { ext_bytes((lit - 15) as nat) } else { seq![] })
        + input.subrange(pos, pos + lit)
}

/// Appends the extension bytes of a length whose nibble is full.
fn write_ext(output: &mut Vec<u8>, n: u64)
    ensures
        final(output)@ == old(output)@ + ext_bytes(n as nat),
{
    let mut rest = n;
    let ghost o0 = old(output)@;
    while rest > 254
        invariant
            o0 + ext_bytes(n as nat) == output@ + ext_bytes(rest as nat),
        decreases rest,
    {
        let ghost before = output@;
        output.push(255u8);
        proof {
            assert(ext_bytes(rest as nat) == seq![255u8] + ext_bytes((rest - 255) as nat));
            assert(output@ + ext_bytes((rest - 255) as nat) =~= before + (seq![255u8] + ext_bytes(
                (rest - 255) as nat,
            )));
        }
        rest = rest - 255;
    }
    let ghost before = output@;
    output.push(rest as u8);
    proof {
        assert(output@ =~= before + ext_bytes(rest as nat));
    }
}

/// Appends the token, the literal length's extension, and the `len`
/// literals from `pos`; the token's low nibble is that of a match of
/// `ml_len + 4` bytes.
fn write_literals(output: &mut Vec<u8>, input: &[u8], len: u64, ml_len: u64, pos: u64)
    requires
        pos + len <= input@.len() <= MAX_INPUT_SIZE,
    ensures
        final(output)@ == old(output)@ + literal_part(input@, pos as int, len as nat, ml_len as nat),
{
    let code: u8 = if len >= 15 { 15 } else { len as u8 };
    let low: u8 = if ml_len >= 15 { 15 } else { ml_len as u8 };
    output.push(code * 16 + low);
    let ghost o1 = output@;
    if code == 15 {
        write_ext(output, len - 15);
    }
    let ghost o2 = output@;
    let mut i: u64 = 0;
    while i < len
        invariant
            i <= len,
            pos + len <= input@.len() <= MAX_INPUT_SIZE,
            output@ == o2 + input@.subrange(pos as int, pos + i),
        decreases len - i,
    {
        output.push(input[(pos + i) as usize]);
        proof {
            assert(o2 + input@.subrange(pos as int, pos + i + 1) =~= (o2 + input@.subrange(pos as int, pos + i)).push(
                input@[pos + i],
            ));
        }
        i = i + 1;
    }
    assert(output@ =~= old(output)@ + literal_part(input@, pos as int, len as nat, ml_len as nat));
}

/// The four bytes under two equal little-endian loads are equal.
proof fn lemma_le32_bytes(input: Seq<u8>, p: int, r: int)
    requires
        0 <= p,
        0 <= r,
        p + 3 < input.len(),
        r + 3 < input.len(),
        le32(input, p) == le32(input, r),
    ensures
        forall|k: int| 0 <= k < 4 ==> #[trigger] input[p + k] == input[r + k],
{
    let a0 = input[p] as u32;
    let a1 = input[p + 1] as u32;
    let a2 = input[p + 2] as u32;
    let a3 = input[p + 3] as u32;
    let b0 = input[r] as u32;
    let b1 = input[r + 1] as u32;
    let b2 = input[r + 2] as u32;
    let b3 = input[r + 3] as u32;
    assert(a0 == b0 && a1 == b1 && a2 == b2 && a3 == b3) by (bit_vector)
        requires
            a0 < 256 && a1 < 256 && a2 < 256 && a3 < 256,
            b0 < 256 && b1 < 256 && b2 < 256 && b3 < 256,
            a0 + a1 * 0x100 + a2 * 0x10000 + a3 * 0x1000000 == b0 + b1 * 0x100 + b2 * 0x10000 + b3 * 0x1000000,
    ;
    assert forall|k: int| 0 <= k < 4 implies #[trigger] input[p + k] == input[r + k] by {
        if k == 0 {
        } else if k == 1 {
        } else if k == 2 {
        } else {
        }
    }
}

/// Where a hash-table entry says a position was seen.
pub open spec fn slot_pos(v: u32) -> int {
    ((v as int + UNINITHASH as int) % 0x1_0000_0000)
}

/// Every decoding of `out` followed by anything reaches the end of `out`
/// with the input's first `anchor` bytes decoded.
pub open spec fn decodes_prefix(out: Seq<u8>, input: Seq<u8>, anchor: int) -> bool {
    forall|rest: Seq<u8>| #[trigger] block_decode(out + rest, 0, seq![]) == block_decode(
        out + rest,
        out.len() as int,
        input.take(anchor),
    )
}

/// Extends a match found at `p0` with the bytes at `r`, as far as the bytes
/// agree and the end of the input stays five bytes away.
fn extend_match(input: &[u8], p0: u64, r: u64) -> (end: u64)
    requires
        r < p0,
        p0 + 12 <= input@.len() <= MAX_INPUT_SIZE,
        forall|k: int| 0 <= k < 4 ==> #[trigger] input@[p0 + k] == input@[r + k],
    ensures
        p0 + 4 <= end <= input@.len() - 5,
        forall|k: int| 0 <= k < end - p0 ==> #[trigger] input@[p0 + k] == input@[r + k],
{
    let len = input.len() as u64;
    let mut pos = p0 + 4;
    let mut rr = r + 4;
    while pos < len - 5 && input[pos as usize] == input[rr as usize]
        invariant
            rr < pos <= len - 5,
            p0 + 4 <= pos,
            rr == r + (pos - p0),
            r < p0,
            len == input@.len(),
            forall|k: int| 0 <= k < pos - p0 ==> #[trigger] input@[p0 + k] == input@[r + k],
        decreases len - pos,
    {
        pos = pos + 1;
        rr = rr + 1;
    }
    pos
}

/// Appends the sequence for literals `input[anchor..p0]` and the match
/// `input[p0..end]`, which repeats the bytes from `r`.
fn emit_sequence(output: &mut Vec<u8>, input: &[u8], anchor: u64, p0: u64, r: u64, end: u64)
    requires
        input@.len() <= MAX_INPUT_SIZE,
        anchor <= p0,
        r < p0,
        p0 - r < 65536,
        p0 + 4 <= end <= input@.len(),
        forall|k: int| 0 <= k < end - p0 ==> #[trigger] input@[p0 + k] == input@[r + k],
        decodes_prefix(old(output)@, input@, anchor as int),
    ensures
        decodes_prefix(final(output)@, input@, end as int),
        255 * final(output)@.len() <= 255 * old(output)@.len() + 256 * (end - anchor),
{
    let ml = end - p0 - 4;
    let back = p0 - r;
    let ghost before = output@;
    write_literals(output, input, p0 - anchor, ml, anchor);
    let b0 = (back & 0xff) as u8;
    let b1 = (back >> 8u64) as u8;
    assert((back & 0xff) == back % 256 && (back >> 8u64) == back / 256) by (bit_vector)
        requires
            back < 65536,
    ;
    output.push(b0);
    output.push(b1);
    if ml >= 15 {
        write_ext(output, ml - 15);
    }
    proof {
        let ms = match_seq(input@, anchor as int, p0 as int, back as int, ml as nat);
        assert(output@ =~= before + ms);
        lemma_prefix_step(before, input@, anchor as int, p0 as int, r as int, ml as nat);
        lemma_match_seq_len(input@, anchor as int, p0 as int, back as int, ml as nat);
    }
}

proof fn lemma_ext_weight(x: nat)
    ensures
        255 * ext_bytes(x).len() <= x + 255,
{
    lemma_ext_bytes_len(x);
    assert(255 * (x / 255) <= x) by (nonlinear_arith);
}

proof fn lemma_literal_len(input: Seq<u8>, a: int, lit: nat, ml: nat)
    requires
        0 <= a,
        a + lit <= input.len(),
    ensures
        255 * literal_part(input, a, lit, ml).len() <= 256 * lit + 495,
        255 * literal_part(input, a, lit, ml).len() <= 256 * lit + 255 + (if lit >= 15 { 240int } else { 0int }),
{
    let e: int = if lit >= 15 { ext_bytes((lit - 15) as nat).len() as int } else { 0 };
    assert(input.subrange(a, a + lit).len() == lit);
    assert(literal_part(input, a, lit, ml).len() == 1 + e + lit);
    if lit >= 15 {
        lemma_ext_weight((lit - 15) as nat);
    }
}

proof fn lemma_match_seq_len(input: Seq<u8>, anchor: int, p0: int, back: int, ml: nat)
    requires
        0 <= anchor <= p0 <= input.len(),
    ensures
        255 * match_seq(input, anchor, p0, back, ml).len() <= 256 * (p0 - anchor + ml + 4),
{
    let lit = (p0 - anchor) as nat;
    lemma_literal_len(input, anchor, lit, ml);
    let tail: Seq<u8> = if ml >= 15 { ext_bytes((ml - 15) as nat) } else { seq![] };
    assert(match_seq(input, anchor, p0, back, ml).len() == literal_part(input, anchor, lit, ml).len() + 2
        + tail.len());
    if ml >= 15 {
        lemma_ext_weight((ml - 15) as nat);
    }
}

proof fn lemma_prefix_step(before: Seq<u8>, input: Seq<u8>, anchor: int, p0: int, r: int, ml: nat)
    requires
        0 <= anchor <= p0,
        0 <= r < p0,
        p0 - r < 65536,
        p0 + ml + 4 <= input.len(),
        forall|k: int| 0 <= k < ml + 4 ==> #[trigger] input[p0 + k] == input[r + k],
        decodes_prefix(before, input, anchor),
    ensures
        decodes_prefix(before + match_seq(input, anchor, p0, p0 - r, ml), input, p0 + ml + 4),
{
    let ms = match_seq(input, anchor, p0, p0 - r, ml);
    let out = before + ms;
    assert forall|rest: Seq<u8>| #[trigger] block_decode(out + rest, 0, seq![]) == block_decode(
        out + rest,
        out.len() as int,
        input.take(p0 + ml + 4),
    ) by {
        let q = out + rest;
        assert(before + (ms + rest) =~= q);
        assert(block_decode(before + (ms + rest), 0, seq![]) == block_decode(
            before + (ms + rest),
            before.len() as int,
            input.take(anchor),
        ));
        assert(q.subrange(before.len() as int, (before.len() + ms.len()) as int) =~= ms);
        lemma_match_step(q, before.len() as int, input, anchor, p0, r, ml);
    }
}

/// Appends the last sequence: the literals from `anchor` to the end.
fn emit_last(output: &mut Vec<u8>, input: &[u8], anchor: u64)
    requires
        anchor <= input@.len() <= MAX_INPUT_SIZE,
        decodes_prefix(old(output)@, input@, anchor as int),
    ensures
        block_decode(final(output)@, 0, seq![]) == Some(input@),
        final(output)@.len() > 0,
        255 * final(output)@.len() <= 255 * old(output)@.len() + 256 * (input@.len() - anchor) + 495,
{
    let ghost before = output@;
    write_literals(output, input, input.len() as u64 - anchor, 0, anchor);
    proof {
        let f = literal_part(input@, anchor as int, (input@.len() - anchor) as nat, 0);
        assert(output@ =~= before + f);
        assert(block_decode(before + f, 0, seq![]) == block_decode(before + f, before.len() as int, input@.take(anchor as int)));
        assert((before + f).subrange(before.len() as int, (before + f).len() as int) =~= f);
        lemma_final_step(before + f, before.len() as int, input@, anchor as int);
        lemma_literal_len(input@, anchor as int, (input@.len() - anchor) as nat, 0);
    }
}

/// Encodes `input` as one LZ4 block into `output`, which it replaces; gives
/// the size of the block. Decoding the block gives the input back. An input
/// larger than `MAX_INPUT_SIZE` gives 0 and leaves `output` alone.
pub fn encode_block(input: &[u8], output: &mut Vec<u8>) -> (r: usize)
    ensures
        input@.len() > MAX_INPUT_SIZE ==> r == 0 && final(output)@ == old(output)@,
        input@.len() <= MAX_INPUT_SIZE ==> r == final(output)@.len() && r > 0,
        input@.len() <= MAX_INPUT_SIZE ==> block_decode(final(output)@, 0, seq![]) == Some(input@),
        input@.len() <= MAX_INPUT_SIZE ==> r <= input@.len() + input@.len() / 255 + 20,
{
    if input.len() > MAX_INPUT_SIZE as usize {
        return 0;
    }
    output.clear();
    let len = input.len() as u64;
    let mut table: Vec<u32> = vec![0u32; HASH_TABLE_SIZE];
    let mut pos: u64 = 0;
    let mut anchor: u64 = 0;
    let mut step: u64 = 1;
    let mut limit: u64 = INCOMPRESSIBLE;
    proof {
        assert forall|rest: Seq<u8>| #[trigger] block_decode(output@ + rest, 0, seq![]) == block_decode(
            output@ + rest,
            output@.len() as int,
            input@.take(0),
        ) by {
            assert(input@.take(0) =~= Seq::<u8>::empty());
            assert(output@ + rest =~= rest);
        }
    }
    loop
        invariant
            len == input@.len() <= MAX_INPUT_SIZE,
            table@.len() == HASH_TABLE_SIZE,
            1 <= step <= limit <= 2 * len + 128,
            anchor + step <= pos + 1,
            pos < len + step,
            forall|h: int| 0 <= h < HASH_TABLE_SIZE ==> {
                let q = slot_pos(#[trigger] table@[h]);
                q == UNINITHASH || q + step < pos + 1
            },
            decodes_prefix(output@, input@, anchor as int),
            255 * output@.len() <= 256 * anchor,
        decreases (len + step) - pos, step,
    {
        if pos + 12 > len {
            emit_last(output, input, anchor);
            proof {
                let n = len as int;
                let o = output@.len() as int;
                assert(o <= n + n / 255 + 20) by (nonlinear_arith)
                    requires
                        255 * o <= 256 * n + 495,
                        n >= 0,
                ;
            }
            return output.len();
        }
        let seq = seq_at(input, pos as usize);
        let hash = (seq.wrapping_mul(2654435761u32) >> 15u32) as usize;
        assert(seq.wrapping_mul(2654435761u32) >> 15u32 < 131072u32) by (bit_vector);
        let r: u32 = table[hash].wrapping_add(UNINITHASH);
        let p32 = pos as u32;
        assert(slot_pos(table@[hash as int]) == r);
        table.set(hash, p32.wrapping_sub(UNINITHASH));
        let dist = p32.wrapping_sub(r);
        let near = (dist >> 16u32) == 0;
        proof {
            assert(near ==> dist < 65536) by (bit_vector)
                requires
                    near == ((dist >> 16u32) == 0),
            ;
            assert(slot_pos(p32.wrapping_sub(UNINITHASH)) == pos);
            if r == UNINITHASH {
                assert(dist == pos + 0x77777778);
            }
        }
        if !near || seq != seq_at(input, r as usize) {
            if pos - anchor > limit {
                assert(step >> 2u64 <= step / 4) by (bit_vector);
                limit = limit * 2;
                step = step + 1 + (step >> 2);
            }
            pos = pos + step;
            continue;
        }
        if step > 1 {
            table.set(hash, r.wrapping_sub(UNINITHASH));
            pos = pos - (step - 1);
            step = 1;
            continue;
        }
        limit = INCOMPRESSIBLE;
        proof {
            assert(dist == pos - r);
            lemma_le32_bytes(input@, pos as int, r as int);
        }
        let end = extend_match(input, pos, r as u64);
        emit_sequence(output, input, anchor, pos, r as u64, end);
        pos = end;
        anchor = end;
    }
}

/// Reads the little-endian 32-bit integer at `pos`.
pub fn read_u32_le(input: &[u8], pos: usize) -> (r: u32)
    requires
        pos + 3 < input@.len(),
    ensures
        r == le32(input@, pos as int),
{
    seq_at(input, pos)
}

/// Appends `v` as four little-endian bytes.
#[verifier::spinoff_prover]
pub fn write_u32_le(out: &mut Vec<u8>, v: u32)
    ensures
        final(out)@ == old(out)@ + le_bytes(v),
        final(out)@.len() == old(out)@.len() + 4,
        le32(final(out)@, old(out)@.len() as int) == v,
        final(out)@.take(old(out)@.len() as int) == old(out)@,
{
    let c0 = v & 0xff;
    let c1 = (v >> 8u32) & 0xff;
    let c2 = (v >> 16u32) & 0xff;
    let c3 = v >> 24u32;
    assert(c0 < 256 && c1 < 256 && c2 < 256 && c3 < 256) by (bit_vector)
        requires
            c0 == v & 0xff,
            c1 == (v >> 8u32) & 0xff,
            c2 == (v >> 16u32) & 0xff,
            c3 == v >> 24u32,
    ;
    let b0 = c0 as u8;
    let b1 = c1 as u8;
    let b2 = c2 as u8;
    let b3 = c3 as u8;
    assert(v == (v & 0xff) + ((v >> 8u32) & 0xff) * 0x100 + ((v >> 16u32) & 0xff) * 0x10000 + (v >> 24u32)
        * 0x1000000) by (bit_vector);
    assert(c0 == v % 256 && c1 == (v / 256) % 256 && c2 == (v / 65536) % 256 && c3 == v / 16777216) by (bit_vector)
        requires
            c0 == v & 0xff,
            c1 == (v >> 8u32) & 0xff,
            c2 == (v >> 16u32) & 0xff,
            c3 == v >> 24u32,
    ;
    let ghost o0 = out@;
    out.push(b0);
    out.push(b1);
    out.push(b2);
    out.push(b3);
    assert(out@.take(o0.len() as int) =~= o0);
    let ghost m: int = o0.len() as int;
    assert(out@[m] == b0 && out@[m + 1] == b1 && out@[m + 2] == b2 && out@[m + 3] == b3);
    assert(out@ =~= o0 + le_bytes(v));
}

/// The four little-endian bytes of `v`.
pub open spec fn le_bytes(v: u32) -> Seq<u8> {
    seq![(v % 256) as u8, ((v / 256) % 256) as u8, ((v / 65536) % 256) as u8, (v / 16777216) as u8]
}

/// The stored blocks that hold `s`: blocks of at most 256 KiB, each a
/// length with the high bit set, then the bytes.
pub open spec fn stored_blocks(s: Seq<u8>) -> Seq<u8>
    decreases s.len(),
{
    if s.len() == 0 {
        seq![]
    } else {
        let a: int = if s.len() < 262144 { s.len() as int } else { 262144 };
        le_bytes((a + 0x80000000) as u32) + s.take(a) + stored_blocks(s.skip(a))
    }
}

/// The frame that `frame_encode` writes for `s`: the header, the stored
/// blocks, then two zero block lengths.
pub open spec fn frame_bytes(s: Seq<u8>) -> Seq<u8> {
    frame_header() + stored_blocks(s) + le_bytes(0) + le_bytes(0)
}

/// What the blocks of a frame from byte `pos` on decode to, appended to
/// `acc`: each block is a 32-bit little-endian length, whose high bit marks
/// stored data, then its body, then a 4-byte check when `ck`; a zero length
/// ends the frame. `None` when the blocks are malformed.
pub open spec fn frame_blocks_spec(input: Seq<u8>, pos: int, ck: bool, maxb: int, acc: Seq<u8>) -> Option<Seq<u8>>
    decreases input.len() - pos,
{
    if pos < 0 || pos + 4 > input.len() {
        None
    } else {
        let v = le32(input, pos);
        let p = pos + 4;
        if v == 0 {
            Some(acc)
        } else {
            let amt = v % 0x80000000;
            if amt > input.len() - p || amt > maxb {
                None
            } else {
                let body = input.subrange(p, p + amt);
                let data = if v >= 0x80000000 {
                    Some(body)
                } else {
                    block_decode(body, 0, seq![])
                };
                let next = if ck { p + amt + 4 } else { p + amt };
                match data {
                    None => None,
                    Some(d) => if next > input.len() || d.len() > usize::MAX {
                        None
                    } else {
                        frame_blocks_spec(input, next, ck, maxb, acc + d)
                    },
                }
            }
        }
    }
}

/// Where a frame's blocks start, by its FLG byte: after the 7 header bytes
/// and, when announced, the 8-byte stream size.
pub open spec fn frame_body_start(flg: u8) -> int {
    7 + if (flg / 8) % 2 == 1 { 8int } else { 0int }
}

/// What a whole frame decodes to, or `None` when it is not a valid frame.
pub open spec fn frame_spec(input: Seq<u8>) -> Option<Seq<u8>> {
    if input.len() < 6 || le32(input, 0) != MAGIC || input[4] / 64 != 1 || input[4] % 2 == 1 || max_block_size(
        input[5],
    ) == 0 {
        None
    } else {
        frame_blocks_spec(input, frame_body_start(input[4]), (input[4] / 16) % 2 == 1, max_block_size(input[5]), seq![])
    }
}

/// The largest block the frame encoder emits.
pub const FRAME_BLOCK_LIMIT: usize = 262144;

/// The frame header the encoder writes: magic, version 01 with independent
/// blocks, a 256 KiB block size, and a header check byte.
pub open spec fn frame_header() -> Seq<u8> {
    seq![0x04u8, 0x22u8, 0x4du8, 0x18u8, 0x60u8, 0x50u8, 0u8]
}

/// Every decoding of the blocks of `out` followed by anything, from the
/// first block on, reaches the end of `out` with `done` decoded.
pub open spec fn frame_prefix(out: Seq<u8>, done: Seq<u8>) -> bool {
    forall|rest: Seq<u8>| #[trigger] frame_blocks_spec(out + rest, 7, false, 262144, seq![]) == frame_blocks_spec(
        out + rest,
        out.len() as int,
        false,
        262144,
        done,
    )
}

proof fn lemma_stored_step(q: Seq<u8>, cur: int, v: int, amt: int, acc: Seq<u8>)
    requires
        0 <= cur,
        le32(q, cur) == v,
        v >= 0x80000000,
        v % 0x80000000 == amt,
        0 < amt <= 262144,
        cur + 4 + amt <= q.len(),
    ensures
        frame_blocks_spec(q, cur, false, 262144, acc) == frame_blocks_spec(
            q,
            cur + 4 + amt,
            false,
            262144,
            acc + q.subrange(cur + 4, cur + 4 + amt),
        ),
{
}

proof fn lemma_frame_prefix_step(before: Seq<u8>, out: Seq<u8>, done: Seq<u8>, v: int, amt: int, body: Seq<u8>)
    requires
        frame_prefix(before, done),
        out.len() == before.len() + 4 + amt,
        out.take(before.len() as int) == before,
        le32(out, before.len() as int) == v,
        v >= 0x80000000,
        v % 0x80000000 == amt,
        0 < amt <= 262144,
        out.subrange(before.len() as int + 4, out.len() as int) == body,
    ensures
        frame_prefix(out, done + body),
{
    assert forall|rest: Seq<u8>| #[trigger] frame_blocks_spec(out + rest, 7, false, 262144, seq![]) == frame_blocks_spec(
        out + rest,
        out.len() as int,
        false,
        262144,
        done + body,
    ) by {
        let q = out + rest;
        let b = out.subrange(before.len() as int, out.len() as int);
        assert(out =~= before + b);
        assert(before + (b + rest) =~= q);
        assert(frame_blocks_spec(before + (b + rest), 7, false, 262144, seq![]) == frame_blocks_spec(
            before + (b + rest),
            before.len() as int,
            false,
            262144,
            done,
        ));
        let c = before.len() as int;
        assert(q[c] == out[c] && q[c + 1] == out[c + 1] && q[c + 2] == out[c + 2] && q[c + 3] == out[c + 3]);
        assert(q.subrange(c + 4, c + 4 + amt) =~= body);
        lemma_stored_step(q, c, v, amt, done);
    }
}

/// Appends a stored block holding `input[pos..pos + amt]`.
fn append_stored_block(out: &mut Vec<u8>, input: &[u8], pos: usize, amt: usize)
    requires
        0 < amt <= FRAME_BLOCK_LIMIT,
        pos + amt <= input@.len(),
        old(out)@.len() >= 7,
        frame_prefix(old(out)@, input@.take(pos as int)),
    ensures
        final(out)@.len() == old(out)@.len() + 4 + amt,
        final(out)@ == old(out)@ + le_bytes((amt + 0x80000000) as u32) + input@.subrange(pos as int, pos + amt),
        final(out)@.take(7) == old(out)@.take(7),
        frame_prefix(final(out)@, input@.take(pos + amt)),
{
    let ghost before = out@;
    let v = (amt as u32) | 0x80000000u32;
    assert(v == amt + 0x80000000 && v % 0x80000000 == amt) by (bit_vector)
        requires
            v == (amt as u32) | 0x80000000u32,
            0 < amt <= 262144,
    ;
    write_u32_le(out, v);
    let ghost mid = out@;
    let n = input.len();
    let mut k: usize = 0;
    while k < amt
        invariant
            k <= amt,
            pos + amt <= n == input@.len(),
            out@ == mid + input@.subrange(pos as int, pos + k),
        decreases amt - k,
    {
        out.push(input[pos + k]);
        proof {
            assert(mid + input@.subrange(pos as int, pos + k + 1) =~= (mid + input@.subrange(pos as int, pos + k)).push(
                input@[pos + k],
            ));
        }
        k = k + 1;
    }
    proof {
        let body = input@.subrange(pos as int, pos + amt);
        assert(out@.take(before.len() as int) =~= before) by {
            assert(mid.take(before.len() as int) == before);
        }
        assert(out@.subrange(before.len() as int + 4, out@.len() as int) =~= body);
        assert(le32(out@, before.len() as int) == le32(mid, before.len() as int));
        lemma_frame_prefix_step(before, out@, input@.take(pos as int), v as int, amt as int, body);
        assert(input@.take(pos as int) + body =~= input@.take(pos + amt));
        assert(out@.take(7) =~= before.take(7));
        assert(out@ =~= before + le_bytes((amt + 0x80000000) as u32) + body);
    }
}

/// Appends the end marks of a frame whose blocks hold all of `input`.
fn finish_frame(out: &mut Vec<u8>, input: &[u8])
    requires
        old(out)@.len() >= 7,
        old(out)@.take(7) == frame_header(),
        frame_prefix(old(out)@, input@),
    ensures
        final(out)@.take(7) == frame_header(),
        frame_spec(final(out)@) == Some(input@),
        final(out)@.len() == old(out)@.len() + 8,
        final(out)@ == old(out)@ + le_bytes(0) + le_bytes(0),
{
    let ghost before = out@;
    write_u32_le(out, 0);
    write_u32_le(out, 0);
    proof {
        assert(out@.take(7) =~= before.take(7));
        let z = out@.subrange(before.len() as int, out@.len() as int);
        assert(before + z =~= out@);
        assert(frame_blocks_spec(before + z, 7, false, 262144, seq![]) == frame_blocks_spec(
            before + z,
            before.len() as int,
            false,
            262144,
            input@,
        ));
        assert(out@[4] == before.take(7)[4]);
        assert(out@[0] == before.take(7)[0] && out@[1] == before.take(7)[1] && out@[2] == before.take(7)[2]
            && out@[3] == before.take(7)[3]);
        assert(le32(out@, 0) == MAGIC);
    }
}

/// Wraps `input` in an LZ4 frame of stored (uncompressed) blocks of at most
/// 256 KiB, ended by a zero block length. The frame decodes to `input`.
pub fn frame_encode(input: &[u8]) -> (r: Vec<u8>)
    ensures
        r@.take(7) == frame_header(),
        frame_spec(r@) == Some(input@),
        r@.len() == 15 + input@.len() + 4 * ((input@.len() + 262143) / 262144),
        r@ == frame_bytes(input@),
{
    let mut out: Vec<u8> = Vec::new();
    write_u32_le(&mut out, MAGIC);
    out.push(0x60u8);
    out.push(0x50u8);
    out.push(0u8);
    assert(out@ =~= frame_header()) by {
        assert(MAGIC == 0x184d2204u32);
    }
    proof {
        assert(input@.skip(0) =~= input@);
        assert forall|rest: Seq<u8>| #[trigger] frame_blocks_spec(out@ + rest, 7, false, 262144, seq![]) == frame_blocks_spec(
            out@ + rest,
            out@.len() as int,
            false,
            262144,
            input@.take(0),
        ) by {
            assert(input@.take(0) =~= Seq::<u8>::empty());
        }
    }
    let n = input.len();
    let mut pos: usize = 0;
    while pos < n
        invariant
            pos <= n == input@.len(),
            out@.len() >= 7,
            out@.take(7) == frame_header(),
            frame_prefix(out@, input@.take(pos as int)),
            pos == n || pos % 262144 == 0,
            out@.len() == 7 + pos + 4 * ((pos + 262143) / 262144),
            out@ + stored_blocks(input@.skip(pos as int)) == frame_header() + stored_blocks(input@),
        decreases n - pos,
    {
        let amt = if n - pos < FRAME_BLOCK_LIMIT { n - pos } else { FRAME_BLOCK_LIMIT };
        let ghost before = out@;
        append_stored_block(&mut out, input, pos, amt);
        proof {
            let t = input@.skip(pos as int);
            assert(t.take(amt as int) =~= input@.subrange(pos as int, pos + amt));
            assert(t.skip(amt as int) =~= input@.skip(pos + amt));
            assert(stored_blocks(t) == le_bytes((amt + 0x80000000) as u32) + t.take(amt as int) + stored_blocks(
                t.skip(amt as int),
            ));
            assert(out@ + stored_blocks(input@.skip(pos + amt)) =~= before + stored_blocks(t));
            let q = pos as int / 262144;
            assert(pos == q * 262144);
            assert((pos + 262143) / 262144 == q);
            assert((pos + amt + 262143) / 262144 == q + 1);
        }
        pos = pos + amt;
    }
    proof {
        assert(input@.take(pos as int) =~= input@);
        assert(input@.skip(pos as int) =~= Seq::<u8>::empty());
        assert(out@ + Seq::<u8>::empty() =~= out@);
    }
    let ghost before = out@;
    finish_frame(&mut out, input);
    assert(out@ =~= frame_bytes(input@));
    out
}

/// Decodes a whole LZ4 frame.
pub fn frame_decode(input: &[u8]) -> (r: Result<Vec<u8>, Lz4Error>)
    ensures
        input@.len() < 6 ==> r == Err::<Vec<u8>, Lz4Error>(Lz4Error::UnexpectedEof),
        input@.len() >= 6 && le32(input@, 0) != MAGIC ==> r == Err::<Vec<u8>, Lz4Error>(Lz4Error::InvalidMagic),
        input@.len() >= 6 && le32(input@, 0) == MAGIC && input@[4] / 64 != 1 ==> r == Err::<Vec<u8>, Lz4Error>(
            Lz4Error::InvalidVersion,
        ),
        input@.len() >= 6 && le32(input@, 0) == MAGIC && input@[4] / 64 == 1 && input@[4] % 2 == 1 ==> r == Err::<
            Vec<u8>,
            Lz4Error,
        >(Lz4Error::PresetDictionary),
        input@.len() >= 6 && le32(input@, 0) == MAGIC && input@[4] / 64 == 1 && input@[4] % 2 == 0 && max_block_size(
            input@[5],
        ) == 0 ==> r == Err::<Vec<u8>, Lz4Error>(Lz4Error::UnsupportedBlockSize),
        r is Ok <==> frame_spec(input@) is Some,
        r matches Ok(v) ==> frame_spec(input@) == Some(v@),
{
    let n = input.len();
    if n < 6 {
        return Err(Lz4Error::UnexpectedEof);
    }
    if read_u32_le(input, 0) != MAGIC {
        return Err(Lz4Error::InvalidMagic);
    }
    let flg = input[4];
    if (flg >> 6u8) != 1 {
        assert(flg >> 6u8 == flg / 64) by (bit_vector);
        return Err(Lz4Error::InvalidVersion);
    }
    assert(flg >> 6u8 == flg / 64 && (flg & 1 == flg % 2) && (flg & 0x10 != 0 <==> (flg / 16) % 2 == 1)
        && (flg & 0x08 != 0 <==> (flg / 8) % 2 == 1)) by (bit_vector);
    if flg & 0x01 != 0 {
        return Err(Lz4Error::PresetDictionary);
    }
    let blk_checksum = (flg & 0x10) != 0;
    let stream_size = (flg & 0x08) != 0;
    let mut pos: usize = 6;
    if stream_size {
        pos = pos + 8;
    }
    pos = pos + 1;
    assert(pos == frame_body_start(flg));
    let bd = input[5];
    let k = (bd >> 4u8) & 7;
    assert(k == (bd / 16) % 8) by (bit_vector)
        requires
            k == (bd >> 4u8) & 7,
    ;
    let max_size: usize = if k == 4 {
        65536
    } else if k == 5 {
        262144
    } else if k == 6 {
        1048576
    } else if k == 7 {
        4194304
    } else {
        return Err(Lz4Error::UnsupportedBlockSize);
    };
    if pos > n {
        return Err(Lz4Error::UnexpectedEof);
    }
    frame_blocks(input, pos, blk_checksum, max_size)
}

/// Decodes the blocks of a frame from byte `start` on, up to the zero block
/// length.
fn frame_blocks(input: &[u8], start: usize, blk_checksum: bool, max_size: usize) -> (r: Result<Vec<u8>, Lz4Error>)
    requires
        start <= input@.len(),
    ensures
        r is Ok <==> frame_blocks_spec(input@, start as int, blk_checksum, max_size as int, seq![]) is Some,
        r matches Ok(v) ==> frame_blocks_spec(input@, start as int, blk_checksum, max_size as int, seq![]) == Some(v@),
{
    let n = input.len();
    let mut pos = start;
    let mut out: Vec<u8> = Vec::new();
    loop
        invariant
            pos <= n == input@.len(),
            frame_blocks_spec(input@, pos as int, blk_checksum, max_size as int, out@) == frame_blocks_spec(
                input@,
                start as int,
                blk_checksum,
                max_size as int,
                seq![],
            ),
        decreases n - pos,
    {
        if n - pos < 4 {
            return Err(Lz4Error::UnexpectedEof);
        }
        let len = read_u32_le(input, pos);
        if len == 0 {
            return Ok(out);
        }
        pos = pos + 4;
        assert((len & 0x7fffffffu32) == len % 0x80000000 && ((len & 0x80000000u32) != 0 <==> len >= 0x80000000))
            by (bit_vector);
        let amt = (len & 0x7fffffffu32) as usize;
        if amt > n - pos {
            return Err(Lz4Error::UnexpectedEof);
        }
        if amt > max_size {
            return Err(Lz4Error::UnsupportedBlockSize);
        }
        let ghost acc0 = out@;
        if len & 0x80000000u32 != 0 {
            let mut k: usize = 0;
            while k < amt
                invariant
                    k <= amt,
                    pos + amt <= n == input@.len(),
                    out@ == acc0 + input@.subrange(pos as int, pos + k),
                decreases amt - k,
            {
                out.push(input[pos + k]);
                proof {
                    assert(acc0 + input@.subrange(pos as int, pos + k + 1) =~= (acc0 + input@.subrange(pos as int, pos + k)).push(input@[pos + k]));
                }
                k = k + 1;
            }
        } else {
            let mut block: Vec<u8> = Vec::new();
            let mut k: usize = 0;
            while k < amt
                invariant
                    k <= amt,
                    pos + amt <= n == input@.len(),
                    block@ == input@.subrange(pos as int, pos + k),
                decreases amt - k,
            {
                block.push(input[pos + k]);
                proof {
                    assert(input@.subrange(pos as int, pos + k + 1) =~= input@.subrange(pos as int, pos + k).push(input@[pos + k]));
                }
                k = k + 1;
            }
            let mut decoded: Vec<u8> = Vec::new();
            decode_block(block.as_slice(), &mut decoded)?;
            let mut j: usize = 0;
            while j < decoded.len()
                invariant
                    j <= decoded@.len(),
                    out@ == acc0 + decoded@.take(j as int),
                decreases decoded.len() - j,
            {
                out.push(decoded[j]);
                proof {
                    assert(decoded@.take(j as int + 1) =~= decoded@.take(j as int).push(decoded@[j as int]));
                }
                j = j + 1;
            }
            assert(decoded@.take(decoded@.len() as int) =~= decoded@);
        }
        pos = pos + amt;
        if blk_checksum {
            if n - pos < 4 {
                return Err(Lz4Error::UnexpectedEof);
            }
            pos = pos + 4;
        }
    }
}

proof fn lemma_ext_bytes_len(n: nat)
    ensures
        ext_bytes(n).len() >= 1,
        ext_bytes(n).len() <= n / 255 + 1,
    decreases n,
{
    if n >= 255 {
        lemma_ext_bytes_len((n - 255) as nat);
    }
}

/// Reading an extended length back: `ext_len` parses what `ext_bytes` wrote.
proof fn lemma_ext_parse(q: Seq<u8>, p: int, acc: nat, n: nat)
    requires
        0 <= p,
        p + ext_bytes(n).len() <= q.len(),
        q.subrange(p, p + ext_bytes(n).len()) == ext_bytes(n),
    ensures
        ext_len(q, p, acc) == Some((acc + n, p + ext_bytes(n).len())),
    decreases n,
{
    let e = ext_bytes(n);
    assert(q[p] == e[0]);
    if n >= 255 {
        let rest = ext_bytes((n - 255) as nat);
        assert(e == seq![255u8] + rest);
        assert(q.subrange(p + 1, p + 1 + rest.len()) =~= e.subrange(1, e.len() as int));
        assert(e.subrange(1, e.len() as int) =~= rest);
        lemma_ext_parse(q, p + 1, acc + 255, (n - 255) as nat);
    } else {
        assert(e == seq![n as u8]);
    }
}

/// Copying a match whose bytes repeat the input from `r` extends the
/// decoded prefix of the input.
proof fn lemma_copy_match(input: Seq<u8>, p0: int, r: int, len: nat)
    requires
        0 <= r < p0,
        p0 + len <= input.len(),
        forall|k: int| 0 <= k < len ==> #[trigger] input[p0 + k] == input[r + k],
    ensures
        copy_back(input.take(p0), p0 - r, len) == input.take(p0 + len),
    decreases len,
{
    if len > 0 {
        lemma_copy_match(input, p0, r, (len - 1) as nat);
        let o = copy_back(input.take(p0), p0 - r, (len - 1) as nat);
        assert(o == input.take(p0 + len - 1));
        assert(o[o.len() - (p0 - r)] == input[r + len - 1]);
        assert(o.push(o[o.len() - (p0 - r)]) =~= input.take(p0 + len));
    }
}

/// The sequence the encoder writes for literals `input[anchor..p0]`
/// followed by a match of `ml + 4` bytes at distance `back`.
pub open spec fn match_seq(input: Seq<u8>, anchor: int, p0: int, back: int, ml: nat) -> Seq<u8> {
    literal_part(input, anchor, (p0 - anchor) as nat, ml) + seq![(back % 256) as u8, (back / 256) as u8] + (if ml
        >= 15 {
        ext_bytes((ml - 15) as nat)
    } else {
        seq![]
    })
}

proof fn lemma_token(lit: nat, ml: nat)
    ensures
        token_byte(lit, ml) / 16 == if lit >= 15 { 15 } else { lit },
        token_byte(lit, ml) % 16 == if ml >= 15 { 15 } else { ml },
{
}

/// Reading the literal run of a sequence that starts at `cur`.
proof fn lemma_literal_parse(q: Seq<u8>, cur: int, input: Seq<u8>, a: int, lit: nat, ml: nat)
    requires
        0 <= cur,
        0 <= a,
        a + lit <= input.len(),
        cur + literal_part(input, a, lit, ml).len() <= q.len(),
        q.subrange(cur, cur + literal_part(input, a, lit, ml).len()) == literal_part(input, a, lit, ml),
    ensures
        q[cur] == token_byte(lit, ml),
        ({
            let e = if lit >= 15 { ext_bytes((lit - 15) as nat).len() as int } else { 0int };
            &&& read_len(q, cur + 1, (q[cur] / 16) as nat) == Some((lit, cur + 1 + e))
            &&& q.subrange(cur + 1 + e, cur + 1 + e + lit) == input.subrange(a, a + lit)
            &&& literal_part(input, a, lit, ml).len() == 1 + e + lit
        }),
{
    let lp = literal_part(input, a, lit, ml);
    assert(q[cur] == lp[0]);
    lemma_token(lit, ml);
    let l: int = lit as int;
    if lit >= 15 {
        let eb = ext_bytes((lit - 15) as nat);
        let e: int = eb.len() as int;
        assert(q.subrange(cur + 1, cur + 1 + e) =~= lp.subrange(1, 1 + e));
        assert(lp.subrange(1, 1 + e) =~= eb);
        lemma_ext_parse(q, cur + 1, 15, (lit - 15) as nat);
        assert(q.subrange(cur + 1 + e, cur + 1 + e + l) =~= lp.subrange(1 + e, 1 + e + l));
        assert(lp.subrange(1 + e, 1 + e + l) =~= input.subrange(a, a + l));
    } else {
        assert(q.subrange(cur + 1, cur + 1 + l) =~= lp.subrange(1, 1 + l));
        assert(lp.subrange(1, 1 + l) =~= input.subrange(a, a + l));
    }
}

/// One match sequence, wherever it stands in the block, takes the decoded
/// prefix of the input from `input[..anchor]` to `input[..p0 + ml + 4]`.
proof fn lemma_match_step(q: Seq<u8>, cur: int, input: Seq<u8>, anchor: int, p0: int, r: int, ml: nat)
    requires
        0 <= cur,
        0 <= anchor <= p0,
        0 <= r < p0,
        p0 - r < 65536,
        p0 + ml + 4 <= input.len(),
        forall|k: int| 0 <= k < ml + 4 ==> #[trigger] input[p0 + k] == input[r + k],
        cur + match_seq(input, anchor, p0, p0 - r, ml).len() <= q.len(),
        q.subrange(cur, cur + match_seq(input, anchor, p0, p0 - r, ml).len()) == match_seq(
            input,
            anchor,
            p0,
            p0 - r,
            ml,
        ),
    ensures
        block_decode(q, cur, input.take(anchor)) == block_decode(
            q,
            cur + match_seq(input, anchor, p0, p0 - r, ml).len(),
            input.take(p0 + ml + 4),
        ),
{
    let lit = (p0 - anchor) as nat;
    let back = p0 - r;
    let lp = literal_part(input, anchor, lit, ml);
    let ms = match_seq(input, anchor, p0, back, ml);
    let tail: Seq<u8> = if ml >= 15 { ext_bytes((ml - 15) as nat) } else { seq![] };
    assert(ms == lp + seq![(back % 256) as u8, (back / 256) as u8] + tail);
    assert(q.subrange(cur, cur + lp.len()) =~= ms.subrange(0, lp.len() as int));
    assert(ms.subrange(0, lp.len() as int) =~= lp);
    lemma_literal_parse(q, cur, input, anchor, lit, ml);
    let e = if lit >= 15 { ext_bytes((lit - 15) as nat).len() as int } else { 0int };
    let p1 = cur + 1 + e;
    let c1 = p1 + lit;
    assert(c1 == cur + lp.len());
    let o1 = input.take(anchor) + q.subrange(p1, p1 + lit);
    assert(o1 =~= input.take(p0));
    let lpl: int = lp.len() as int;
    assert(q[c1] == ms[lpl]);
    assert(q[c1 + 1] == ms[lpl + 1]);
    assert(le16(q, c1) == back);
    lemma_token(lit, ml);
    if ml >= 15 {
        let eb = ext_bytes((ml - 15) as nat);
        lemma_ext_bytes_len((ml - 15) as nat);
        let t0: int = c1 + 2;
        assert(q.subrange(t0, t0 + eb.len()) =~= ms.subrange(lpl + 2, ms.len() as int));
        assert(ms.subrange(lpl + 2, ms.len() as int) =~= eb);
        lemma_ext_parse(q, t0, 15, (ml - 15) as nat);
    }
    lemma_copy_match(input, p0, r, ml + 4);
    assert(block_decode(q, cur, input.take(anchor)) == block_decode(q, cur + ms.len(), copy_back(o1, back, ml + 4)));
}

/// The last sequence: a literal run to the end of the block.
proof fn lemma_final_step(q: Seq<u8>, cur: int, input: Seq<u8>, anchor: int)
    requires
        0 <= cur,
        0 <= anchor <= input.len(),
        q.len() == cur + literal_part(input, anchor, (input.len() - anchor) as nat, 0).len(),
        q.subrange(cur, q.len() as int) == literal_part(input, anchor, (input.len() - anchor) as nat, 0),
    ensures
        block_decode(q, cur, input.take(anchor)) == Some(input),
{
    let lit = (input.len() - anchor) as nat;
    lemma_literal_parse(q, cur, input, anchor, lit, 0);
    let e = if lit >= 15 { ext_bytes((lit - 15) as nat).len() as int } else { 0int };
    let p1 = cur + 1 + e;
    assert(input.take(anchor) + q.subrange(p1, p1 + lit) =~= input);
}

} // verus!
