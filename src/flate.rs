//! DEFLATE (RFC 1951) decoder over an in-memory byte buffer.

use vstd::prelude::*;

verus! {

/// The longest code length.
pub const MAXBITS: usize = 15;
/// The most literal/length codes.
pub const MAXLCODES: usize = 286;
/// The most distance codes.
pub const MAXDCODES: usize = 30;
/// The most codes of both kinds together.
pub const MAXCODES: usize = 316;

/// What can go wrong while decoding a DEFLATE stream.
#[derive(PartialEq, Eq, Structural, Debug, Clone, Copy)]
pub enum FlateError {
    /// A code table is over-subscribed, or a header asks for too many codes.
    HuffmanTreeTooLarge,
    /// A block header holds the reserved block type.
    InvalidBlockCode,
    /// A code-length symbol repeats a length where there is none before it.
    InvalidHuffmanHeaderSymbol,
    /// The code lengths run past the count that the header gave.
    InvalidHuffmanTreeHeader,
    /// A literal/length or distance code is out of range.
    InvalidHuffmanCode,
    /// A stored block's length does not match its complement.
    InvalidStaticSize,
    /// No code of at most fifteen bits matched the input.
    NotEnoughBits,
    /// The input ended inside a block.
    UnexpectedEof,
}

impl FlateError {
    /// A short description of the error.
    pub fn message(&self) -> (r: &'static str)
        ensures
            r@.len() > 0,
    {
        proof {
            reveal_strlit("huffman tree too large");
            reveal_strlit("invalid block code");
            reveal_strlit("invalid huffman header symbol");
            reveal_strlit("invalid huffman tree header");
            reveal_strlit("invalid huffman code");
            reveal_strlit("invalid static size");
            reveal_strlit("not enough bits");
            reveal_strlit("unexpected end of file");
        }
        match self {
            FlateError::HuffmanTreeTooLarge => "huffman tree too large",
            FlateError::InvalidBlockCode => "invalid block code",
            FlateError::InvalidHuffmanHeaderSymbol => "invalid huffman header symbol",
            FlateError::InvalidHuffmanTreeHeader => "invalid huffman tree header",
            FlateError::InvalidHuffmanCode => "invalid huffman code",
            FlateError::InvalidStaticSize => "invalid static size",
            FlateError::NotEnoughBits => "not enough bits",
            FlateError::UnexpectedEof => "unexpected end of file",
        }
    }
}

/// Bit `p` of `data`, bytes taken least significant bit first.
pub open spec fn bit_at(data: Seq<u8>, p: int) -> u8 {
    (data[p / 8] >> ((p % 8) as u8)) & 1u8
}

/// The `n` bits of `data` from bit `p`, the first one least significant.
pub open spec fn bits_value(data: Seq<u8>, p: int, n: nat) -> nat
    decreases n,
{
    if n == 0 {
        0
    } else {
        bits_value(data, p, (n - 1) as nat) + bit_at(data, p + n - 1) as nat * pow2((n - 1) as nat)
    }
}

/// `2` to the power `n`.
pub open spec fn pow2(n: nat) -> nat
    decreases n,
{
    if n == 0 {
        1
    } else {
        2 * pow2((n - 1) as nat)
    }
}

proof fn lemma_pow2_16()
    ensures
        pow2(15) == 32768,
        pow2(16) == 65536,
{
    reveal_with_fuel(pow2, 17);
}

proof fn lemma_pow2_pos(n: nat)
    ensures
        pow2(n) >= 1,
    decreases n,
{
    if n > 0 {
        lemma_pow2_pos((n - 1) as nat);
    }
}

proof fn lemma_pow2_mono(a: nat, b: nat)
    requires
        a <= b,
    ensures
        pow2(a) <= pow2(b),
    decreases b,
{
    if a < b {
        lemma_pow2_mono(a, (b - 1) as nat);
        lemma_pow2_pos((b - 1) as nat);
    }
}

proof fn lemma_bits_value_bound(data: Seq<u8>, p: int, n: nat)
    ensures
        bits_value(data, p, n) < pow2(n),
    decreases n,
{
    if n > 0 {
        lemma_bits_value_bound(data, p, (n - 1) as nat);
        let q = p + n - 1;
        let byte = data[q / 8];
        let sh = (q % 8) as u8;
        let b = bit_at(data, q);
        assert(b <= 1) by (bit_vector)
            requires
                b == (byte >> sh) & 1u8,
        ;
        let m = pow2((n - 1) as nat);
        let v = bits_value(data, p, (n - 1) as nat);
        assert(v + (b as nat) * m < 2 * m) by (nonlinear_arith)
            requires
                v < m,
                b <= 1,
        ;
    }
}

/// A reader of bits, least significant first, over an owned buffer.
pub struct BitReader {
    /// The bytes read.
    pub data: Vec<u8>,
    /// The index of the next bit.
    pub bitpos: usize,
}

impl BitReader {
    /// Every bit has an index that fits in `usize`.
    pub open spec fn wf(&self) -> bool {
        self.data@.len() * 8 < usize::MAX && self.bitpos <= self.data@.len() * 8
    }

    /// The number of bits not yet read.
    pub open spec fn remaining(&self) -> int {
        self.data@.len() * 8 - self.bitpos
    }

    /// Reads `cnt` bits.
    pub fn bits(&mut self, cnt: usize) -> (r: Result<u16, FlateError>)
        requires
            old(self).wf(),
            cnt <= 16,
        ensures
            final(self).wf(),
            final(self).data == old(self).data,
            old(self).remaining() >= cnt <==> r.is_ok(),
            r matches Ok(v) ==> v == bits_value(old(self).data@, old(self).bitpos as int, cnt as nat)
                && final(self).bitpos == old(self).bitpos + cnt,
            r is Err ==> r == Err::<u16, FlateError>(FlateError::UnexpectedEof),
    {
        if self.data.len() * 8 - self.bitpos < cnt {
            return Err(FlateError::UnexpectedEof);
        }
        let p0 = self.bitpos;
        let mut v: u32 = 0;
        let mut w: u32 = 1;
        let mut k: usize = 0;
        while k < cnt
            invariant
                self.wf(),
                self.data == old(self).data,
                p0 == old(self).bitpos,
                p0 + cnt <= self.data@.len() * 8,
                k <= cnt <= 16,
                self.bitpos == p0 + k,
                v == bits_value(self.data@, p0 as int, k as nat),
                w == pow2(k as nat),
            decreases cnt - k,
        {
            let p = self.bitpos;
            let byte = self.data[p / 8];
            let sh = (p % 8) as u8;
            let b = (byte >> sh) & 1u8;
            proof {
                lemma_bits_value_bound(self.data@, p0 as int, k as nat);
                lemma_pow2_mono(k as nat, 15);
                lemma_pow2_16();

                assert(b <= 1) by (bit_vector)
                    requires
                        b == (byte >> sh) & 1u8,
                ;
                assert(bit_at(self.data@, p0 + k) == b);
                assert(v + (b as nat) * w <= 65535) by (nonlinear_arith)
                    requires
                        v < w,
                        w <= 32768,
                        b <= 1,
                ;
            }
            v = v + (b as u32) * w;
            w = w * 2;
            k = k + 1;
            self.bitpos = self.bitpos + 1;
        }
        proof {
            lemma_bits_value_bound(self.data@, p0 as int, cnt as nat);
            lemma_pow2_mono(cnt as nat, 16);
            lemma_pow2_16();
        }
        Ok(v as u16)
    }

    /// Skips to the next byte boundary.
    #[verifier::spinoff_prover]
    pub fn align(&mut self)
        requires
            old(self).wf(),
        ensures
            final(self).wf(),
            final(self).data == old(self).data,
            final(self).bitpos % 8 == 0,
            old(self).bitpos <= final(self).bitpos < old(self).bitpos + 8,
    {
        if self.bitpos % 8 != 0 {
            self.bitpos = self.bitpos + (8 - self.bitpos % 8);
        }
    }
}

/// How many entries of `lens` equal `l`.
pub open spec fn count_len(lens: Seq<u16>, l: int) -> nat
    decreases lens.len(),
{
    if lens.len() == 0 {
        0
    } else {
        count_len(lens.drop_last(), l) + if lens.last() == l { 1nat } else { 0nat }
    }
}

/// The Kraft sum of a code-length list, in units of `2^-15`: each nonzero
/// length `l` adds `2^(15 - l)`.
pub open spec fn kraft_sum(lens: Seq<u16>) -> nat
    decreases lens.len(),
{
    if lens.len() == 0 {
        0
    } else {
        kraft_sum(lens.drop_last()) + if lens.last() == 0 {
            0nat
        } else {
            pow2((15 - lens.last()) as nat)
        }
    }
}

/// The codes of at most `k` bits still free once the codes of lengths
/// `1..=k` are taken, counted at length `k`.
pub open spec fn kraft_left(lens: Seq<u16>, k: nat) -> int
    decreases k,
{
    if k == 0 {
        1
    } else {
        2 * kraft_left(lens, (k - 1) as nat) - count_len(lens, k as int)
    }
}

/// The part of the Kraft sum that lengths `1..=k` make up.
pub open spec fn kraft_part(lens: Seq<u16>, k: nat) -> int
    decreases k,
{
    if k == 0 {
        0
    } else {
        kraft_part(lens, (k - 1) as nat) + count_len(lens, k as int) * pow2((15 - k) as nat)
    }
}

/// The number of codes shorter than `l` bits (and at least one bit long).
pub open spec fn codes_before(lens: Seq<u16>, l: int) -> nat
    decreases l,
{
    if l <= 1 {
        0
    } else {
        codes_before(lens, l - 1) + count_len(lens, l - 1)
    }
}

/// Where the symbol `i` stands in the decoding table: after all shorter
/// codes and after the smaller symbols of its own length.
pub open spec fn code_slot(lens: Seq<u16>, i: int) -> int {
    (codes_before(lens, lens[i] as int) + count_len(lens.take(i), lens[i] as int)) as int
}

/// Every length is at most fifteen bits.
pub open spec fn lens_valid(lens: Seq<u16>) -> bool {
    forall|i: int| 0 <= i < lens.len() ==> lens[i] <= 15
}

proof fn lemma_count_push(lens: Seq<u16>, x: u16, l: int)
    ensures
        count_len(lens.push(x), l) == count_len(lens, l) + if x == l { 1nat } else { 0nat },
{
    assert(lens.push(x).drop_last() =~= lens);
}

proof fn lemma_count_take_step(lens: Seq<u16>, i: int, l: int)
    requires
        0 <= i < lens.len(),
    ensures
        count_len(lens.take(i + 1), l) == count_len(lens.take(i), l) + if lens[i] == l { 1nat } else { 0nat },
{
    assert(lens.take(i + 1) =~= lens.take(i).push(lens[i]));
    lemma_count_push(lens.take(i), lens[i], l);
}

proof fn lemma_count_prefix_le(lens: Seq<u16>, i: int, l: int)
    requires
        0 <= i <= lens.len(),
    ensures
        count_len(lens.take(i), l) <= count_len(lens, l),
    decreases lens.len() - i,
{
    if i < lens.len() {
        lemma_count_take_step(lens, i, l);
        lemma_count_prefix_le(lens, i + 1, l);
    } else {
        assert(lens.take(i) =~= lens);
    }
}

/// The sum of the counts of lengths `0..k`.
spec fn count_upto(lens: Seq<u16>, k: nat) -> nat
    decreases k,
{
    if k == 0 {
        0
    } else {
        count_upto(lens, (k - 1) as nat) + count_len(lens, k - 1)
    }
}

proof fn lemma_count_upto_push(lens: Seq<u16>, x: u16, k: nat)
    ensures
        count_upto(lens.push(x), k) == count_upto(lens, k) + if x < k { 1nat } else { 0nat },
    decreases k,
{
    if k > 0 {
        lemma_count_upto_push(lens, x, (k - 1) as nat);
        lemma_count_push(lens, x, k - 1);
    }
}

proof fn lemma_count_upto_empty(lens: Seq<u16>, k: nat)
    requires
        lens.len() == 0,
    ensures
        count_upto(lens, k) == 0,
        kraft_part(lens, k) == 0,
    decreases k,
{
    if k > 0 {
        lemma_count_upto_empty(lens, (k - 1) as nat);
        assert(count_len(lens, k as int) == 0);
        assert(count_len(lens, k - 1) == 0);
        assert(count_len(lens, k as int) * pow2((15 - k) as nat) == 0);
    }
}

proof fn lemma_count_upto_all(lens: Seq<u16>)
    requires
        lens_valid(lens),
    ensures
        count_upto(lens, 16) == lens.len(),
    decreases lens.len(),
{
    if lens.len() == 0 {
        lemma_count_upto_empty(lens, 16);
    } else {
        let d = lens.drop_last();
        assert(lens[lens.len() - 1] <= 15);
        assert(lens_valid(d));
        lemma_count_upto_all(d);
        assert(d.push(lens.last()) =~= lens);
        lemma_count_upto_push(d, lens.last(), 16);
        assert(count_upto(lens, 16) == count_upto(d, 16) + 1);
    }
}

proof fn lemma_codes_before_upto(lens: Seq<u16>, l: int)
    requires
        1 <= l <= 16,
    ensures
        codes_before(lens, l) + count_len(lens, 0) == count_upto(lens, l as nat),
    decreases l,
{
    if l > 1 {
        lemma_codes_before_upto(lens, l - 1);
    } else {
        assert(count_upto(lens, 0) == 0);
        assert(count_upto(lens, 1) == count_len(lens, 0));
    }
}

proof fn lemma_codes_before_mono(lens: Seq<u16>, a: int, b: int)
    requires
        1 <= a <= b,
    ensures
        codes_before(lens, a) + count_len(lens, a) <= codes_before(lens, b) || a == b,
        codes_before(lens, a) <= codes_before(lens, b),
    decreases b,
{
    if a < b {
        lemma_codes_before_mono(lens, a, b - 1);
    }
}

proof fn lemma_kraft_part_push(lens: Seq<u16>, x: u16, k: nat)
    ensures
        kraft_part(lens.push(x), k) == kraft_part(lens, k) + if 1 <= x <= k {
            pow2((15 - x) as nat) as int
        } else {
            0int
        },
    decreases k,
{
    if k > 0 {
        lemma_kraft_part_push(lens, x, (k - 1) as nat);
        lemma_count_push(lens, x, k as int);
        let c = count_len(lens, k as int);
        let p = pow2((15 - k) as nat);
        assert((c + 1) * p == c * p + p) by (nonlinear_arith);
    }
}

proof fn lemma_kraft_sum_part(lens: Seq<u16>)
    requires
        lens_valid(lens),
    ensures
        kraft_sum(lens) == kraft_part(lens, 15),
    decreases lens.len(),
{
    if lens.len() == 0 {
        lemma_count_upto_empty(lens, 15);
    } else {
        let d = lens.drop_last();
        assert(lens[lens.len() - 1] <= 15);
        assert(lens_valid(d));
        lemma_kraft_sum_part(d);
        assert(d.push(lens.last()) =~= lens);
        lemma_kraft_part_push(d, lens.last(), 15);
        assert(kraft_part(lens, 15) == kraft_part(d, 15) + if lens.last() == 0 {
            0nat
        } else {
            pow2((15 - lens.last()) as nat)
        });
    }
}

proof fn lemma_kraft_left_part(lens: Seq<u16>, k: nat)
    requires
        k <= 15,
    ensures
        kraft_left(lens, k) * pow2((15 - k) as nat) == pow2(15) - kraft_part(lens, k),
    decreases k,
{
    if k == 0 {
    } else {
        lemma_kraft_left_part(lens, (k - 1) as nat);
        let p = pow2((15 - k) as nat);
        assert(pow2((15 - (k - 1)) as nat) == 2 * p);
        let l0 = kraft_left(lens, (k - 1) as nat);
        let c = count_len(lens, k as int);
        assert((2 * l0 - c) * p == l0 * (2 * p) - c * p) by (nonlinear_arith);
    }
}

proof fn lemma_kraft_left_stays_negative(lens: Seq<u16>, i: nat, k: nat)
    requires
        i <= k,
        kraft_left(lens, i) < 0,
    ensures
        kraft_left(lens, k) < 0,
    decreases k,
{
    if i < k {
        lemma_kraft_left_stays_negative(lens, i, (k - 1) as nat);
    }
}

/// The sign of what is left after fifteen lengths decides the Kraft inequality.
proof fn lemma_kraft_left_sign(lens: Seq<u16>)
    requires
        lens_valid(lens),
    ensures
        kraft_left(lens, 15) < 0 <==> kraft_sum(lens) > pow2(15),
{
    lemma_kraft_sum_part(lens);
    lemma_kraft_left_part(lens, 15);
    assert(pow2(0) == 1);
    assert(kraft_left(lens, 15) * pow2(0) == kraft_left(lens, 15));
    lemma_pow2_16();
}

/// `t` is a decoding table for the code lengths `lens`: the counts per
/// length, and each symbol in its canonical slot.
pub open spec fn canonical(t: HuffmanTree, lens: Seq<u16>) -> bool {
    &&& t.wf()
    &&& forall|l: int| 0 <= l < 16 ==> t.count@[l] == count_len(lens, l)
    &&& forall|i: int| 0 <= i < lens.len() && lens[i] != 0 ==> t.symbol@[code_slot(lens, i)] == i
}

/// The code lengths of the fixed literal/length code.
pub open spec fn fixed_lit_lens() -> Seq<u16> {
    Seq::new(288, |i: int| if i < 144 { 8u16 } else if i < 256 { 9u16 } else if i < 280 { 7u16 } else { 8u16 })
}

/// The code lengths of the fixed distance code.
pub open spec fn fixed_dist_lens() -> Seq<u16> {
    Seq::new(30, |i: int| 5u16)
}

/// A canonical Huffman decoding table.
pub struct HuffmanTree {
    /// `count[n]` is the number of codes of `n` bits.
    pub count: [u16; 16],
    /// The symbols, ordered by code length and then by symbol value.
    pub symbol: [u16; 316],
}

impl HuffmanTree {
    /// The counts of codes one to fifteen bits long fit in the symbol table.
    pub open spec fn wf(&self) -> bool {
        self.codes_upto(16) <= 316
    }

    /// The number of codes of lengths `1..k`.
    pub open spec fn codes_upto(&self, k: int) -> int
        decreases k,
    {
        if k <= 1 {
            0
        } else {
            self.codes_upto(k - 1) + self.count@[k - 1] as int
        }
    }

    /// Builds the decoding table for the code lengths `lens`, one per symbol.
    /// Fails, with `HuffmanTreeTooLarge`, exactly when the lengths
    /// over-subscribe the code space.
    pub fn construct(lens: &[u16]) -> (r: Result<HuffmanTree, FlateError>)
        requires
            lens@.len() <= 316,
            lens_valid(lens@),
        ensures
            r is Err <==> kraft_sum(lens@) > 32768,
            r is Err ==> r == Err::<HuffmanTree, FlateError>(FlateError::HuffmanTreeTooLarge),
            r matches Ok(t) ==> canonical(t, lens@),
    {
        let mut tree = HuffmanTree { count: [0u16; 16], symbol: [0u16; 316] };
        let mut i: usize = 0;
        while i < lens.len()
            invariant
                0 <= i <= lens@.len() <= 316,
                lens_valid(lens@),
                forall|l: int| 0 <= l < 16 ==> tree.count@[l] == count_len(lens@.take(i as int), l),
            decreases lens.len() - i,
        {
            proof {
                assert forall|l: int| 0 <= l < 16 implies count_len(lens@.take(i as int + 1), l)
                    == count_len(lens@.take(i as int), l) + if lens@[i as int] == l { 1nat } else { 0nat } by {
                    lemma_count_take_step(lens@, i as int, l);
                }
                lemma_count_prefix_le(lens@, i as int, lens@[i as int] as int);
                lemma_count_upto_all(lens@);
                lemma_count_upto_ge(lens@, 16);
            }
            let len = lens[i] as usize;
            tree.count[len] = tree.count[len] + 1;
            i = i + 1;
        }
        proof {
            assert(lens@.take(lens@.len() as int) =~= lens@);
            lemma_kraft_left_sign(lens@);
            lemma_pow2_16();
        }
        let mut left: i32 = 1;
        let mut k: usize = 1;
        while k <= MAXBITS
            invariant
                1 <= k <= 16,
                left == kraft_left(lens@, (k - 1) as nat),
                0 <= left <= pow2((k - 1) as nat),
                lens@.len() <= 316,
                forall|l: int| 0 <= l < 16 ==> tree.count@[l] == count_len(lens@, l),
                kraft_left(lens@, 15) < 0 <==> kraft_sum(lens@) > 32768,
            decreases 16 - k,
        {
            proof {
                lemma_pow2_mono((k - 1) as nat, 14);
                reveal_with_fuel(pow2, 15);
            }
            left = left * 2;
            left = left - tree.count[k] as i32;
            if left < 0 {
                proof {
                    lemma_kraft_left_stays_negative(lens@, k as nat, 15);
                }
                return Err(FlateError::HuffmanTreeTooLarge);
            }
            k = k + 1;
        }
        proof {
            assert(tree.count@[0] == count_len(lens@, 0));
        }
        tree.symbol = place_symbols(lens, &tree.count);
        proof {
            lemma_tree_wf(tree, lens@);
        }
        Ok(tree)
    }
}


/// The symbols of `lens`, ordered by code length and then by symbol value.
fn place_symbols(lens: &[u16], count: &[u16; 16]) -> (symbol: [u16; 316])
    requires
        lens@.len() <= 316,
        lens_valid(lens@),
        forall|l: int| 0 <= l < 16 ==> count@[l] == count_len(lens@, l),
    ensures
        forall|i: int|
            0 <= i < lens@.len() && lens@[i] != 0 ==> symbol@[code_slot(lens@, i)] == i,
{
    let mut symbol: [u16; 316] = [0u16; 316];
        let mut offs: [usize; 16] = [0usize; 16];
        let mut k: usize = 1;
        while k < MAXBITS
            invariant
                1 <= k <= 15,
                forall|l: int| 1 <= l <= k ==> offs@[l] == codes_before(lens@, l),
                forall|l: int| 0 <= l < 16 ==> count@[l] == count_len(lens@, l),
                lens_valid(lens@),
                lens@.len() <= 316,
            decreases 15 - k,
        {
            proof {
                lemma_count_upto_all(lens@);
                lemma_codes_before_upto(lens@, k as int + 1);
                lemma_count_upto_ge(lens@, k as nat + 1);
            }
            offs[k + 1] = offs[k] + count[k] as usize;
            k = k + 1;
        }
        let mut i: usize = 0;
        while i < lens.len()
            invariant
                0 <= i <= lens@.len() <= 316,
                lens_valid(lens@),
                forall|l: int| 0 <= l < 16 ==> count@[l] == count_len(lens@, l),
                forall|l: int| 1 <= l <= 15 ==> offs@[l] == codes_before(lens@, l) + count_len(lens@.take(i as int), l),
                forall|j: int|
                    0 <= j < i && lens@[j] != 0 ==> symbol@[code_slot(lens@, j)] == j,
            decreases lens.len() - i,
        {
            let len = lens[i] as usize;
            if len != 0 {
                let ghost slot = offs[len as int];
                assert(slot == code_slot(lens@, i as int));
                proof {
                    lemma_count_take_step(lens@, i as int, len as int);
                    lemma_count_prefix_le(lens@, i as int + 1, len as int);
                    lemma_slot_bound(lens@, len as int);
                    assert forall|j: int|
                        0 <= j < i && lens@[j] != 0 implies code_slot(lens@, j) != code_slot(lens@, i as int) by {
                        lemma_slot_distinct(lens@, j, i as int);
                    }
                }
                let ghost old_symbol = symbol@;
                symbol[offs[len]] = i as u16;
                offs[len] = offs[len] + 1;
                assert forall|j: int|
                    0 <= j < i + 1 && lens@[j] != 0 implies symbol@[code_slot(lens@, j)] == j by {
                    if j < i {
                        lemma_slot_distinct(lens@, j, i as int);
                        lemma_slot_bound(lens@, lens@[j] as int);
                        lemma_count_take_step(lens@, j, lens@[j] as int);
                        lemma_count_prefix_le(lens@, j + 1, lens@[j] as int);
                        assert(old_symbol[code_slot(lens@, j)] == j);
                    }
                }
            }
            proof {
                assert forall|l: int| 1 <= l <= 15 implies offs@[l] == codes_before(lens@, l) + count_len(lens@.take(i as int + 1), l) by {
                    lemma_count_take_step(lens@, i as int, l);
                }
            }
            i = i + 1;
        }
    symbol
}

proof fn lemma_count_upto_ge(lens: Seq<u16>, k: nat)
    requires
        k <= 16,
    ensures
        forall|l: int| 0 <= l < k ==> count_len(lens, l) <= count_upto(lens, k),
        count_upto(lens, k) <= count_upto(lens, 16),
    decreases k,
{
    if k > 0 {
        lemma_count_upto_ge(lens, (k - 1) as nat);
    }
    lemma_count_upto_mono(lens, k, 16);
}

proof fn lemma_count_upto_mono(lens: Seq<u16>, a: nat, b: nat)
    requires
        a <= b,
    ensures
        count_upto(lens, a) <= count_upto(lens, b),
    decreases b,
{
    if a < b {
        lemma_count_upto_mono(lens, a, (b - 1) as nat);
    }
}

proof fn lemma_slot_bound(lens: Seq<u16>, l: int)
    requires
        1 <= l <= 15,
        lens_valid(lens),
    ensures
        codes_before(lens, l) + count_len(lens, l) <= lens.len(),
{
    lemma_codes_before_upto(lens, l + 1);
    lemma_count_upto_mono(lens, (l + 1) as nat, 16);
    lemma_count_upto_all(lens);
}

proof fn lemma_slot_distinct(lens: Seq<u16>, j: int, i: int)
    requires
        0 <= j < i < lens.len(),
        lens[j] != 0,
        lens[i] != 0,
        lens_valid(lens),
    ensures
        code_slot(lens, j) != code_slot(lens, i),
{
    let lj = lens[j] as int;
    let li = lens[i] as int;
    if lj == li {
        lemma_count_take_step(lens, j, lj);
        lemma_count_prefix_le(lens.take(i), j + 1, lj);
        assert(lens.take(i).take(j + 1) =~= lens.take(j + 1));
    } else {
        lemma_count_take_step(lens, j, lj);
        lemma_count_take_step(lens, i, li);
        lemma_count_prefix_le(lens, j + 1, lj);
        lemma_count_prefix_le(lens, i + 1, li);
        if lj < li {
            lemma_codes_before_mono(lens, lj, li);
        } else {
            lemma_codes_before_mono(lens, li, lj);
        }
    }
}

proof fn lemma_tree_wf(t: HuffmanTree, lens: Seq<u16>)
    requires
        lens_valid(lens),
        lens.len() <= 316,
        forall|l: int| 0 <= l < 16 ==> t.count@[l] == count_len(lens, l),
    ensures
        t.wf(),
{
    lemma_codes_upto_before(t, lens, 16);
    lemma_codes_before_upto(lens, 16);
    lemma_count_upto_all(lens);
}

proof fn lemma_codes_upto_before(t: HuffmanTree, lens: Seq<u16>, k: int)
    requires
        1 <= k <= 16,
        forall|l: int| 0 <= l < 16 ==> t.count@[l] == count_len(lens, l),
    ensures
        t.codes_upto(k) == codes_before(lens, k),
    decreases k,
{
    if k > 1 {
        lemma_codes_upto_before(t, lens, k - 1);
    }
}

/// Canonical decoding of the code that starts at bit `p`, from code length
/// `len` on: `code` holds the bits read so far, `first` the first code of
/// this length and `index` the number of shorter codes. Gives the symbol and
/// the code's length, or `None` when no code of at most fifteen bits
/// matches.
pub open spec fn huff_walk(t: HuffmanTree, data: Seq<u8>, p: int, len: int, code: int, first: int, index: int) -> Option<
    (u16, int),
>
    decreases 16 - len,
{
    if len < 1 || len > 15 {
        None
    } else {
        let c = code + bit_at(data, p + len - 1) as int;
        let count = t.count@[len] as int;
        if c < first + count {
            Some((t.symbol@[index + c - first], len))
        } else {
            huff_walk(t, data, p, len + 1, 2 * c, 2 * (first + count), index + count)
        }
    }
}

proof fn lemma_huff_walk_len(t: HuffmanTree, data: Seq<u8>, p: int, len: int, code: int, first: int, index: int)
    ensures
        huff_walk(t, data, p, len, code, first, index) matches Some((_, k)) ==> len <= k <= 15,
    decreases 16 - len,
{
    if 1 <= len <= 15 {
        let c = code + bit_at(data, p + len - 1) as int;
        let count = t.count@[len] as int;
        lemma_huff_walk_len(t, data, p, len + 1, 2 * c, 2 * (first + count), index + count);
    }
}

/// The symbol whose code starts at bit `p`, with the code's length.
pub open spec fn huff_decode(t: HuffmanTree, data: Seq<u8>, p: int) -> Option<(u16, int)> {
    huff_walk(t, data, p, 1, 0, 0, 0)
}

impl HuffmanTree {
    /// Decodes one symbol, reading its code one bit at a time.
    #[verifier::rlimit(100)]
    #[verifier::spinoff_prover]
    pub fn decode(&self, r: &mut BitReader) -> (res: Result<u16, FlateError>)
        requires
            self.wf(),
            old(r).wf(),
        ensures
            final(r).wf(),
            final(r).data == old(r).data,
            res matches Ok(sym) ==> {
                &&& old(r).bitpos < final(r).bitpos <= old(r).bitpos + 15
                &&& exists|k: int| 0 <= k < self.codes_upto(16) && self.symbol@[k] == sym
            },
            res is Err ==> res == Err::<u16, FlateError>(FlateError::NotEnoughBits) || res == Err::<
                u16,
                FlateError,
            >(FlateError::UnexpectedEof),
            res matches Ok(sym) ==> huff_decode(*self, old(r).data@, old(r).bitpos as int) == Some(
                (sym, final(r).bitpos - old(r).bitpos),
            ),
            (match huff_decode(*self, old(r).data@, old(r).bitpos as int) {
                Some((s, k)) => if old(r).remaining() >= k {
                    res == Ok::<u16, FlateError>(s)
                } else {
                    res == Err::<u16, FlateError>(FlateError::UnexpectedEof)
                },
                None => if old(r).remaining() >= 15 {
                    res == Err::<u16, FlateError>(FlateError::NotEnoughBits)
                } else {
                    res == Err::<u16, FlateError>(FlateError::UnexpectedEof)
                },
            }),
    {
        let ghost p0 = r.bitpos;
        let mut code: usize = 0;
        let mut first: usize = 0;
        let mut index: usize = 0;
        let mut len: usize = 1;
        proof {
            reveal_with_fuel(pow2, 2);
        }
        while len <= MAXBITS
            invariant
                1 <= len <= 16,
                self.wf(),
                r.wf(),
                r.data == old(r).data,
                r.bitpos == p0 + len - 1,
                p0 == old(r).bitpos,
                index == self.codes_upto(len as int),
                first <= code,
                code % 2 == 0,
                code < pow2(len as nat),
                huff_walk(*self, r.data@, p0 as int, len as int, code as int, first as int, index as int) == huff_decode(
                    *self,
                    r.data@,
                    p0 as int,
                ),
            decreases 16 - len,
        {
            let ghost p1 = r.bitpos;
            proof {
                lemma_huff_walk_len(*self, r.data@, p0 as int, len as int, code as int, first as int, index as int);
            }
            let b = r.bits(1)?;
            proof {
                assert(pow2(0) == 1);
                assert(bits_value(r.data@, p1 as int, 0) == 0);
                assert(bits_value(r.data@, p1 as int, 1) == bits_value(r.data@, p1 as int, 0) + bit_at(r.data@, p1 as int) as nat * pow2(0));
                assert(b as int == bit_at(r.data@, p1 as int) as int);
            }
            proof {
                reveal_with_fuel(pow2, 2);
                lemma_bits_value_bound(r.data@, p1 as int, 1);
                lemma_pow2_mono(len as nat, 15);
                lemma_pow2_16();
                lemma_codes_upto_mono(self, len as int + 1, 16);
            }
            code = code + b as usize;
            let count = self.count[len] as usize;
            if code < first + count {
                let k = index + (code - first);
                return Ok(self.symbol[k]);
            }
            index = index + count;
            first = (first + count) * 2;
            code = code * 2;
            len = len + 1;
        }
        Err(FlateError::NotEnoughBits)
    }
}

proof fn lemma_codes_upto_mono(t: &HuffmanTree, a: int, b: int)
    requires
        1 <= a <= b,
    ensures
        t.codes_upto(a) <= t.codes_upto(b),
    decreases b,
{
    if a < b {
        lemma_codes_upto_mono(t, a, b - 1);
    }
}

/// The 16-bit little-endian integer at byte `p` of `data`.
pub open spec fn le16(data: Seq<u8>, p: int) -> int {
    data[p] as int + 256 * data[p + 1] as int
}

/// `out` followed by `len` bytes, each a copy of the byte `dist` places
/// before it (so a short distance repeats a pattern).
pub open spec fn copy_back(out: Seq<u8>, dist: int, len: nat) -> Seq<u8>
    decreases len,
{
    if len == 0 {
        out
    } else {
        let o = copy_back(out, dist, (len - 1) as nat);
        o.push(o[o.len() - dist])
    }
}

/// A back-reference copy appends `len` bytes and keeps what was there.
pub proof fn lemma_copy_back_len(out: Seq<u8>, dist: int, len: nat)
    ensures
        copy_back(out, dist, len).len() == out.len() + len,
        copy_back(out, dist, len).take(out.len() as int) == out,
    decreases len,
{
    if len > 0 {
        lemma_copy_back_len(out, dist, (len - 1) as nat);
        let o = copy_back(out, dist, (len - 1) as nat);
        assert(o.push(o[o.len() - dist]).take(out.len() as int) =~= o.take(out.len() as int));
    }
}

/// Appends a back-reference of `len` bytes at distance `dist`.
pub fn copy_match(output: &mut Vec<u8>, dist: usize, len: usize)
    requires
        1 <= dist <= old(output)@.len(),
    ensures
        final(output)@ == copy_back(old(output)@, dist as int, len as nat),
{
    let mut k: usize = 0;
    while k < len
        invariant
            k <= len,
            1 <= dist <= old(output)@.len(),
            output@ == copy_back(old(output)@, dist as int, k as nat),
        decreases len - k,
    {
        proof {
            lemma_copy_back_len(old(output)@, dist as int, k as nat);
        }
        let b = output[output.len() - dist];
        output.push(b);
        k = k + 1;
    }
}

/// The bit index `p` rounded up to a byte boundary, in bytes.
pub open spec fn byte_after(p: int) -> int {
    (p + 7) / 8
}

/// Decoder state of a DEFLATE stream held in memory.
pub struct Decoder {
    /// The compressed input and the read position in it.
    pub reader: BitReader,
    /// Everything decoded so far; also the history for back-references.
    pub output: Vec<u8>,
    /// Whether the block marked final has been decoded.
    pub last_block: bool,
}

impl Decoder {
    /// The reader's invariant holds.
    pub open spec fn wf(&self) -> bool {
        self.reader.wf()
    }

    /// A decoder at the start of `input`.
    pub fn new(input: Vec<u8>) -> (r: Decoder)
        requires
            input@.len() < usize::MAX / 8,
        ensures
            r.wf(),
            r.reader.data@ == input@,
            r.reader.bitpos == 0,
            r.output@.len() == 0,
            !r.last_block,
    {
        Decoder { reader: BitReader { data: input, bitpos: 0 }, output: Vec::new(), last_block: false }
    }

    /// Whether the final block has been decoded.
    pub fn eof(&self) -> (r: bool)
        ensures
            r == self.last_block,
    {
        self.last_block
    }

    /// Forgets the final-block mark and skips to the next byte boundary, so
    /// that another stream can follow; the history is kept.
    pub fn reset(&mut self)
        requires
            old(self).wf(),
        ensures
            final(self).wf(),
            !final(self).last_block,
            final(self).output == old(self).output,
            final(self).reader.data == old(self).reader.data,
            final(self).reader.bitpos % 8 == 0,
    {
        self.reader.align();
        self.last_block = false;
    }

    /// Decodes a stored block whose header bits have been read.
    fn stored(&mut self) -> (r: Result<(), FlateError>)
        requires
            old(self).wf(),
        ensures
            final(self).wf(),
            final(self).reader.data == old(self).reader.data,
            final(self).last_block == old(self).last_block,
            ({
                let d = old(self).reader.data@;
                let p = byte_after(old(self).reader.bitpos as int);
                let len = le16(d, p);
                if p + 4 > d.len() {
                    r == Err::<(), FlateError>(FlateError::UnexpectedEof) && final(self).output == old(self).output
                } else if len + le16(d, p + 2) != 0xffff {
                    r == Err::<(), FlateError>(FlateError::InvalidStaticSize) && final(self).output == old(self).output
                } else if p + 4 + len > d.len() {
                    r == Err::<(), FlateError>(FlateError::UnexpectedEof) && final(self).output == old(self).output
                } else {
                    &&& r is Ok
                    &&& final(self).output@ == old(self).output@ + d.subrange(p + 4, p + 4 + len)
                    &&& final(self).reader.bitpos == (p + 4 + len) * 8
                }
            }),
    {
        self.reader.align();
        let p = self.reader.bitpos / 8;
        assert(p == byte_after(old(self).reader.bitpos as int));
        let n = self.reader.data.len();
        if n < 4 || p > n - 4 {
            return Err(FlateError::UnexpectedEof);
        }
        let len = self.reader.data[p] as usize + 256 * self.reader.data[p + 1] as usize;
        let nlen = self.reader.data[p + 2] as usize + 256 * self.reader.data[p + 3] as usize;
        if len + nlen != 0xffff {
            return Err(FlateError::InvalidStaticSize);
        }
        if len > n - 4 - p {
            return Err(FlateError::UnexpectedEof);
        }
        let start = p + 4;
        let mut k: usize = 0;
        let ghost out0 = self.output@;
        assert(out0 + self.reader.data@.subrange(start as int, start as int) =~= out0);
        while k < len
            invariant
                k <= len,
                start + len <= n,
                n == self.reader.data@.len(),
                self.reader.data == old(self).reader.data,
                self.reader.wf(),
                self.last_block == old(self).last_block,
                self.output@ == out0 + self.reader.data@.subrange(start as int, start + k),
            decreases len - k,
        {
            let b = self.reader.data[start + k];
            self.output.push(b);
            proof {
                assert(out0 + self.reader.data@.subrange(start as int, start + k + 1) =~= (out0
                    + self.reader.data@.subrange(start as int, start + k)).push(b));
            }
            k = k + 1;
        }
        self.reader.bitpos = (start + len) * 8;
        Ok(())
    }
}

/// `new` begins with `old`.
pub open spec fn extends(old: Seq<u8>, new: Seq<u8>) -> bool {
    old.len() <= new.len() && new.take(old.len() as int) == old
}

proof fn lemma_extends_trans(a: Seq<u8>, b: Seq<u8>, c: Seq<u8>)
    requires
        extends(a, b),
        extends(b, c),
    ensures
        extends(a, c),
{
    assert(c.take(a.len() as int) =~= c.take(b.len() as int).take(a.len() as int));
}

proof fn lemma_extends_push(a: Seq<u8>, x: u8)
    ensures
        extends(a, a.push(x)),
{
    assert(a.push(x).take(a.len() as int) =~= a);
}

proof fn lemma_extends_append(a: Seq<u8>, b: Seq<u8>)
    ensures
        extends(a, a + b),
{
    assert((a + b).take(a.len() as int) =~= a);
}

/// The base length of length code `257 + n`.
pub open spec fn length_base(n: int) -> int {
    seq![
        3u16, 4, 5, 6, 7, 8, 9, 10, 11, 13, 15, 17, 19, 23, 27, 31, 35, 43, 51, 59, 67, 83, 99, 115, 131,
        163, 195, 227, 258,
    ][n] as int
}

/// The number of extra bits of length code `257 + n`.
pub open spec fn length_extra(n: int) -> nat {
    if n < 8 || n == 28 {
        0
    } else {
        ((n - 4) / 4) as nat
    }
}

/// The base distance of distance code `d`.
pub open spec fn dist_base(d: int) -> int {
    seq![
        1u16, 2, 3, 4, 5, 7, 9, 13, 17, 25, 33, 49, 65, 97, 129, 193, 257, 385, 513, 769, 1025, 1537,
        2049, 3073, 4097, 6145, 8193, 12289, 16385, 24577,
    ][d] as int
}

/// The number of extra bits of distance code `d`.
pub open spec fn dist_extra(d: int) -> nat {
    if d < 4 {
        0
    } else {
        ((d - 2) / 2) as nat
    }
}

/// The error of a Huffman code that cannot be read at bit `p`.
pub open spec fn code_error(t: HuffmanTree, d: Seq<u8>, p: int) -> FlateError {
    match huff_decode(t, d, p) {
        None => if d.len() * 8 - p >= 15 {
            FlateError::NotEnoughBits
        } else {
            FlateError::UnexpectedEof
        },
        Some(_) => FlateError::UnexpectedEof,
    }
}

/// The symbol of the Huffman code at bit `p`.
pub open spec fn code_sym(t: HuffmanTree, d: Seq<u8>, p: int) -> u16 {
    match huff_decode(t, d, p) {
        None => 0,
        Some((s, _)) => s,
    }
}

/// The length of the Huffman code at bit `p`.
pub open spec fn code_len(t: HuffmanTree, d: Seq<u8>, p: int) -> int {
    match huff_decode(t, d, p) {
        None => 0,
        Some((_, k)) => k,
    }
}

/// Whether the Huffman code at bit `p` can be read in full.
pub open spec fn code_ok(t: HuffmanTree, d: Seq<u8>, p: int) -> bool {
    match huff_decode(t, d, p) {
        None => false,
        Some((_, k)) => d.len() * 8 - p >= k,
    }
}

/// What decoding literal/length and distance codes from bit `p` on, up to
/// the end-of-block code, appends to `out`: the output and the bit position
/// after the end-of-block code, or the error met first.
pub open spec fn codes_spec(lc: HuffmanTree, dc: HuffmanTree, d: Seq<u8>, p: int, out: Seq<u8>) -> Result<
    (Seq<u8>, int),
    FlateError,
>
    decreases d.len() * 8 - p,
{
    if !code_ok(lc, d, p) {
        Err(code_error(lc, d, p))
    } else {
        let sym = code_sym(lc, d, p);
        let p1 = p + code_len(lc, d, p);
        if p1 <= p {
            Err(FlateError::NotEnoughBits)
        } else if sym < 256 {
            codes_spec(lc, dc, d, p1, out.push(sym as u8))
        } else if sym == 256 {
            Ok((out, p1))
        } else if sym - 257 >= 29 {
            Err(FlateError::InvalidHuffmanCode)
        } else {
            let n = sym - 257;
            let nb = length_extra(n);
            if d.len() * 8 - p1 < nb {
                Err(FlateError::UnexpectedEof)
            } else {
                let len = length_base(n) + bits_value(d, p1, nb);
                let p2 = p1 + nb;
                if !code_ok(dc, d, p2) {
                    Err(code_error(dc, d, p2))
                } else {
                    let ds = code_sym(dc, d, p2);
                    let p3 = p2 + code_len(dc, d, p2);
                    if ds >= 30 {
                        Err(FlateError::InvalidHuffmanCode)
                    } else {
                        let db = dist_extra(ds as int);
                        if d.len() * 8 - p3 < db {
                            Err(FlateError::UnexpectedEof)
                        } else {
                            let dist = dist_base(ds as int) + bits_value(d, p3, db);
                            if dist == 0 || dist > out.len() {
                                Err(FlateError::InvalidHuffmanCode)
                            } else if p3 < p2 {
                                Err(FlateError::NotEnoughBits)
                            } else {
                                codes_spec(lc, dc, d, p3 + db, copy_back(out, dist, len as nat))
                            }
                        }
                    }
                }
            }
        }
    }
}

/// The symbol whose code length comes `k`-th in a dynamic block header.
pub open spec fn clen_order(k: int) -> int {
    seq![16int, 17, 18, 0, 8, 7, 9, 6, 10, 5, 11, 4, 12, 3, 13, 2, 14, 1, 15][k]
}

/// The code-length code lengths after reading the first `k` of them, three
/// bits each, from bit `q`.
pub open spec fn clens_spec(d: Seq<u8>, q: int, k: int) -> Seq<u16>
    decreases k,
{
    if k <= 0 {
        Seq::new(19, |j: int| 0u16)
    } else {
        clens_spec(d, q, k - 1).update(clen_order(k - 1), bits_value(d, q + 3 * (k - 1), 3) as u16)
    }
}

/// `l` with the `n` entries from `i` on set to `v`.
pub open spec fn fill(l: Seq<u16>, i: int, n: int, v: u16) -> Seq<u16> {
    Seq::new(l.len(), |j: int| if i <= j < i + n { v } else { l[j] })
}

/// Reading code lengths `i..total` with the code-length code `ct` from bit
/// `p`: literal lengths `0..=15`; 16 repeats the previous length 3 to 6
/// times; 17 and 18 leave 3 to 10 and 11 to 138 lengths zero. Gives the
/// lengths and the bit position after them.
pub open spec fn lens_spec(ct: HuffmanTree, d: Seq<u8>, p: int, total: int, i: int, l: Seq<u16>) -> Result<
    (Seq<u16>, int),
    FlateError,
>
    decreases d.len() * 8 - p,
{
    if i >= total {
        Ok((l, p))
    } else if !code_ok(ct, d, p) {
        Err(code_error(ct, d, p))
    } else {
        let sym = code_sym(ct, d, p);
        let p1 = p + code_len(ct, d, p);
        let rem = d.len() * 8 - p1;
        if p1 <= p {
            Err(FlateError::NotEnoughBits)
        } else if sym < 16 {
            lens_spec(ct, d, p1, total, i + 1, l.update(i, sym))
        } else if sym == 16 {
            if i == 0 {
                Err(FlateError::InvalidHuffmanHeaderSymbol)
            } else if rem < 2 {
                Err(FlateError::UnexpectedEof)
            } else {
                let rep = bits_value(d, p1, 2) + 3;
                if rep > total - i {
                    Err(FlateError::InvalidHuffmanTreeHeader)
                } else {
                    lens_spec(ct, d, p1 + 2, total, i + rep, fill(l, i, rep as int, l[i - 1]))
                }
            }
        } else if sym == 17 || sym == 18 {
            let nb: nat = if sym == 17 { 3 } else { 7 };
            if rem < nb {
                Err(FlateError::UnexpectedEof)
            } else {
                let rep = bits_value(d, p1, nb) + if sym == 17 { 3nat } else { 11nat };
                if rep > total - i {
                    Err(FlateError::InvalidHuffmanTreeHeader)
                } else {
                    lens_spec(ct, d, p1 + nb, total, i + rep, l)
                }
            }
        } else {
            Err(FlateError::InvalidHuffmanHeaderSymbol)
        }
    }
}

/// `r`, with the output `out1` and bit position `pos1` it leaves, is the
/// result `sp` of decoding codes.
pub open spec fn codes_result(
    sp: Result<(Seq<u8>, int), FlateError>,
    r: Result<(), FlateError>,
    out1: Seq<u8>,
    pos1: int,
) -> bool {
    match sp {
        Ok((o, q)) => r is Ok && out1 == o && pos1 == q,
        Err(e) => r == Err::<(), FlateError>(e),
    }
}

/// The result of decoding a fixed-code block body at bit `p`.
pub open spec fn fixed_result(d: Seq<u8>, p: int, out0: Seq<u8>, r: Result<(), FlateError>, out1: Seq<u8>, pos1: int) -> bool {
    if kraft_sum(fixed_lit_lens()) > 32768 || kraft_sum(fixed_dist_lens()) > 32768 {
        r == Err::<(), FlateError>(FlateError::HuffmanTreeTooLarge)
    } else {
        exists|lc: HuffmanTree, dc: HuffmanTree|
            canonical(lc, fixed_lit_lens()) && canonical(dc, fixed_dist_lens()) && #[trigger] codes_result(
                codes_spec(lc, dc, d, p, out0),
                r,
                out1,
                pos1,
            )
    }
}

/// The counts in a dynamic block header at bit `p`: literal/length codes,
/// distance codes, code-length codes.
pub open spec fn dynamic_header(d: Seq<u8>, p: int) -> (int, int, int) {
    ((bits_value(d, p, 5) + 257) as int, (bits_value(d, p + 5, 5) + 1) as int, (bits_value(d, p + 10, 4) + 4) as int)
}

/// The result of a dynamic block body once its code-length code `ct` is
/// fixed: the code lengths read with it, the tables they give, the codes.
pub open spec fn dyn_lens_result(
    ct: HuffmanTree,
    d: Seq<u8>,
    p: int,
    out0: Seq<u8>,
    r: Result<(), FlateError>,
    out1: Seq<u8>,
    pos1: int,
) -> bool {
    let (hlit, hdist, hclen) = dynamic_header(d, p);
    match lens_spec(ct, d, p + 14 + 3 * hclen, hlit + hdist, 0, Seq::new(316, |j: int| 0u16)) {
        Err(e) => r == Err::<(), FlateError>(e),
        Ok((lens, q2)) => if kraft_sum(lens.take(hlit)) > 32768 || kraft_sum(lens.subrange(hlit, hlit + hdist)) > 32768 {
            r == Err::<(), FlateError>(FlateError::HuffmanTreeTooLarge)
        } else {
            exists|lc: HuffmanTree, dc: HuffmanTree|
                canonical(lc, lens.take(hlit)) && canonical(dc, lens.subrange(hlit, hlit + hdist))
                    && #[trigger] codes_result(codes_spec(lc, dc, d, q2, out0), r, out1, pos1)
        },
    }
}

/// The result of decoding a dynamic block body at bit `p`: its header, the
/// code-length code, the code lengths, then the codes.
pub open spec fn dynamic_result(
    d: Seq<u8>,
    p: int,
    out0: Seq<u8>,
    r: Result<(), FlateError>,
    out1: Seq<u8>,
    pos1: int,
) -> bool {
    let (hlit, hdist, hclen) = dynamic_header(d, p);
    let rem = d.len() * 8 - p;
    if rem < 14 {
        r == Err::<(), FlateError>(FlateError::UnexpectedEof)
    } else if hlit > 286 || hdist > 30 {
        r == Err::<(), FlateError>(FlateError::HuffmanTreeTooLarge)
    } else if rem < 14 + 3 * hclen {
        r == Err::<(), FlateError>(FlateError::UnexpectedEof)
    } else if kraft_sum(clens_spec(d, p + 14, hclen)) > 32768 {
        r == Err::<(), FlateError>(FlateError::HuffmanTreeTooLarge)
    } else {
        exists|ct: HuffmanTree|
            canonical(ct, clens_spec(d, p + 14, hclen)) && #[trigger] dyn_lens_result(ct, d, p, out0, r, out1, pos1)
    }
}

impl Decoder {
    /// Decodes literal/length and distance codes until the end-of-block code.
    fn codes(&mut self, lencode: &HuffmanTree, distcode: &HuffmanTree) -> (r: Result<(), FlateError>)
        requires
            old(self).wf(),
            lencode.wf(),
            distcode.wf(),
        ensures
            final(self).wf(),
            final(self).reader.data == old(self).reader.data,
            final(self).last_block == old(self).last_block,
            r is Ok ==> extends(old(self).output@, final(self).output@) && old(self).reader.bitpos
                < final(self).reader.bitpos,
            codes_spec(*lencode, *distcode, old(self).reader.data@, old(self).reader.bitpos as int, old(self).output@)
                == (match r {
                Ok(_) => Ok((final(self).output@, final(self).reader.bitpos as int)),
                Err(e) => Err(e),
            }),
    {
        let extralens: [u16; 29] = [
            3, 4, 5, 6, 7, 8, 9, 10, 11, 13, 15, 17, 19, 23, 27, 31, 35, 43, 51, 59, 67, 83, 99,
            115, 131, 163, 195, 227, 258,
        ];
        let extradist: [u16; 30] = [
            1, 2, 3, 4, 5, 7, 9, 13, 17, 25, 33, 49, 65, 97, 129, 193, 257, 385, 513, 769, 1025,
            1537, 2049, 3073, 4097, 6145, 8193, 12289, 16385, 24577,
        ];
        assert(extralens@ =~= seq![
            3u16, 4, 5, 6, 7, 8, 9, 10, 11, 13, 15, 17, 19, 23, 27, 31, 35, 43, 51, 59, 67, 83, 99, 115, 131,
            163, 195, 227, 258,
        ]);
        assert(extradist@ =~= seq![
            1u16, 2, 3, 4, 5, 7, 9, 13, 17, 25, 33, 49, 65, 97, 129, 193, 257, 385, 513, 769, 1025, 1537,
            2049, 3073, 4097, 6145, 8193, 12289, 16385, 24577,
        ]);
        let ghost target = codes_spec(
            *lencode,
            *distcode,
            self.reader.data@,
            self.reader.bitpos as int,
            self.output@,
        );
        proof {
            assert(self.output@.take(self.output@.len() as int) =~= self.output@);
        }
        loop
            invariant
                self.wf(),
                lencode.wf(),
                distcode.wf(),
                self.reader.data == old(self).reader.data,
                self.last_block == old(self).last_block,
                extends(old(self).output@, self.output@),
                old(self).reader.bitpos <= self.reader.bitpos,
                target == codes_spec(*lencode, *distcode, old(self).reader.data@, old(self).reader.bitpos as int, old(self).output@),
                codes_spec(*lencode, *distcode, self.reader.data@, self.reader.bitpos as int, self.output@) == target,
                extralens@.len() == 29,
                extradist@.len() == 30,
                forall|n: int| 0 <= n < 29 ==> extralens@[n] as int == length_base(n),
                forall|d: int| 0 <= d < 30 ==> extradist@[d] as int == dist_base(d),
            decreases self.reader.remaining(),
        {
            let ghost out_before = self.output@;
            let ghost p = self.reader.bitpos as int;
            let ghost dd = self.reader.data@;
            let sym = lencode.decode(&mut self.reader)? as usize;
            let ghost p1 = self.reader.bitpos as int;
            assert(code_ok(*lencode, dd, p) && code_sym(*lencode, dd, p) == sym && p + code_len(*lencode, dd, p) == p1);
            if sym < 256 {
                self.output.push(sym as u8);
                proof {
                    lemma_extends_push(out_before, sym as u8);
                    lemma_extends_trans(old(self).output@, out_before, self.output@);
                }
            } else if sym == 256 {
                return Ok(());
            } else {
                let n = sym - 257;
                if n >= 29 {
                    return Err(FlateError::InvalidHuffmanCode);
                }
                let nbits: usize = if n < 8 || n == 28 { 0 } else { (n - 4) / 4 };
                assert(nbits == length_extra(n as int));
                let len = extralens[n] as usize + self.reader.bits(nbits)? as usize;
                let ghost p2 = self.reader.bitpos as int;
                let d = distcode.decode(&mut self.reader)? as usize;
                let ghost p3 = self.reader.bitpos as int;
                assert(code_ok(*distcode, dd, p2) && code_sym(*distcode, dd, p2) == d && p2 + code_len(*distcode, dd, p2) == p3);
                if d >= 30 {
                    return Err(FlateError::InvalidHuffmanCode);
                }
                let dbits: usize = if d < 4 { 0 } else { (d - 2) / 2 };
                assert(dbits == dist_extra(d as int));
                let dist = extradist[d] as usize + self.reader.bits(dbits)? as usize;
                if dist == 0 || dist > self.output.len() {
                    return Err(FlateError::InvalidHuffmanCode);
                }
                copy_match(&mut self.output, dist, len);
                proof {
                    lemma_copy_back_len(out_before, dist as int, len as nat);
                    lemma_extends_trans(old(self).output@, out_before, self.output@);
                }
            }
        }
    }

    /// Decodes a block with the fixed code tables.
    fn fixed(&mut self) -> (r: Result<(), FlateError>)
        requires
            old(self).wf(),
        ensures
            final(self).wf(),
            final(self).reader.data == old(self).reader.data,
            final(self).last_block == old(self).last_block,
            r is Ok ==> extends(old(self).output@, final(self).output@) && old(self).reader.bitpos
                < final(self).reader.bitpos,
            fixed_result(
                old(self).reader.data@,
                old(self).reader.bitpos as int,
                old(self).output@,
                r,
                final(self).output@,
                final(self).reader.bitpos as int,
            ),
    {
        let mut lens: Vec<u16> = Vec::new();
        let mut i: usize = 0;
        while i < 288
            invariant
                i <= 288,
                lens@.len() == i,
                lens_valid(lens@),
                forall|j: int| 0 <= j < i ==> lens@[j] == fixed_lit_lens()[j],
            decreases 288 - i,
        {
            let l: u16 = if i < 144 {
                8
            } else if i < 256 {
                9
            } else if i < 280 {
                7
            } else {
                8
            };
            lens.push(l);
            i = i + 1;
        }
        assert(lens@ =~= fixed_lit_lens());
        let lencode = HuffmanTree::construct(lens.as_slice())?;
        let dlens: Vec<u16> = vec![5u16; 30];
        assert(dlens@ =~= fixed_dist_lens());
        let distcode = HuffmanTree::construct(dlens.as_slice())?;
        let r = self.codes(&lencode, &distcode);
        proof {
            assert(codes_result(
                codes_spec(lencode, distcode, old(self).reader.data@, old(self).reader.bitpos as int, old(self).output@),
                r,
                self.output@,
                self.reader.bitpos as int,
            ));
        }
        r
    }

    /// Decodes a block whose code tables are given in its header.
    fn dynamic(&mut self) -> (r: Result<(), FlateError>)
        requires
            old(self).wf(),
        ensures
            final(self).wf(),
            final(self).reader.data == old(self).reader.data,
            final(self).last_block == old(self).last_block,
            r is Ok ==> extends(old(self).output@, final(self).output@) && old(self).reader.bitpos
                < final(self).reader.bitpos,
            dynamic_result(
                old(self).reader.data@,
                old(self).reader.bitpos as int,
                old(self).output@,
                r,
                final(self).output@,
                final(self).reader.bitpos as int,
            ),
    {
        let ghost d = self.reader.data@;
        let ghost p = self.reader.bitpos as int;
        let hlit = self.reader.bits(5)? as usize + 257;
        let hdist = self.reader.bits(5)? as usize + 1;
        let ghost p4 = self.reader.bitpos;
        let hclen = self.reader.bits(4)? as usize + 4;
        proof {
            reveal_with_fuel(pow2, 5);
            lemma_bits_value_bound(self.reader.data@, p4 as int, 4);
        }
        assert(dynamic_header(d, p) == (hlit as int, hdist as int, hclen as int));
        if hlit > MAXLCODES || hdist > MAXDCODES {
            return Err(FlateError::HuffmanTreeTooLarge);
        }
        let order: [usize; 19] = [16, 17, 18, 0, 8, 7, 9, 6, 10, 5, 11, 4, 12, 3, 13, 2, 14, 1, 15];
        assert(order@ =~= seq![16usize, 17, 18, 0, 8, 7, 9, 6, 10, 5, 11, 4, 12, 3, 13, 2, 14, 1, 15]);
        let mut clens: Vec<u16> = vec![0u16; 19];
        proof {
            assert(clens@ =~= clens_spec(d, p + 14, 0));
        }
        let mut i: usize = 0;
        while i < hclen
            invariant
                self.wf(),
                self.reader.data == old(self).reader.data,
                d == old(self).reader.data@,
                self.last_block == old(self).last_block,
                self.output == old(self).output,
                old(self).reader.bitpos < self.reader.bitpos,
                self.reader.bitpos == p + 14 + 3 * i,
                i <= hclen <= 19,
                clens@.len() == 19,
                lens_valid(clens@),
                clens@ == clens_spec(d, p + 14, i as int),
                dynamic_header(d, p) == (hlit as int, hdist as int, hclen as int),
                p == old(self).reader.bitpos,
                hlit <= 286,
                hdist <= 30,
                d.len() * 8 - p >= 14,
                forall|j: int| 0 <= j < 19 ==> order@[j] as int == clen_order(j),
                forall|j: int| 0 <= j < 19 ==> order@[j] < 19,
            decreases hclen - i,
        {
            let ghost q = self.reader.bitpos;
            let vr = self.reader.bits(3);
            if vr.is_err() {
                assert(d.len() * 8 - p < 14 + 3 * hclen);
                return Err(FlateError::UnexpectedEof);
            }
            let v = vr.unwrap();
            proof {
                reveal_with_fuel(pow2, 4);
                lemma_bits_value_bound(self.reader.data@, q as int, 3);
            }
            clens.set(order[i], v);
            i = i + 1;
        }
        let tree = HuffmanTree::construct(clens.as_slice())?;
        let total = hlit + hdist;
        let ghost q1 = self.reader.bitpos as int;
        let lr = self.read_lengths(&tree, total);
        if let Err(e) = lr {
            assert(clens@ == clens_spec(d, p + 14, hclen as int));
            assert(dyn_lens_result(tree, d, p, old(self).output@, Err::<(), FlateError>(e), self.output@, self.reader.bitpos as int));
            return Err(e);
        }
        let lengths = lr.unwrap();
        let ghost q2 = self.reader.bitpos as int;
        let mut litlens: Vec<u16> = Vec::new();
        let mut distlens: Vec<u16> = Vec::new();
        let mut k: usize = 0;
        while k < total
            invariant
                k <= total <= 316,
                hlit <= total,
                lengths@.len() == 316,
                lens_valid(lengths@),
                litlens@ == lengths@.take(if k < hlit { k as int } else { hlit as int }),
                distlens@ == lengths@.subrange(hlit as int, if k < hlit { hlit as int } else { k as int }),
                lens_valid(litlens@),
                lens_valid(distlens@),
            decreases total - k,
        {
            if k < hlit {
                litlens.push(lengths[k]);
                proof {
                    assert(lengths@.take(k as int + 1) =~= lengths@.take(k as int).push(lengths@[k as int]));
                }
            } else {
                distlens.push(lengths[k]);
                proof {
                    assert(lengths@.subrange(hlit as int, k as int + 1) =~= lengths@.subrange(hlit as int, k as int).push(
                        lengths@[k as int],
                    ));
                }
            }
            k = k + 1;
        }
        assert(clens@ == clens_spec(d, p + 14, hclen as int));
        let lencode = match HuffmanTree::construct(litlens.as_slice()) {
            Ok(t) => t,
            Err(e) => {
                assert(dyn_lens_result(tree, d, p, old(self).output@, Err::<(), FlateError>(e), self.output@, self.reader.bitpos as int));
                return Err(e);
            },
        };
        let distcode = match HuffmanTree::construct(distlens.as_slice()) {
            Ok(t) => t,
            Err(e) => {
                assert(dyn_lens_result(tree, d, p, old(self).output@, Err::<(), FlateError>(e), self.output@, self.reader.bitpos as int));
                return Err(e);
            },
        };
        let r = self.codes(&lencode, &distcode);
        proof {
            assert(codes_result(codes_spec(lencode, distcode, d, q2, old(self).output@), r, self.output@, self.reader.bitpos as int));
            assert(dyn_lens_result(tree, d, p, old(self).output@, r, self.output@, self.reader.bitpos as int));
        }
        r
    }

    /// Reads `total` code lengths coded with `tree`, expanding the repeat codes.
    fn read_lengths(&mut self, tree: &HuffmanTree, total: usize) -> (r: Result<Vec<u16>, FlateError>)
        requires
            old(self).wf(),
            tree.wf(),
            total <= 316,
        ensures
            final(self).wf(),
            final(self).reader.data == old(self).reader.data,
            final(self).last_block == old(self).last_block,
            final(self).output == old(self).output,
            r is Ok ==> old(self).reader.bitpos <= final(self).reader.bitpos,
            r matches Ok(l) ==> l@.len() == 316 && lens_valid(l@),
            (match lens_spec(
                *tree,
                old(self).reader.data@,
                old(self).reader.bitpos as int,
                total as int,
                0,
                Seq::new(316, |j: int| 0u16),
            ) {
                Ok((l, q)) => r is Ok && r->Ok_0@ == l && final(self).reader.bitpos == q,
                Err(e) => r == Err::<Vec<u16>, FlateError>(e),
            }),
    {
        let mut lengths: Vec<u16> = vec![0u16; 316];
        let ghost target = lens_spec(
            *tree,
            self.reader.data@,
            self.reader.bitpos as int,
            total as int,
            0,
            Seq::new(316, |j: int| 0u16),
        );
        proof {
            assert(lengths@ =~= Seq::new(316, |j: int| 0u16));
        }
        let mut i: usize = 0;
        while i < total
            invariant
                self.wf(),
                tree.wf(),
                self.reader.data == old(self).reader.data,
                self.last_block == old(self).last_block,
                self.output == old(self).output,
                old(self).reader.bitpos <= self.reader.bitpos,
                i <= total <= 316,
                lengths@.len() == 316,
                lens_valid(lengths@),
                lens_spec(*tree, self.reader.data@, self.reader.bitpos as int, total as int, i as int, lengths@) == target,
                target == lens_spec(
                    *tree,
                    old(self).reader.data@,
                    old(self).reader.bitpos as int,
                    total as int,
                    0,
                    Seq::new(316, |j: int| 0u16),
                ),
            decreases self.reader.remaining(),
        {
            let ghost p = self.reader.bitpos as int;
            let ghost dd = self.reader.data@;
            let ghost ll = lengths@;
            let res = tree.decode(&mut self.reader);
            if let Err(e) = res {
                assert(!code_ok(*tree, dd, p) && code_error(*tree, dd, p) == e);
                assert(lens_spec(*tree, dd, p, total as int, i as int, ll) == Err::<(Seq<u16>, int), FlateError>(e));
                return Err(e);
            }
            let symbol = res.unwrap();
            let ghost p1 = self.reader.bitpos as int;
            assert(code_ok(*tree, dd, p) && code_sym(*tree, dd, p) == symbol && p + code_len(*tree, dd, p) == p1);
            if symbol < 16 {
                lengths.set(i, symbol);
                i = i + 1;
            } else if symbol == 16 {
                if i == 0 {
                    return Err(FlateError::InvalidHuffmanHeaderSymbol);
                }
                let prev = lengths[i - 1];
                let rep = self.reader.bits(2)? as usize + 3;
                if rep > total - i {
                    return Err(FlateError::InvalidHuffmanTreeHeader);
                }
                let ghost l0 = lengths@;
                let ghost i0 = i as int;
                let mut k: usize = 0;
                while k < rep
                    invariant
                        k <= rep,
                        i == i0 + k,
                        i0 + rep <= total <= 316,
                        lengths@.len() == 316,
                        lens_valid(lengths@),
                        prev <= 15,
                        lengths@ == fill(l0, i0, k as int, prev),
                    decreases rep - k,
                {
                    lengths.set(i, prev);
                    proof {
                        assert(lengths@ =~= fill(l0, i0, k as int + 1, prev));
                    }
                    i = i + 1;
                    k = k + 1;
                }
            } else if symbol == 17 {
                let rep = self.reader.bits(3)? as usize + 3;
                if rep > total - i {
                    return Err(FlateError::InvalidHuffmanTreeHeader);
                }
                i = i + rep;
            } else if symbol == 18 {
                let rep = self.reader.bits(7)? as usize + 11;
                if rep > total - i {
                    return Err(FlateError::InvalidHuffmanTreeHeader);
                }
                i = i + rep;
            } else {
                assert(lens_spec(*tree, dd, p, total as int, i as int, ll) == Err::<(Seq<u16>, int), FlateError>(
                    FlateError::InvalidHuffmanHeaderSymbol,
                ));
                return Err(FlateError::InvalidHuffmanHeaderSymbol);
            }
        }
        Ok(lengths)
    }
}

/// Copies a slice into a new vector.
pub fn bytes_to_vec(b: &[u8]) -> (r: Vec<u8>)
    ensures
        r@ == b@,
{
    let mut v: Vec<u8> = Vec::new();
    let mut i: usize = 0;
    while i < b.len()
        invariant
            i <= b@.len(),
            v@ == b@.take(i as int),
        decreases b.len() - i,
    {
        v.push(b[i]);
        proof {
            assert(b@.take(i as int + 1) =~= b@.take(i as int).push(b@[i as int]));
        }
        i = i + 1;
    }
    assert(b@.take(i as int) =~= b@);
    v
}

/// What decoding a stored block whose header ends at bit `p` gives: its
/// result, the output after it, and the bit position after it.
pub open spec fn stored_result(
    d: Seq<u8>,
    p: int,
    out0: Seq<u8>,
    r: Result<(), FlateError>,
    out1: Seq<u8>,
    pos1: int,
) -> bool {
    let q = byte_after(p);
    let len = le16(d, q);
    if q + 4 > d.len() {
        r == Err::<(), FlateError>(FlateError::UnexpectedEof) && out1 == out0
    } else if len + le16(d, q + 2) != 0xffff {
        r == Err::<(), FlateError>(FlateError::InvalidStaticSize) && out1 == out0
    } else if q + 4 + len > d.len() {
        r == Err::<(), FlateError>(FlateError::UnexpectedEof) && out1 == out0
    } else {
        &&& r is Ok
        &&& out1 == out0 + d.subrange(q + 4, q + 4 + len)
        &&& pos1 == (q + 4 + len) * 8
    }
}

impl Decoder {
    /// Decodes one block: its header, then its body by block type.
    pub fn block(&mut self) -> (r: Result<(), FlateError>)
        requires
            old(self).wf(),
        ensures
            final(self).wf(),
            final(self).reader.data == old(self).reader.data,
            old(self).reader.remaining() < 3 ==> r == Err::<(), FlateError>(FlateError::UnexpectedEof),
            old(self).reader.remaining() >= 3 && bits_value(old(self).reader.data@, old(self).reader.bitpos + 1, 2)
                == 3 ==> r == Err::<(), FlateError>(FlateError::InvalidBlockCode),
            r is Ok ==> extends(old(self).output@, final(self).output@),
            r is Ok ==> old(self).reader.bitpos < final(self).reader.bitpos,
            r is Ok ==> final(self).last_block == (old(self).last_block || bit_at(
                old(self).reader.data@,
                old(self).reader.bitpos as int,
            ) == 1),
            old(self).reader.remaining() >= 3 && bits_value(old(self).reader.data@, old(self).reader.bitpos + 1, 2)
                == 1 ==> fixed_result(
                old(self).reader.data@,
                old(self).reader.bitpos + 3,
                old(self).output@,
                r,
                final(self).output@,
                final(self).reader.bitpos as int,
            ),
            old(self).reader.remaining() >= 3 && bits_value(old(self).reader.data@, old(self).reader.bitpos + 1, 2)
                == 2 ==> dynamic_result(
                old(self).reader.data@,
                old(self).reader.bitpos + 3,
                old(self).output@,
                r,
                final(self).output@,
                final(self).reader.bitpos as int,
            ),
            old(self).reader.remaining() >= 3 && bits_value(old(self).reader.data@, old(self).reader.bitpos + 1, 2)
                == 0 ==> stored_result(old(self).reader.data@, old(self).reader.bitpos + 3, old(self).output@, r,
                final(self).output@, final(self).reader.bitpos as int),
    {
        let ghost p = self.reader.bitpos;
        let last = self.reader.bits(1)?;
        proof {
            let d = self.reader.data@;
            assert(pow2(0) == 1);
            assert(bits_value(d, p as int, 0) == 0);
            assert(bits_value(d, p as int, 1) == bits_value(d, p as int, 0) + bit_at(d, p as int) as nat * pow2(0));
            assert(last as int == bit_at(d, p as int) as int);
        }
        if last == 1 {
            self.last_block = true;
        }
        let btype = self.reader.bits(2)?;
        if btype == 0 {
            let r = self.stored();
            proof {
                let d = old(self).reader.data@;
                let q = byte_after(p + 3);
                assert(stored_result(d, p + 3, old(self).output@, r, self.output@, self.reader.bitpos as int));
                if r is Ok {
                    lemma_extends_append(old(self).output@, d.subrange(q + 4, q + 4 + le16(d, q)));
                }
            }
            r
        } else if btype == 1 {
            self.fixed()
        } else if btype == 2 {
            self.dynamic()
        } else {
            Err(FlateError::InvalidBlockCode)
        }
    }

    /// Decodes blocks until the one marked final.
    #[verifier::rlimit(100)]
    #[verifier::spinoff_prover]
    pub fn decode_all(&mut self) -> (r: Result<(), FlateError>)
        requires
            old(self).wf(),
        ensures
            final(self).wf(),
            final(self).reader.data == old(self).reader.data,
            r is Ok ==> final(self).last_block && extends(old(self).output@, final(self).output@),
            !old(self).last_block ==> inflate_rel(
                old(self).reader.data@,
                old(self).reader.bitpos as int,
                old(self).output@,
                r,
                final(self).output@,
                final(self).reader.bitpos as int,
            ),
    {
        let ghost d = self.reader.data@;
        let ghost p0 = self.reader.bitpos as int;
        let ghost o0 = self.output@;
        proof {
            assert(self.output@.take(self.output@.len() as int) =~= self.output@);
        }
        if self.last_block {
            return Ok(());
        }
        loop
            invariant
                self.wf(),
                self.reader.data == old(self).reader.data,
                d == old(self).reader.data@,
                extends(old(self).output@, self.output@),
                !self.last_block,
                !old(self).last_block,
                p0 == old(self).reader.bitpos,
                o0 == old(self).output@,
                forall|rr: Result<(), FlateError>, oo: Seq<u8>, pp: int|
                    #[trigger] inflate_rel(d, self.reader.bitpos as int, self.output@, rr, oo, pp) ==> inflate_rel(
                        d,
                        p0,
                        o0,
                        rr,
                        oo,
                        pp,
                    ),
            decreases self.reader.remaining(),
        {
            let ghost pc = self.reader.bitpos as int;
            let ghost oc = self.output@;
            proof {
                reveal_with_fuel(pow2, 3);
                lemma_bits_value_bound(d, pc + 1, 2);
            }
            let r = self.block();
            proof {
                assert(block_result(d, pc, oc, r, self.output@, self.reader.bitpos as int, self.last_block));
            }
            match r {
                Err(e) => {
                    proof {
                        lemma_inflate_stop(d, pc, oc, r, self.output@, self.reader.bitpos as int, self.last_block);
                        assert(inflate_rel(d, p0, o0, r, self.output@, self.reader.bitpos as int));
                    }
                    return Err(e);
                },
                Ok(_) => {},
            }
            proof {
                lemma_extends_trans(old(self).output@, oc, self.output@);
            }
            if self.last_block {
                proof {
                    lemma_inflate_stop(d, pc, oc, r, self.output@, self.reader.bitpos as int, self.last_block);
                    assert(inflate_rel(d, p0, o0, r, self.output@, self.reader.bitpos as int));
                }
                return r;
            }
            proof {
                lemma_inflate_chain(d, pc, oc, r, self.output@, self.reader.bitpos as int);
            }
        }
    }
}

proof fn lemma_inflate_stop(d: Seq<u8>, p: int, out0: Seq<u8>, r: Result<(), FlateError>, out1: Seq<u8>, pos1: int, fin: bool)
    requires
        block_result(d, p, out0, r, out1, pos1, fin),
        r is Err || fin,
    ensures
        inflate_rel(d, p, out0, r, out1, pos1),
{
    assert(block_result(d, p, out0, r, out1, pos1, fin));
}

proof fn lemma_inflate_chain(d: Seq<u8>, p: int, out0: Seq<u8>, r: Result<(), FlateError>, o: Seq<u8>, q: int)
    requires
        block_result(d, p, out0, r, o, q, false),
        r is Ok,
    ensures
        forall|rr: Result<(), FlateError>, oo: Seq<u8>, pp: int|
            #[trigger] inflate_rel(d, q, o, rr, oo, pp) ==> inflate_rel(d, p, out0, rr, oo, pp),
{
    assert forall|rr: Result<(), FlateError>, oo: Seq<u8>, pp: int|
        #[trigger] inflate_rel(d, q, o, rr, oo, pp) implies inflate_rel(d, p, out0, rr, oo, pp) by {
        assert(block_result(d, p, out0, r, o, q, false));
    }
}

/// The result of one block at bit `p`: `r`, with the output `out1` and bit
/// position `pos1` it leaves, and `fin` whether it is marked final.
pub open spec fn block_result(
    d: Seq<u8>,
    p: int,
    out0: Seq<u8>,
    r: Result<(), FlateError>,
    out1: Seq<u8>,
    pos1: int,
    fin: bool,
) -> bool {
    if d.len() * 8 - p < 3 {
        r == Err::<(), FlateError>(FlateError::UnexpectedEof)
    } else {
        let bt = bits_value(d, p + 1, 2);
        &&& r is Ok ==> fin == (bit_at(d, p) == 1) && p < pos1 <= d.len() * 8
        &&& if bt == 0 {
            stored_result(d, p + 3, out0, r, out1, pos1)
        } else if bt == 1 {
            fixed_result(d, p + 3, out0, r, out1, pos1)
        } else if bt == 2 {
            dynamic_result(d, p + 3, out0, r, out1, pos1)
        } else {
            r == Err::<(), FlateError>(FlateError::InvalidBlockCode)
        }
    }
}

/// Decoding blocks from bit `p` up to the one marked final gives `r`, with
/// the output `out1` and the bit position `pos1` after it: each block's
/// result in turn, the first error ending the stream.
pub open spec fn inflate_rel(
    d: Seq<u8>,
    p: int,
    out0: Seq<u8>,
    r: Result<(), FlateError>,
    out1: Seq<u8>,
    pos1: int,
) -> bool
    decreases d.len() * 8 - p,
{
    exists|rb: Result<(), FlateError>, o: Seq<u8>, q: int, fin: bool|
        #[trigger] block_result(d, p, out0, rb, o, q, fin) && match rb {
            Err(e) => r == Err::<(), FlateError>(e),
            Ok(_) => if fin {
                r is Ok && out1 == o && pos1 == q
            } else if p < q <= d.len() * 8 {
                inflate_rel(d, q, o, r, out1, pos1)
            } else {
                false
            },
        }
}

/// The DEFLATE stream at the start of `input` decodes to `out`, and its
/// last block ends in byte `end - 1`.
#[verifier::opaque]
pub open spec fn inflates_to(input: Seq<u8>, out: Seq<u8>, end: int) -> bool {
    exists|u: Result<(), FlateError>, pos: int|
        u is Ok && #[trigger] inflate_rel(input, 0, seq![], u, out, pos) && end == byte_after(pos)
}

/// Decoding the DEFLATE stream at the start of `input` fails with `e`.
#[verifier::opaque]
pub open spec fn inflate_fails(input: Seq<u8>, e: FlateError) -> bool {
    exists|o: Seq<u8>, pos: int| #[trigger] inflate_rel(input, 0, seq![], Err::<(), FlateError>(e), o, pos)
}

/// Decodes a whole DEFLATE stream. On success, also gives the offset of the
/// first byte after the stream.
pub fn inflate(input: &[u8]) -> (r: Result<(Vec<u8>, usize), FlateError>)
    requires
        input@.len() < usize::MAX / 8,
    ensures
        r matches Ok((out, end)) ==> end <= input@.len() && inflates_to(input@, out@, end as int),
        r matches Err(e) ==> inflate_fails(input@, e),
{
    let mut dec = Decoder::new(bytes_to_vec(input));
    assert(dec.output@ =~= seq![]);
    let r = dec.decode_all();
    match r {
        Err(e) => {
            assert(inflate_rel(input@, 0, seq![], Err::<(), FlateError>(e), dec.output@, dec.reader.bitpos as int));
            reveal(inflate_fails);
            return Err(e);
        },
        Ok(_) => {},
    }
    let end = dec.reader.bitpos / 8 + if dec.reader.bitpos % 8 == 0 { 0 } else { 1 };
    assert(inflate_rel(input@, 0, seq![], r, dec.output@, dec.reader.bitpos as int));
    assert(end == byte_after(dec.reader.bitpos as int));
    assert(r is Ok);
    assert(end <= input@.len());
    assert(inflates_to(input@, dec.output@, end as int)) by {
        reveal(inflates_to);
    }
    Ok((dec.output, end))
}

proof fn lemma_slot_hit_prefix(lens: Seq<u16>, i: int, l: int, k: int)
    requires
        0 <= i <= lens.len(),
        1 <= l <= 15,
        codes_before(lens, l) <= k < codes_before(lens, l) + count_len(lens.take(i), l),
    ensures
        exists|j: int| 0 <= j < i && lens[j] == l && #[trigger] code_slot(lens, j) == k,
    decreases i,
{
    if i == 0 {
        assert(lens.take(0) =~= Seq::<u16>::empty());
    } else {
        lemma_count_take_step(lens, i - 1, l);
        if k < codes_before(lens, l) + count_len(lens.take(i - 1), l) {
            lemma_slot_hit_prefix(lens, i - 1, l, k);
        } else {
            assert(lens[i - 1] == l);
            assert(code_slot(lens, i - 1) == k);
        }
    }
}

proof fn lemma_slot_hit_range(lens: Seq<u16>, top: int, k: int)
    requires
        1 <= top <= 16,
        0 <= k < codes_before(lens, top),
    ensures
        exists|j: int| 0 <= j < lens.len() && lens[j] != 0 && #[trigger] code_slot(lens, j) == k,
    decreases top,
{
    if top > 1 {
        if k >= codes_before(lens, top - 1) {
            assert(lens.take(lens.len() as int) =~= lens);
            lemma_slot_hit_prefix(lens, lens.len() as int, top - 1, k);
        } else {
            lemma_slot_hit_range(lens, top - 1, k);
        }
    }
}

proof fn lemma_canonical_symbol_eq(t1: HuffmanTree, t2: HuffmanTree, lens: Seq<u16>, k: int)
    requires
        canonical(t1, lens),
        canonical(t2, lens),
        0 <= k < t1.codes_upto(16),
    ensures
        t1.symbol@[k] == t2.symbol@[k],
{
    lemma_codes_upto_before(t1, lens, 16);
    lemma_slot_hit_range(lens, 16, k);
    let j = choose|j: int| 0 <= j < lens.len() && lens[j] != 0 && #[trigger] code_slot(lens, j) == k;
    assert(t1.symbol@[code_slot(lens, j)] == j);
    assert(t2.symbol@[code_slot(lens, j)] == j);
}

proof fn lemma_walk_eq(
    t1: HuffmanTree,
    t2: HuffmanTree,
    lens: Seq<u16>,
    d: Seq<u8>,
    p: int,
    len: int,
    code: int,
    first: int,
    index: int,
)
    requires
        canonical(t1, lens),
        canonical(t2, lens),
        1 <= len <= 16,
        index == t1.codes_upto(len),
        0 <= first <= code,
    ensures
        huff_walk(t1, d, p, len, code, first, index) == huff_walk(t2, d, p, len, code, first, index),
    decreases 16 - len,
{
    if len <= 15 {
        let c = code + bit_at(d, p + len - 1) as int;
        let count = t1.count@[len] as int;
        assert(t1.count@[len] == count_len(lens, len));
        assert(t2.count@[len] == count_len(lens, len));
        let b = bit_at(d, p + len - 1);
        assert(b >= 0);
        if c < first + count {
            lemma_codes_upto_mono(&t1, len + 1, 16);
            lemma_codes_upto_mono(&t1, 1, len);
            assert(t1.codes_upto(len + 1) == t1.codes_upto(len) + count);
            lemma_canonical_symbol_eq(t1, t2, lens, index + c - first);
        } else {
            lemma_walk_eq(t1, t2, lens, d, p, len + 1, 2 * c, 2 * (first + count), index + count);
        }
    }
}

/// Any two decoding tables for the same code lengths decode alike.
pub proof fn lemma_huff_decode_eq(t1: HuffmanTree, t2: HuffmanTree, lens: Seq<u16>, d: Seq<u8>, p: int)
    requires
        canonical(t1, lens),
        canonical(t2, lens),
    ensures
        huff_decode(t1, d, p) == huff_decode(t2, d, p),
{
    lemma_walk_eq(t1, t2, lens, d, p, 1, 0, 0, 0);
}

proof fn lemma_codes_spec_eq(
    lc1: HuffmanTree,
    dc1: HuffmanTree,
    lc2: HuffmanTree,
    dc2: HuffmanTree,
    ll: Seq<u16>,
    dl: Seq<u16>,
    d: Seq<u8>,
    p: int,
    out: Seq<u8>,
)
    requires
        canonical(lc1, ll),
        canonical(lc2, ll),
        canonical(dc1, dl),
        canonical(dc2, dl),
    ensures
        codes_spec(lc1, dc1, d, p, out) == codes_spec(lc2, dc2, d, p, out),
    decreases d.len() * 8 - p,
{
    lemma_huff_decode_eq(lc1, lc2, ll, d, p);
    if code_ok(lc1, d, p) {
        let sym = code_sym(lc1, d, p);
        let p1 = p + code_len(lc1, d, p);
        if p1 > p {
            if sym < 256 {
                lemma_codes_spec_eq(lc1, dc1, lc2, dc2, ll, dl, d, p1, out.push(sym as u8));
            } else if sym > 256 && sym - 257 < 29 {
                let n = sym - 257;
                let nb = length_extra(n);
                if d.len() * 8 - p1 >= nb {
                    let len = length_base(n) + bits_value(d, p1, nb);
                    let p2 = p1 + nb;
                    lemma_huff_decode_eq(dc1, dc2, dl, d, p2);
                    if code_ok(dc1, d, p2) {
                        let ds = code_sym(dc1, d, p2);
                        let p3 = p2 + code_len(dc1, d, p2);
                        if ds < 30 {
                            let db = dist_extra(ds as int);
                            if d.len() * 8 - p3 >= db {
                                let dist = dist_base(ds as int) + bits_value(d, p3, db);
                                if !(dist == 0 || dist > out.len()) && p3 >= p2 {
                                    lemma_codes_spec_eq(
                                        lc1,
                                        dc1,
                                        lc2,
                                        dc2,
                                        ll,
                                        dl,
                                        d,
                                        p3 + db,
                                        copy_back(out, dist, len as nat),
                                    );
                                }
                            }
                        }
                    }
                }
            }
        }
    }
}

proof fn lemma_lens_spec_eq(ct1: HuffmanTree, ct2: HuffmanTree, cl: Seq<u16>, d: Seq<u8>, p: int, total: int, i: int, l: Seq<u16>)
    requires
        canonical(ct1, cl),
        canonical(ct2, cl),
    ensures
        lens_spec(ct1, d, p, total, i, l) == lens_spec(ct2, d, p, total, i, l),
    decreases d.len() * 8 - p,
{
    lemma_huff_decode_eq(ct1, ct2, cl, d, p);
    if i < total && code_ok(ct1, d, p) {
        let sym = code_sym(ct1, d, p);
        let p1 = p + code_len(ct1, d, p);
        let rem = d.len() * 8 - p1;
        if p1 > p {
            if sym < 16 {
                lemma_lens_spec_eq(ct1, ct2, cl, d, p1, total, i + 1, l.update(i, sym));
            } else if sym == 16 {
                if i != 0 && rem >= 2 {
                    let rep = bits_value(d, p1, 2) + 3;
                    if rep <= total - i {
                        lemma_lens_spec_eq(ct1, ct2, cl, d, p1 + 2, total, i + rep, fill(l, i, rep as int, l[i - 1]));
                    }
                }
            } else if sym == 17 || sym == 18 {
                let nb: nat = if sym == 17 { 3 } else { 7 };
                if rem >= nb {
                    let rep = bits_value(d, p1, nb) + if sym == 17 { 3nat } else { 11nat };
                    if rep <= total - i {
                        lemma_lens_spec_eq(ct1, ct2, cl, d, p1 + nb, total, i + rep, l);
                    }
                }
            }
        }
    }
}

/// Two results agree: the same result, and on success the same output
/// and position.
pub open spec fn same_result(
    r1: Result<(), FlateError>,
    o1: Seq<u8>,
    p1: int,
    r2: Result<(), FlateError>,
    o2: Seq<u8>,
    p2: int,
) -> bool {
    &&& (r1 is Ok <==> r2 is Ok)
    &&& (r1 is Err ==> r1 == r2)
    &&& (r1 is Ok ==> o1 == o2 && p1 == p2)
}

proof fn lemma_fixed_unique(
    d: Seq<u8>,
    p: int,
    out0: Seq<u8>,
    r1: Result<(), FlateError>,
    o1: Seq<u8>,
    p1: int,
    r2: Result<(), FlateError>,
    o2: Seq<u8>,
    p2: int,
)
    requires
        fixed_result(d, p, out0, r1, o1, p1),
        fixed_result(d, p, out0, r2, o2, p2),
    ensures
        same_result(r1, o1, p1, r2, o2, p2),
{
    if !(kraft_sum(fixed_lit_lens()) > 32768 || kraft_sum(fixed_dist_lens()) > 32768) {
        let (lc1, dc1) = choose|lc: HuffmanTree, dc: HuffmanTree|
            canonical(lc, fixed_lit_lens()) && canonical(dc, fixed_dist_lens()) && #[trigger] codes_result(
                codes_spec(lc, dc, d, p, out0),
                r1,
                o1,
                p1,
            );
        let (lc2, dc2) = choose|lc: HuffmanTree, dc: HuffmanTree|
            canonical(lc, fixed_lit_lens()) && canonical(dc, fixed_dist_lens()) && #[trigger] codes_result(
                codes_spec(lc, dc, d, p, out0),
                r2,
                o2,
                p2,
            );
        assert(canonical(lc1, fixed_lit_lens()) && canonical(dc1, fixed_dist_lens()));
        assert(canonical(lc2, fixed_lit_lens()) && canonical(dc2, fixed_dist_lens()));
        lemma_codes_spec_eq(lc1, dc1, lc2, dc2, fixed_lit_lens(), fixed_dist_lens(), d, p, out0);
        let sp = codes_spec(lc1, dc1, d, p, out0);
        assert(codes_result(sp, r1, o1, p1));
        assert(codes_result(codes_spec(lc2, dc2, d, p, out0), r2, o2, p2));
        assert(codes_result(sp, r2, o2, p2));
        assert(same_result(r1, o1, p1, r2, o2, p2));
    }
}

#[verifier::rlimit(100)]
#[verifier::spinoff_prover]
proof fn lemma_dynamic_unique(
    d: Seq<u8>,
    p: int,
    out0: Seq<u8>,
    r1: Result<(), FlateError>,
    o1: Seq<u8>,
    p1: int,
    r2: Result<(), FlateError>,
    o2: Seq<u8>,
    p2: int,
)
    requires
        dynamic_result(d, p, out0, r1, o1, p1),
        dynamic_result(d, p, out0, r2, o2, p2),
    ensures
        same_result(r1, o1, p1, r2, o2, p2),
{
    let (hlit, hdist, hclen) = dynamic_header(d, p);
    let rem = d.len() * 8 - p;
    if rem >= 14 && !(hlit > 286 || hdist > 30) && rem >= 14 + 3 * hclen && kraft_sum(clens_spec(d, p + 14, hclen))
        <= 32768 {
        let cl = clens_spec(d, p + 14, hclen);
        let ct1 = choose|ct: HuffmanTree| canonical(ct, cl) && #[trigger] dyn_lens_result(ct, d, p, out0, r1, o1, p1);
        let ct2 = choose|ct: HuffmanTree| canonical(ct, cl) && #[trigger] dyn_lens_result(ct, d, p, out0, r2, o2, p2);
        let q = p + 14 + 3 * hclen;
        lemma_lens_spec_eq(ct1, ct2, cl, d, q, hlit + hdist, 0, Seq::new(316, |j: int| 0u16));
        match lens_spec(ct1, d, q, hlit + hdist, 0, Seq::new(316, |j: int| 0u16)) {
            Err(e) => {},
            Ok((lens, q2)) => {
                if !(kraft_sum(lens.take(hlit)) > 32768 || kraft_sum(lens.subrange(hlit, hlit + hdist)) > 32768) {
                    let (lc1, dc1) = choose|lc: HuffmanTree, dc: HuffmanTree|
                        canonical(lc, lens.take(hlit)) && canonical(dc, lens.subrange(hlit, hlit + hdist))
                            && #[trigger] codes_result(codes_spec(lc, dc, d, q2, out0), r1, o1, p1);
                    let (lc2, dc2) = choose|lc: HuffmanTree, dc: HuffmanTree|
                        canonical(lc, lens.take(hlit)) && canonical(dc, lens.subrange(hlit, hlit + hdist))
                            && #[trigger] codes_result(codes_spec(lc, dc, d, q2, out0), r2, o2, p2);
                    lemma_codes_spec_eq(lc1, dc1, lc2, dc2, lens.take(hlit), lens.subrange(hlit, hlit + hdist), d, q2, out0);
                    let sp = codes_spec(lc1, dc1, d, q2, out0);
                    assert(codes_result(sp, r1, o1, p1));
                    assert(codes_result(sp, r2, o2, p2));
                }
            },
        }
    }
}

#[verifier::spinoff_prover]
proof fn lemma_block_unique(
    d: Seq<u8>,
    p: int,
    out0: Seq<u8>,
    r1: Result<(), FlateError>,
    o1: Seq<u8>,
    p1: int,
    f1: bool,
    r2: Result<(), FlateError>,
    o2: Seq<u8>,
    p2: int,
    f2: bool,
)
    requires
        block_result(d, p, out0, r1, o1, p1, f1),
        block_result(d, p, out0, r2, o2, p2, f2),
    ensures
        same_result(r1, o1, p1, r2, o2, p2),
        r1 is Ok ==> f1 == f2,
{
    if d.len() * 8 - p >= 3 {
        let bt = bits_value(d, p + 1, 2);
        if bt == 0 {
            assert(stored_result(d, p + 3, out0, r1, o1, p1));
            assert(stored_result(d, p + 3, out0, r2, o2, p2));
        } else if bt == 1 {
            assert(fixed_result(d, p + 3, out0, r1, o1, p1));
            assert(fixed_result(d, p + 3, out0, r2, o2, p2));
            lemma_fixed_unique(d, p + 3, out0, r1, o1, p1, r2, o2, p2);
        } else if bt == 2 {
            assert(dynamic_result(d, p + 3, out0, r1, o1, p1));
            assert(dynamic_result(d, p + 3, out0, r2, o2, p2));
            lemma_dynamic_unique(d, p + 3, out0, r1, o1, p1, r2, o2, p2);
        }
    }
}

/// A DEFLATE stream has one result: two decodings of it from the same
/// point agree.
#[verifier::rlimit(100)]
#[verifier::spinoff_prover]
pub proof fn lemma_inflate_unique(
    d: Seq<u8>,
    p: int,
    out0: Seq<u8>,
    r1: Result<(), FlateError>,
    o1: Seq<u8>,
    p1: int,
    r2: Result<(), FlateError>,
    o2: Seq<u8>,
    p2: int,
)
    requires
        inflate_rel(d, p, out0, r1, o1, p1),
        inflate_rel(d, p, out0, r2, o2, p2),
    ensures
        same_result(r1, o1, p1, r2, o2, p2),
    decreases d.len() * 8 - p,
{
    let (rb1, b1, q1, f1) = choose|rb: Result<(), FlateError>, o: Seq<u8>, q: int, fin: bool|
        #[trigger] block_result(d, p, out0, rb, o, q, fin) && match rb {
            Err(e) => r1 == Err::<(), FlateError>(e),
            Ok(_) => if fin {
                r1 is Ok && o1 == o && p1 == q
            } else if p < q <= d.len() * 8 {
                inflate_rel(d, q, o, r1, o1, p1)
            } else {
                false
            },
        };
    let (rb2, b2, q2, f2) = choose|rb: Result<(), FlateError>, o: Seq<u8>, q: int, fin: bool|
        #[trigger] block_result(d, p, out0, rb, o, q, fin) && match rb {
            Err(e) => r2 == Err::<(), FlateError>(e),
            Ok(_) => if fin {
                r2 is Ok && o2 == o && p2 == q
            } else if p < q <= d.len() * 8 {
                inflate_rel(d, q, o, r2, o2, p2)
            } else {
                false
            },
        };
    lemma_block_unique(d, p, out0, rb1, b1, q1, f1, rb2, b2, q2, f2);
    if rb1 is Ok && !f1 {
        lemma_inflate_unique(d, q1, b1, r1, o1, p1, r2, o2, p2);
    }
}

/// A stream decodes to one output, ending at one place, and never both
/// decodes and fails.
pub proof fn lemma_inflates_to_unique(input: Seq<u8>, o1: Seq<u8>, e1: int, o2: Seq<u8>, e2: int, err: FlateError)
    ensures
        inflates_to(input, o1, e1) && inflates_to(input, o2, e2) ==> o1 == o2 && e1 == e2,
        inflates_to(input, o1, e1) ==> !inflate_fails(input, err),
{
    reveal(inflates_to);
    reveal(inflate_fails);
    if inflates_to(input, o1, e1) && inflates_to(input, o2, e2) {
        let (u1, q1) = choose|u: Result<(), FlateError>, pos: int|
            u is Ok && #[trigger] inflate_rel(input, 0, seq![], u, o1, pos) && e1 == byte_after(pos);
        let (u2, q2) = choose|u: Result<(), FlateError>, pos: int|
            u is Ok && #[trigger] inflate_rel(input, 0, seq![], u, o2, pos) && e2 == byte_after(pos);
        lemma_inflate_unique(input, 0, seq![], u1, o1, q1, u2, o2, q2);
    }
    if inflates_to(input, o1, e1) && inflate_fails(input, err) {
        let (u1, q1) = choose|u: Result<(), FlateError>, pos: int|
            u is Ok && #[trigger] inflate_rel(input, 0, seq![], u, o1, pos) && e1 == byte_after(pos);
        let (o, q) = choose|o: Seq<u8>, pos: int|
            #[trigger] inflate_rel(input, 0, seq![], Err::<(), FlateError>(err), o, pos);
        lemma_inflate_unique(input, 0, seq![], u1, o1, q1, Err::<(), FlateError>(err), o, q);
    }
}

} // verus!
