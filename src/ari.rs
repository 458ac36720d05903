//! Arithmetic coding with a range coder and pluggable probability models.

use vstd::prelude::*;

verus! {

/// The mask of a code word's top byte.
pub const BORDER_SYMBOL_MASK: u32 = 0xff000000;
/// The default least width of the coding interval.
pub const RANGE_DEFAULT_THRESHOLD: u32 = 16384;

/// What can go wrong while arithmetic decoding.
#[derive(PartialEq, Eq, Structural, Debug, Clone, Copy)]
pub enum AriError {
    /// The code stream ended early.
    UnexpectedEof,
    /// The code word lies outside the coding interval.
    InvalidCode,
}

/// The range coder: the current interval `[low, hai)` of code words.
pub struct RangeEncoder {
    /// The interval's lower end.
    pub low: u32,
    /// The interval's upper end (excluded).
    pub hai: u32,
    /// The least width of the interval; at least twice the largest
    /// denominator of the models used.
    pub threshold: u32,
}

/// `2^(6k + 1)`: a lower bound on the interval's width after `k` output bytes.
pub open spec fn width_floor(k: int) -> int {
    if k <= 0 {
        2
    } else if k == 1 {
        128
    } else if k == 2 {
        8192
    } else if k == 3 {
        524288
    } else {
        33554432
    }
}

/// Renormalisation of the interval `[lo, hi)` after `k` code bytes: while
/// the top bytes of the ends agree, emit that byte and shift both ends up by
/// a byte; when they differ but the interval is at most `thr` wide, first cut
/// it at the byte boundary, keeping the larger side. Gives the new interval
/// and the bytes emitted.
pub open spec fn renorm(lo: u32, hi: u32, thr: u32, k: nat) -> (u32, u32, Seq<u8>)
    decreases 4 - k,
{
    if k >= 4 || lo >= hi {
        (lo, hi, seq![])
    } else if (lo ^ hi) & 0xff000000u32 != 0 && hi - lo > thr {
        (lo, hi, seq![])
    } else {
        let lim = hi & 0xff000000u32;
        let cut = (lo ^ hi) & 0xff000000u32 != 0;
        let upper = hi - lim >= lim - lo;
        let l1: u32 = if cut && upper { lim } else { lo };
        let h1: u32 = if cut && !upper { (lim - 1) as u32 } else { hi };
        let rest = renorm(l1 << 8u32, h1 << 8u32, thr, k + 1);
        (rest.0, rest.1, seq![(l1 >> 24u32) as u8] + rest.2)
    }
}

/// The interval `[from, to)` out of `total` takes within `[low, hai)`.
pub open spec fn narrowed(low: u32, hai: u32, total: u32, from: u32, to: u32) -> (u32, u32) {
    let range = (hai - low) / (total as int);
    ((low + range * from) as u32, (low + range * to) as u32)
}

impl RangeEncoder {
    /// The interval is wider than the threshold.
    pub open spec fn wf(&self) -> bool {
        &&& self.low < self.hai
        &&& self.hai - self.low > self.threshold
        &&& 0 < self.threshold < 0x1000000
    }

    /// The interval's lower end.
    pub open spec fn low(&self) -> u32 {
        self.low
    }

    /// The interval's upper end (excluded).
    pub open spec fn hai(&self) -> u32 {
        self.hai
    }

    /// A coder over the whole code space that keeps the interval wider than
    /// `max_range`.
    pub fn new(max_range: u32) -> (r: RangeEncoder)
        requires
            256 < max_range < 0x1000000,
        ensures
            r.wf(),
            r.threshold == max_range,
            r.low() == 0,
            r.hai() == 0xffffffff,
    {
        RangeEncoder { low: 0, hai: 0xffffffff, threshold: max_range }
    }

    /// Goes back to the whole code space.
    pub fn reset(&mut self)
        requires
            0 < old(self).threshold < 0x1000000,
        ensures
            final(self).wf(),
            final(self).threshold == old(self).threshold,
            final(self).low() == 0,
            final(self).hai() == 0xffffffff,
    {
        self.low = 0;
        self.hai = 0xffffffff;
    }

    /// Narrows the interval to `[from, to)` out of `total`, appending the
    /// code bytes that become fixed to `output`; gives how many there were.
    pub fn process(&mut self, total: u32, from: u32, to: u32, output: &mut Vec<u8>) -> (r: usize)
        requires
            old(self).wf(),
            from < to <= total,
            2 * total <= old(self).threshold,
        ensures
            final(self).wf(),
            final(self).threshold == old(self).threshold,
            r <= 4,
            final(output)@.len() == old(output)@.len() + r,
            final(output)@.take(old(output)@.len() as int) == old(output)@,
            (final(self).low ^ final(self).hai) & 0xff000000u32 != 0,
            ({
                let (lo, hi) = narrowed(old(self).low, old(self).hai, total, from, to);
                let rn = renorm(lo, hi, old(self).threshold, 0);
                &&& final(self).low == rn.0
                &&& final(self).hai == rn.1
                &&& final(output)@ == old(output)@ + rn.2
            }),
    {
        let range = (self.hai - self.low) / total;
        let ghost w: int = (self.hai - self.low) as int;
        let ghost t: int = total as int;
        assert(range as int == w / t);
        proof {
            assert(range >= 2) by (nonlinear_arith)
                requires
                    w > self.threshold,
                    2 * t <= self.threshold,
                    t > 0,
                    range == w / t,
            ;
            assert(range * t <= w) by (nonlinear_arith)
                requires
                    range == w / t,
                    t > 0,
                    w >= 0,
            ;
            assert(range * to <= range * t) by (nonlinear_arith)
                requires
                    to <= t,
                    range >= 0,
            ;
            assert(range * to - range * from >= range) by (nonlinear_arith)
                requires
                    from < to,
                    range >= 0,
            ;
        }
        let mut lo: u32 = self.low + range * from;
        let mut hi: u32 = self.low + range * to;
        let mut num_shift: usize = 0;
        let ghost o0 = output@;
        let ghost rn = renorm(lo, hi, self.threshold, 0);
        assert((lo, hi) == narrowed(old(self).low, old(self).hai, total, from, to));
        proof {
            assert(output@.skip(o0.len() as int) =~= Seq::<u8>::empty());
            assert(Seq::<u8>::empty() + rn.2 =~= rn.2);
        }
        loop
            invariant
                renorm(lo, hi, self.threshold, num_shift as nat).0 == rn.0,
                renorm(lo, hi, self.threshold, num_shift as nat).1 == rn.1,
                output@.skip(o0.len() as int) + renorm(lo, hi, self.threshold, num_shift as nat).2 == rn.2,
                lo < hi,
                hi - lo >= width_floor(num_shift as int),
                num_shift <= 4,
                0 < self.threshold < 0x1000000,
                output@.len() == o0.len() + num_shift,
                output@.take(o0.len() as int) == o0,
                o0 == old(output)@,
                self.threshold == old(self).threshold,
            ensures
                (lo ^ hi) & 0xff000000u32 != 0,
                lo == rn.0,
                hi == rn.1,
                output@.skip(o0.len() as int) == rn.2,
                lo < hi,
                hi - lo > self.threshold,
                num_shift <= 4,
                0 < self.threshold < 0x1000000,
                output@.len() == o0.len() + num_shift,
                output@.take(o0.len() as int) == o0,
                self.threshold == old(self).threshold,
            decreases 4 - num_shift,
        {
            let ghost lo0 = lo;
            let ghost hi0 = hi;
            let ghost out0 = output@;
            let differ = (lo ^ hi) & BORDER_SYMBOL_MASK;
            if differ != 0 {
                if hi - lo > self.threshold {
                    proof {
                        assert(output@.skip(o0.len() as int) + Seq::<u8>::empty() =~= output@.skip(o0.len() as int));
                    }
                    break;
                }
                assert(num_shift < 4);
                let ghost w0 = hi - lo;
                let lim = hi & BORDER_SYMBOL_MASK;
                assert(lo < lim <= hi) by (bit_vector)
                    requires
                        lo < hi,
                        (lo ^ hi) & 0xff000000u32 != 0,
                        lim == hi & 0xff000000u32,
                ;
                if hi - lim >= lim - lo {
                    lo = lim;
                    assert((lo ^ hi) & 0xff000000u32 == 0) by (bit_vector)
                        requires
                            lo == hi & 0xff000000u32,
                    ;
                } else {
                    let ghost h0 = hi;
                    hi = lim - 1;
                    assert((lo ^ hi) & 0xff000000u32 == 0) by (bit_vector)
                        requires
                            lo < lim,
                            lim <= h0,
                            lim == h0 & 0xff000000u32,
                            hi == lim - 1,
                            h0 - lo < 0x1000000u32,
                    ;
                }
                assert(4 * (hi - lo) >= w0);
            }
            proof {
                assert(hi - lo < 0x1000000 && (hi << 8u32) - (lo << 8u32) == (hi - lo) * 256 && (lo << 8u32) < (
                hi << 8u32)) by (bit_vector)
                    requires
                        lo < hi,
                        (lo ^ hi) & 0xff000000u32 == 0,
                ;
            }
            assert(num_shift < 4);
            let b = (lo >> 24u32) as u8;
            output.push(b);
            proof {
                let rest = renorm(lo << 8u32, hi << 8u32, self.threshold, num_shift as nat + 1);
                assert(renorm(lo0, hi0, self.threshold, num_shift as nat) == (rest.0, rest.1, seq![b] + rest.2));
                assert(output@.skip(o0.len() as int) =~= out0.skip(o0.len() as int).push(b));
                assert(output@.skip(o0.len() as int) + rest.2 =~= out0.skip(o0.len() as int) + (seq![b] + rest.2));
            }
            num_shift = num_shift + 1;
            lo = lo << 8u32;
            hi = hi << 8u32;
        }
        self.low = lo;
        self.hai = hi;
        proof {
            assert(output@ =~= o0 + output@.skip(o0.len() as int));
        }
        num_shift
    }
}

impl RangeEncoder {
    /// The offset, in units of `total`, of the code word `code` inside the
    /// interval.
    pub fn query(&self, total: u32, code: u32) -> (r: u32)
        requires
            self.wf(),
            0 < total,
            2 * total <= self.threshold,
            self.low <= code < self.hai,
        ensures
            r == (code - self.low) / ((self.hai - self.low) / total as int),
    {
        let range = (self.hai - self.low) / total;
        proof {
            let w: int = (self.hai - self.low) as int;
            assert(range >= 2) by (nonlinear_arith)
                requires
                    w > self.threshold,
                    2 * total <= self.threshold,
                    total > 0,
                    range == w / (total as int),
            ;
        }
        (code - self.low) / range
    }

    /// Closes the interval and gives the code word that ends the stream.
    pub fn get_code_tail(&mut self) -> (r: u32)
        ensures
            r == old(self).low,
            final(self).low == 0,
            final(self).hai == 0,
            final(self).threshold == old(self).threshold,
    {
        let tail = self.low;
        self.low = 0;
        self.hai = 0;
        tail
    }
}

/// A probability model over values of type `V`: each valid value owns a
/// non-empty sub-interval of `[0, denominator)`.
pub trait Model<V> {
    /// The model's invariant.
    spec fn wf(&self) -> bool;

    /// The sum of all probabilities.
    spec fn denom(&self) -> int;

    /// The values that can be coded.
    spec fn valid(&self, v: V) -> bool;

    /// The sub-interval `[lo, hi)` of `[0, denom)` that value `v` owns.
    spec fn range_of(&self, v: V) -> (int, int);

    /// The sub-interval of a value.
    fn get_range(&self, value: V) -> (r: (u32, u32))
        requires
            self.wf(),
            self.valid(value),
        ensures
            r.0 < r.1 <= self.denom(),
            r.0 == self.range_of(value).0,
            r.1 == self.range_of(value).1;

    /// The value whose sub-interval holds `offset`, with that sub-interval.
    fn find_value(&self, offset: u32) -> (r: (V, u32, u32))
        requires
            self.wf(),
            offset < self.denom(),
        ensures
            r.1 <= offset < r.2 <= self.denom(),
            self.valid(r.0),
            r.1 == self.range_of(r.0).0,
            r.2 == self.range_of(r.0).1,
            forall|v: V|
                self.valid(v) && #[trigger] self.range_of(v).0 <= offset < self.range_of(v).1 ==> v == r.0;

    /// The sum of all probabilities.
    fn get_denominator(&self) -> (r: u32)
        requires
            self.wf(),
        ensures
            r == self.denom(),
            0 < r;
}

/// Codes `value` under `model`, appending the code bytes to `out`; gives how
/// many there were.
pub fn encode<V, M: Model<V>>(value: V, model: &M, re: &mut RangeEncoder, out: &mut Vec<u8>) -> (r: usize)
    requires
        old(re).wf(),
        model.wf(),
        model.valid(value),
        2 * model.denom() <= old(re).threshold,
    ensures
        final(re).wf(),
        final(re).threshold == old(re).threshold,
        r <= 4,
        final(out)@.len() == old(out)@.len() + r,
        final(out)@.take(old(out)@.len() as int) == old(out)@,
        ({
            let (lo, hi) = narrowed(
                old(re).low,
                old(re).hai,
                model.denom() as u32,
                model.range_of(value).0 as u32,
                model.range_of(value).1 as u32,
            );
            let rn = renorm(lo, hi, old(re).threshold, 0);
            &&& final(re).low == rn.0
            &&& final(re).hai == rn.1
            &&& final(out)@ == old(out)@ + rn.2
        }),
{
    let (lo, hi) = model.get_range(value);
    let total = model.get_denominator();
    re.process(total, lo, hi, out)
}

/// Decodes a value under `model` from the code word `code`; gives the value
/// and how many code bytes to shift in before the next one.
pub fn decode<V, M: Model<V>>(code: u32, model: &M, re: &mut RangeEncoder) -> (r: Result<(V, usize), AriError>)
    requires
        old(re).wf(),
        model.wf(),
        2 * model.denom() <= old(re).threshold,
    ensures
        final(re).wf(),
        final(re).threshold == old(re).threshold,
        code < old(re).low || code >= old(re).hai ==> r == Err::<(V, usize), AriError>(AriError::InvalidCode),
        old(re).low <= code < old(re).hai && (code - old(re).low) / ((old(re).hai - old(re).low) / model.denom())
            >= model.denom() ==> r == Err::<(V, usize), AriError>(AriError::InvalidCode),
        old(re).low <= code < old(re).hai && (code - old(re).low) / ((old(re).hai - old(re).low) / model.denom())
            < model.denom() ==> r is Ok,
        r matches Ok((v, k)) ==> {
            let off = (code - old(re).low) / ((old(re).hai - old(re).low) / model.denom());
            let (lo, hi) = narrowed(
                old(re).low,
                old(re).hai,
                model.denom() as u32,
                model.range_of(v).0 as u32,
                model.range_of(v).1 as u32,
            );
            let rn = renorm(lo, hi, old(re).threshold, 0);
            &&& k <= 4
            &&& model.valid(v)
            &&& model.range_of(v).0 <= off < model.range_of(v).1
            &&& forall|w: V| model.valid(w) && #[trigger] model.range_of(w).0 <= off < model.range_of(w).1 ==> w == v
            &&& final(re).low == rn.0
            &&& final(re).hai == rn.1
            &&& k == rn.2.len()
        },
{
    let total = model.get_denominator();
    if code < re.low || code >= re.hai {
        return Err(AriError::InvalidCode);
    }
    let offset = re.query(total, code);
    if offset >= total {
        return Err(AriError::InvalidCode);
    }
    let (value, lo, hi) = model.find_value(offset);
    let mut scratch: Vec<u8> = Vec::new();
    let shift = re.process(total, lo, hi, &mut scratch);
    Ok((value, shift))
}

/// An arithmetic encoder that appends its code bytes to a buffer.
pub struct Encoder {
    /// The code bytes so far.
    pub stream: Vec<u8>,
    /// The range coder.
    pub range: RangeEncoder,
}

impl Encoder {
    /// The coder's invariant holds with the default threshold.
    pub open spec fn wf(&self) -> bool {
        self.range.wf() && self.range.threshold == RANGE_DEFAULT_THRESHOLD
    }

    /// An encoder with an empty stream.
    pub fn new() -> (r: Encoder)
        ensures
            r.wf(),
            r.stream@.len() == 0,
    {
        Encoder { stream: Vec::new(), range: RangeEncoder::new(RANGE_DEFAULT_THRESHOLD) }
    }

    /// Codes `value` under `model`.
    pub fn encode<V, M: Model<V>>(&mut self, value: V, model: &M)
        requires
            old(self).wf(),
            model.wf(),
            model.valid(value),
            2 * model.denom() <= RANGE_DEFAULT_THRESHOLD,
        ensures
            final(self).wf(),
            final(self).stream@.take(old(self).stream@.len() as int) == old(self).stream@,
            ({
                let (lo, hi) = narrowed(
                    old(self).range.low,
                    old(self).range.hai,
                    model.denom() as u32,
                    model.range_of(value).0 as u32,
                    model.range_of(value).1 as u32,
                );
                let rn = renorm(lo, hi, RANGE_DEFAULT_THRESHOLD, 0);
                &&& final(self).range.low == rn.0
                &&& final(self).range.hai == rn.1
                &&& final(self).stream@ == old(self).stream@ + rn.2
            }),
    {
        encode(value, model, &mut self.range, &mut self.stream);
    }

    /// Writes the final code word, big-endian, and gives the whole stream.
    pub fn finish(self) -> (r: Vec<u8>)
        ensures
            r@ == self.stream@ + seq![
                (self.range.low >> 24u32) as u8,
                (self.range.low >> 16u32) as u8,
                (self.range.low >> 8u32) as u8,
                self.range.low as u8,
            ],
    {
        let mut s = self;
        let code = s.range.get_code_tail();
        let mut out = s.stream;
        let ghost o0 = out@;
        out.push((code >> 24u32) as u8);
        out.push((code >> 16u32) as u8);
        out.push((code >> 8u32) as u8);
        out.push(code as u8);
        assert(out@ =~= o0 + seq![(code >> 24u32) as u8, (code >> 16u32) as u8, (code >> 8u32) as u8, code as u8]);
        out
    }

    /// The number of code bytes so far.
    pub fn tell(&self) -> (r: usize)
        ensures
            r == self.stream@.len(),
    {
        self.stream.len()
    }
}

/// The code word `code` after shifting in `k` bytes of `s` from `pos`.
pub open spec fn shift_in(code: u32, s: Seq<u8>, pos: int, k: nat) -> u32
    decreases k,
{
    if k == 0 {
        code
    } else {
        shift_in((code << 8u32) | (s[pos] as u32), s, pos + 1, (k - 1) as nat)
    }
}

/// An arithmetic decoder reading code bytes from a buffer.
pub struct Decoder {
    /// The code bytes.
    pub stream: Vec<u8>,
    /// The position of the next byte to read.
    pub pos: usize,
    /// The range coder, kept in step with the encoder's.
    pub range: RangeEncoder,
    /// The current code word.
    pub code: u32,
    /// Bytes to shift into the code word before the next value.
    pub bytes_pending: usize,
}

impl Decoder {
    /// The coder's invariant holds with the default threshold.
    pub open spec fn wf(&self) -> bool {
        &&& self.range.wf()
        &&& self.range.threshold == RANGE_DEFAULT_THRESHOLD
        &&& self.pos <= self.stream@.len()
        &&& self.bytes_pending <= 4
    }

    /// A decoder at the start of `stream`.
    pub fn new(stream: Vec<u8>) -> (r: Decoder)
        ensures
            r.wf(),
            r.stream == stream,
            r.pos == 0,
    {
        Decoder { stream, pos: 0, range: RangeEncoder::new(RANGE_DEFAULT_THRESHOLD), code: 0, bytes_pending: 4 }
    }

    /// Shifts the pending code bytes into the code word.
    fn feed(&mut self) -> (r: Result<(), AriError>)
        requires
            old(self).wf(),
        ensures
            final(self).wf(),
            final(self).stream == old(self).stream,
            r is Ok ==> final(self).bytes_pending == 0 && final(self).pos == old(self).pos + old(self).bytes_pending,
            r is Err ==> r == Err::<(), AriError>(AriError::UnexpectedEof),
            r is Ok <==> old(self).pos + old(self).bytes_pending <= old(self).stream@.len(),
            r is Ok ==> final(self).code == shift_in(old(self).code, old(self).stream@, old(self).pos as int, old(self).bytes_pending as nat),
            final(self).range == old(self).range,
    {
        while self.bytes_pending != 0
            invariant
                self.range == old(self).range,
                shift_in(self.code, self.stream@, self.pos as int, self.bytes_pending as nat) == shift_in(
                    old(self).code,
                    old(self).stream@,
                    old(self).pos as int,
                    old(self).bytes_pending as nat,
                ),
                self.wf(),
                self.stream == old(self).stream,
                self.pos + self.bytes_pending == old(self).pos + old(self).bytes_pending,
            decreases self.bytes_pending,
        {
            if self.pos >= self.stream.len() {
                return Err(AriError::UnexpectedEof);
            }
            let b = self.stream[self.pos];
            self.code = (self.code << 8u32) | b as u32;
            self.pos = self.pos + 1;
            self.bytes_pending = self.bytes_pending - 1;
        }
        Ok(())
    }

    /// Decodes a value under `model`.
    pub fn decode<V, M: Model<V>>(&mut self, model: &M) -> (r: Result<V, AriError>)
        requires
            old(self).wf(),
            model.wf(),
            2 * model.denom() <= RANGE_DEFAULT_THRESHOLD,
        ensures
            final(self).wf(),
            final(self).stream == old(self).stream,
            r matches Ok(v) ==> model.valid(v),
            old(self).pos + old(self).bytes_pending > old(self).stream@.len() ==> r == Err::<V, AriError>(
                AriError::UnexpectedEof,
            ),
            old(self).pos + old(self).bytes_pending <= old(self).stream@.len() ==> ({
                let c = shift_in(old(self).code, old(self).stream@, old(self).pos as int, old(self).bytes_pending as nat);
                let low = old(self).range.low;
                let hai = old(self).range.hai;
                let off = (c - low) / ((hai - low) / model.denom());
                &&& (c < low || c >= hai || off >= model.denom()) ==> r == Err::<V, AriError>(AriError::InvalidCode)
                &&& (low <= c < hai && off < model.denom()) ==> r is Ok
                &&& r matches Ok(v) ==> {
                    let (lo, hi) = narrowed(
                        low,
                        hai,
                        model.denom() as u32,
                        model.range_of(v).0 as u32,
                        model.range_of(v).1 as u32,
                    );
                    let rn = renorm(lo, hi, RANGE_DEFAULT_THRESHOLD, 0);
                    &&& model.range_of(v).0 <= off < model.range_of(v).1
                    &&& forall|w: V|
                        model.valid(w) && #[trigger] model.range_of(w).0 <= off < model.range_of(w).1 ==> w == v
                    &&& final(self).range.low == rn.0
                    &&& final(self).range.hai == rn.1
                    &&& final(self).bytes_pending == rn.2.len()
                    &&& final(self).code == c
                    &&& final(self).pos == old(self).pos + old(self).bytes_pending
                }
            }),
    {
        self.feed()?;
        let (value, shift) = decode(self.code, model, &mut self.range)?;
        self.bytes_pending = shift;
        Ok(value)
    }

    /// Shifts in the last code bytes; gives the position after the stream.
    pub fn finish(&mut self) -> (r: Result<usize, AriError>)
        requires
            old(self).wf(),
        ensures
            r matches Ok(p) ==> p <= old(self).stream@.len(),
    {
        self.feed()?;
        Ok(self.pos)
    }
}

/// Decoding recovers what was encoded, one step at a time: when the code
/// word lies in the sub-interval that `process` narrows `[low, hai)` to for
/// `[from, to)` out of `total`, `query` gives an offset in `[from, to)`, so
/// the model's `find_value` picks the value that was encoded.
pub proof fn lemma_query_recovers(low: u32, hai: u32, total: u32, from: u32, to: u32, code: u32)
    requires
        low < hai,
        0 < total,
        from < to <= total,
        (hai - low) / (total as int) > 0,
        low + ((hai - low) / (total as int)) * from <= code,
        code < low + ((hai - low) / (total as int)) * to,
    ensures
        from <= (code - low) / ((hai - low) / (total as int)) < to,
{
    let r: int = (hai - low) / (total as int);
    let x: int = code - low;
    assert(r * from <= x < r * to);
    assert(from <= x / r) by (nonlinear_arith)
        requires
            r > 0,
            r * from <= x,
            from >= 0,
    ;
    assert(x / r < to) by (nonlinear_arith)
        requires
            r > 0,
            x < r * to,
            x >= 0,
    ;
}

} // verus!
