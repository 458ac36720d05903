//! Frequency-table models and a byte coder built on them.

use vstd::prelude::*;
use crate::ari::{AriError, Decoder, Encoder, Model, RANGE_DEFAULT_THRESHOLD};

verus! {

/// The sum of a list of frequencies.
pub open spec fn sum16(s: Seq<u16>) -> int
    decreases s.len(),
{
    if s.len() == 0 {
        0
    } else {
        sum16(s.drop_last()) + s.last() as int
    }
}

proof fn lemma_sum16_take_step(s: Seq<u16>, i: int)
    requires
        0 <= i < s.len(),
    ensures
        sum16(s.take(i + 1)) == sum16(s.take(i)) + s[i] as int,
{
    assert(s.take(i + 1).drop_last() =~= s.take(i));
}

proof fn lemma_sum16_all(s: Seq<u16>)
    ensures
        sum16(s.take(s.len() as int)) == sum16(s),
{
    assert(s.take(s.len() as int) =~= s);
}

proof fn lemma_sum16_bounds(s: Seq<u16>, i: int)
    requires
        0 <= i <= s.len(),
        forall|j: int| 0 <= j < s.len() ==> s[j] > 0,
    ensures
        sum16(s.take(i)) + (s.len() - i) <= sum16(s),
        sum16(s.take(i)) >= i,
        sum16(s) <= s.len() * 65535,
    decreases s.len() - i,
{
    if i < s.len() {
        lemma_sum16_take_step(s, i);
        lemma_sum16_bounds(s, i + 1);
        lemma_sum16_low(s, i);
    } else {
        lemma_sum16_all(s);
        lemma_sum16_low(s, i);
        lemma_sum16_high(s);
    }
}

proof fn lemma_sum16_low(s: Seq<u16>, i: int)
    requires
        0 <= i <= s.len(),
        forall|j: int| 0 <= j < s.len() ==> s[j] > 0,
    ensures
        sum16(s.take(i)) >= i,
    decreases i,
{
    if i > 0 {
        lemma_sum16_low(s, i - 1);
        lemma_sum16_take_step(s, i - 1);
    }
}

proof fn lemma_sum16_high(s: Seq<u16>)
    ensures
        sum16(s) <= s.len() * 65535,
    decreases s.len(),
{
    if s.len() > 0 {
        lemma_sum16_high(s.drop_last());
    }
}

proof fn lemma_sum16_update(s: Seq<u16>, k: int, v: u16)
    requires
        0 <= k < s.len(),
    ensures
        sum16(s.update(k, v)) == sum16(s) - s[k] + v,
    decreases s.len(),
{
    if k < s.len() - 1 {
        lemma_sum16_update(s.drop_last(), k, v);
        assert(s.update(k, v).drop_last() =~= s.drop_last().update(k, v));
    } else {
        assert(s.update(k, v).drop_last() =~= s.drop_last());
    }
}

/// `f` halved, rounding up, `k` times.
pub open spec fn halved(f: int, k: nat) -> int
    decreases k,
{
    if k == 0 {
        f
    } else {
        (halved(f, (k - 1) as nat) + 1) / 2
    }
}

/// `b` is `a` with every entry halved, rounding up, `k` times.
pub open spec fn halved_times(a: Seq<u16>, b: Seq<u16>, k: nat) -> bool {
    a.len() == b.len() && forall|i: int| 0 <= i < a.len() ==> #[trigger] b[i] == halved(a[i] as int, k)
}

/// `b` is `a` with every entry halved, rounding up, the same number of times.
pub open spec fn halved_by(a: Seq<u16>, b: Seq<u16>) -> bool {
    exists|k: nat| #[trigger] halved_times(a, b, k)
}

/// A table of frequencies, one per value, and their sum.
pub struct FrequencyTable {
    /// The sum of the frequencies.
    pub total: u32,
    /// The frequency of each value.
    pub table: Vec<u16>,
    /// The sum is kept below this; it stays below the coder's threshold.
    pub cut_threshold: u32,
    /// The shift applied to every frequency when the sum reaches the cut.
    pub cut_shift: u32,
}

impl FrequencyTable {
    /// `total` is the sum of the frequencies, each of them positive, and
    /// the sum stays below the cut.
    pub open spec fn inv(&self) -> bool {
        &&& 0 < self.table@.len() < self.cut_threshold <= 16384
        &&& self.cut_shift == 1
        &&& self.total == sum16(self.table@)
        &&& forall|i: int| 0 <= i < self.table@.len() ==> self.table@[i] > 0
        &&& self.total < self.cut_threshold
    }

    /// A table with the given frequencies, downscaled until their sum is
    /// below `threshold`.
    pub fn new_custom(freqs: Vec<u16>, threshold: u32) -> (r: FrequencyTable)
        requires
            0 < freqs@.len() < threshold <= 16384,
            forall|i: int| 0 <= i < freqs@.len() ==> freqs@[i] > 0,
        ensures
            r.inv(),
            r.table@.len() == freqs@.len(),
            r.cut_threshold == threshold,
            halved_by(freqs@, r.table@),
    {
        let mut total: u32 = 0;
        let mut i: usize = 0;
        proof {
            lemma_sum16_high(freqs@);
        }
        while i < freqs.len()
            invariant
                i <= freqs@.len() < 16384,
                total == sum16(freqs@.take(i as int)),
                forall|j: int| 0 <= j < freqs@.len() ==> freqs@[j] > 0,
            decreases freqs.len() - i,
        {
            proof {
                lemma_sum16_take_step(freqs@, i as int);
                lemma_sum16_bounds(freqs@, i as int + 1);
                lemma_sum16_high(freqs@);
            }
            total = total + freqs[i] as u32;
            i = i + 1;
        }
        proof {
            lemma_sum16_all(freqs@);
        }
        let mut ft = FrequencyTable { total, table: freqs, cut_threshold: threshold, cut_shift: 1 };
        ft.settle();
        ft
    }

    /// A table with every frequency 1.
    pub fn new_flat(num_values: usize, threshold: u32) -> (r: FrequencyTable)
        requires
            0 < num_values < threshold <= 16384,
        ensures
            r.inv(),
            r.table@.len() == num_values,
            r.cut_threshold == threshold,
            forall|i: int| 0 <= i < num_values ==> r.table@[i] == 1,
    {
        let v: Vec<u16> = vec![1u16; num_values];
        let mut ft = FrequencyTable::new_custom(v, threshold);
        ft.reset_flat();
        ft
    }

    /// Sets every frequency back to 1.
    pub fn reset_flat(&mut self)
        requires
            old(self).inv(),
        ensures
            final(self).inv(),
            final(self).table@.len() == old(self).table@.len(),
            final(self).cut_threshold == old(self).cut_threshold,
            forall|i: int| 0 <= i < final(self).table@.len() ==> final(self).table@[i] == 1,
    {
        let n = self.table.len();
        let mut i: usize = 0;
        while i < n
            invariant
                i <= n == self.table@.len(),
                forall|j: int| 0 <= j < i ==> self.table@[j] == 1,
                forall|j: int| 0 <= j < n ==> self.table@[j] > 0,
                0 < n < self.cut_threshold <= 16384,
                self.cut_threshold == old(self).cut_threshold,
                self.cut_shift == 1,
            decreases n - i,
        {
            self.table.set(i, 1);
            i = i + 1;
        }
        proof {
            lemma_sum16_ones(self.table@);
        }
        self.total = n as u32;
    }

    /// Halves every frequency, rounding up so that none becomes zero, and
    /// recomputes the sum.
    pub fn downscale(&mut self)
        requires
            0 < old(self).table@.len() < 16384,
            old(self).cut_shift == 1,
            forall|i: int| 0 <= i < old(self).table@.len() ==> old(self).table@[i] > 0,
        ensures
            final(self).table@.len() == old(self).table@.len(),
            final(self).cut_threshold == old(self).cut_threshold,
            final(self).cut_shift == 1,
            final(self).total == sum16(final(self).table@),
            forall|i: int| 0 <= i < final(self).table@.len() ==> final(self).table@[i] > 0,
            forall|i: int|
                0 <= i < final(self).table@.len() ==> final(self).table@[i] == (old(self).table@[i] + 1) / 2,
            2 * final(self).total <= sum16(old(self).table@) + old(self).table@.len(),
    {
        let n = self.table.len();
        let ghost t0 = self.table@;
        let mut total: u32 = 0;
        let mut i: usize = 0;
        while i < n
            invariant
                i <= n == self.table@.len() < 16384,
                t0.len() == n,
                forall|j: int| 0 <= j < n ==> t0[j] > 0,
                forall|j: int| 0 <= j < i ==> self.table@[j] == (t0[j] + 1) / 2,
                forall|j: int| i <= j < n ==> self.table@[j] == t0[j],
                total == sum16(self.table@.take(i as int)),
                2 * total <= sum16(t0.take(i as int)) + i,
                self.cut_shift == 1,
                self.cut_threshold == old(self).cut_threshold,
            decreases n - i,
        {
            let f = self.table[i];
            let f1: u32 = f as u32 + 1;
            let g: u16 = (f1 >> 1u32) as u16;
            assert(f1 >> 1u32 == f1 / 2) by (bit_vector);
            proof {
                lemma_sum16_take_step(t0, i as int);
                lemma_sum16_high(t0);
                lemma_sum16_bounds(t0, i as int + 1);
            }
            let ghost before = self.table@;
            self.table.set(i, g);
            proof {
                assert(self.table@.take(i as int) =~= before.take(i as int));
                lemma_sum16_take_step(self.table@, i as int);
            }
            total = total + g as u32;
            i = i + 1;
        }
        proof {
            lemma_sum16_all(self.table@);
            lemma_sum16_all(t0);
        }
        self.total = total;
    }

    /// Downscales until the sum is below the cut.
    fn settle(&mut self)
        requires
            0 < old(self).table@.len() < old(self).cut_threshold <= 16384,
            old(self).cut_shift == 1,
            old(self).total == sum16(old(self).table@),
            forall|i: int| 0 <= i < old(self).table@.len() ==> old(self).table@[i] > 0,
        ensures
            final(self).inv(),
            final(self).table@.len() == old(self).table@.len(),
            final(self).cut_threshold == old(self).cut_threshold,
            halved_by(old(self).table@, final(self).table@),
            old(self).total < old(self).cut_threshold ==> final(self).table@ == old(self).table@,
    {
        let ghost mut k: nat = 0;
        while self.total >= self.cut_threshold
            invariant
                0 < self.table@.len() < self.cut_threshold <= 16384,
                self.cut_shift == 1,
                self.total == sum16(self.table@),
                forall|i: int| 0 <= i < self.table@.len() ==> self.table@[i] > 0,
                self.table@.len() == old(self).table@.len(),
                self.cut_threshold == old(self).cut_threshold,
                forall|i: int| 0 <= i < self.table@.len() ==> self.table@[i] == halved(old(self).table@[i] as int, k),
                k == 0 ==> self.table@ == old(self).table@,
                old(self).total < old(self).cut_threshold ==> k == 0,
                old(self).total == sum16(old(self).table@),
            decreases self.total,
        {
            self.downscale();
            proof {
                k = k + 1;
            }
        }
        assert(halved_times(old(self).table@, self.table@, k));
    }

    /// Adds `(total >> add_log) + add_const` to the frequency of `value`,
    /// downscaling when the sum reaches the cut.
    pub fn update(&mut self, value: usize, add_log: u32, add_const: u32)
        requires
            old(self).inv(),
            value < old(self).table@.len(),
            add_log < 32,
            (old(self).total >> add_log) + add_const < 2 * old(self).cut_threshold,
        ensures
            final(self).inv(),
            final(self).table@.len() == old(self).table@.len(),
            final(self).cut_threshold == old(self).cut_threshold,
            ({
                let add = (old(self).total >> add_log) + add_const;
                let bumped = old(self).table@.update(value as int, (old(self).table@[value as int] + add) as u16);
                &&& halved_by(bumped, final(self).table@)
                &&& old(self).total + add < old(self).cut_threshold ==> final(self).table@ == bumped
            }),
    {
        let add = (self.total >> add_log) + add_const;
        proof {
            lemma_sum16_bounds(self.table@, 0);
            lemma_sum16_elem(self.table@, value as int);
            lemma_sum16_low(self.table@, value as int);
        }
        let f = self.table[value];
        let ghost before = self.table@;
        assert(f as u32 + add < 65536);
        let g: u16 = (f as u32 + add) as u16;
        self.table.set(value, g);
        proof {
            lemma_sum16_update(before, value as int, g);
        }
        self.total = self.total + add;
        self.settle();
    }

    /// The frequencies.
    pub fn get_frequencies(&self) -> (r: &[u16])
        ensures
            r@ == self.table@,
    {
        self.table.as_slice()
    }
}

proof fn lemma_sum16_prefix_mono(s: Seq<u16>, a: int, b: int)
    requires
        0 <= a <= b <= s.len(),
    ensures
        sum16(s.take(a)) <= sum16(s.take(b)),
    decreases b - a,
{
    if a < b {
        lemma_sum16_prefix_mono(s, a, b - 1);
        lemma_sum16_take_step(s, b - 1);
    }
}

proof fn lemma_sum16_ones(s: Seq<u16>)
    requires
        forall|j: int| 0 <= j < s.len() ==> s[j] == 1,
    ensures
        sum16(s) == s.len(),
    decreases s.len(),
{
    if s.len() > 0 {
        lemma_sum16_ones(s.drop_last());
    }
}

proof fn lemma_sum16_elem(s: Seq<u16>, k: int)
    requires
        0 <= k < s.len(),
        forall|j: int| 0 <= j < s.len() ==> s[j] > 0,
    ensures
        s[k] + sum16(s.take(k)) <= sum16(s),
{
    lemma_sum16_take_step(s, k);
    lemma_sum16_bounds(s, k + 1);
}

impl Model<usize> for FrequencyTable {
    open spec fn wf(&self) -> bool {
        self.inv()
    }

    open spec fn range_of(&self, v: usize) -> (int, int) {
        (sum16(self.table@.take(v as int)), sum16(self.table@.take(v as int)) + self.table@[v as int])
    }

    open spec fn denom(&self) -> int {
        self.total as int
    }

    open spec fn valid(&self, v: usize) -> bool {
        v < self.table@.len()
    }

    fn get_range(&self, value: usize) -> (r: (u32, u32)) {
        let mut lo: u32 = 0;
        let mut i: usize = 0;
        while i < value
            invariant
                self.inv(),
                i <= value < self.table@.len(),
                lo == sum16(self.table@.take(i as int)),
            decreases value - i,
        {
            proof {
                lemma_sum16_take_step(self.table@, i as int);
                lemma_sum16_elem(self.table@, i as int);
                lemma_sum16_low(self.table@, i as int);
            }
            lo = lo + self.table[i] as u32;
            i = i + 1;
        }
        proof {
            lemma_sum16_elem(self.table@, value as int);
        }
        (lo, lo + self.table[value] as u32)
    }

    fn find_value(&self, offset: u32) -> (r: (usize, u32, u32)) {
        let mut lo: u32 = 0;
        let mut v: usize = 0;
        proof {
            lemma_sum16_all(self.table@);
        }
        loop
            invariant
                self.inv(),
                v < self.table@.len(),
                lo == sum16(self.table@.take(v as int)),
                lo <= offset < self.total,
            decreases self.table@.len() - v,
        {
            proof {
                lemma_sum16_take_step(self.table@, v as int);
                lemma_sum16_elem(self.table@, v as int);
                lemma_sum16_low(self.table@, v as int);
            }
            let hi = lo + self.table[v] as u32;
            if hi > offset {
                proof {
                    assert forall|u: usize|
                        self.valid(u) && #[trigger] self.range_of(u).0 <= offset < self.range_of(u).1 implies u == v by {
                        if u < v {
                            lemma_sum16_take_step(self.table@, u as int);
                            lemma_sum16_prefix_mono(self.table@, u as int + 1, v as int);
                        } else if u > v {
                            lemma_sum16_prefix_mono(self.table@, v as int + 1, u as int);
                        }
                    }
                }
                return (v, lo, hi);
            }
            proof {
                if v + 1 == self.table@.len() {
                    lemma_sum16_all(self.table@);
                }
            }
            lo = hi;
            v = v + 1;
        }
    }

    fn get_denominator(&self) -> (r: u32) {
        proof {
            lemma_sum16_bounds(self.table@, 0);
        }
        self.total
    }
}

/// The weighted, shifted frequency of one value under a mix of two tables.
pub open spec fn mixed(wa: int, a: int, wb: int, b: int, ws: nat) -> int {
    (wa * a + wb * b) / vstd::arithmetic::power2::pow2(ws) as int
}

/// The sum of the mixed frequencies of the first `k` values.
pub open spec fn mixed_sum(t0: Seq<u16>, t1: Seq<u16>, wa: int, wb: int, ws: nat, k: int) -> int
    decreases k,
{
    if k <= 0 {
        0
    } else {
        mixed_sum(t0, t1, wa, wb, ws, k - 1) + mixed(wa, t0[k - 1] as int, wb, t1[k - 1] as int, ws)
    }
}

proof fn lemma_mixed_le(wa: int, a: int, wb: int, b: int, ws: nat)
    requires
        wa >= 0,
        wb >= 0,
        a >= 0,
        b >= 0,
    ensures
        0 <= mixed(wa, a, wb, b, ws) <= wa * a + wb * b,
{
    vstd::arithmetic::power2::lemma_pow2_pos(ws);
    let p = vstd::arithmetic::power2::pow2(ws) as int;
    let x = wa * a + wb * b;
    assert(x >= 0) by (nonlinear_arith)
        requires
            wa >= 0,
            wb >= 0,
            a >= 0,
            b >= 0,
            x == wa * a + wb * b,
    ;
    assert(0 <= x / p <= x) by (nonlinear_arith)
        requires
            p >= 1,
            x >= 0,
    ;
}

proof fn lemma_mixed_sum_le(t0: Seq<u16>, t1: Seq<u16>, wa: int, wb: int, ws: nat, k: int)
    requires
        0 <= k <= t0.len(),
        k <= t1.len(),
        wa >= 0,
        wb >= 0,
    ensures
        0 <= mixed_sum(t0, t1, wa, wb, ws, k) <= wa * sum16(t0.take(k)) + wb * sum16(t1.take(k)),
    decreases k,
{
    if k > 0 {
        lemma_mixed_sum_le(t0, t1, wa, wb, ws, k - 1);
        lemma_sum16_take_step(t0, k - 1);
        lemma_sum16_take_step(t1, k - 1);
        lemma_mixed_le(wa, t0[k - 1] as int, wb, t1[k - 1] as int, ws);
        let s0 = sum16(t0.take(k - 1));
        let s1 = sum16(t1.take(k - 1));
        let a = t0[k - 1] as int;
        let b = t1[k - 1] as int;
        assert(wa * (s0 + a) + wb * (s1 + b) == wa * s0 + wb * s1 + (wa * a + wb * b)) by (nonlinear_arith);
    }
}

proof fn lemma_mixed_sum_mono(t0: Seq<u16>, t1: Seq<u16>, wa: int, wb: int, ws: nat, a: int, b: int)
    requires
        0 <= a <= b,
        wa >= 0,
        wb >= 0,
    ensures
        mixed_sum(t0, t1, wa, wb, ws, a) <= mixed_sum(t0, t1, wa, wb, ws, b),
    decreases b - a,
{
    if a < b {
        lemma_mixed_sum_mono(t0, t1, wa, wb, ws, a, b - 1);
        lemma_mixed_le(wa, t0[b - 1] as int, wb, t1[b - 1] as int, ws);
    }
}

/// The mix of two frequency tables: each value's frequency is
/// `(wa * A + wb * B) >> ws`.
pub struct TableSumProxy<'a> {
    first: &'a FrequencyTable,
    second: &'a FrequencyTable,
    w_first: u32,
    w_second: u32,
    w_shift: u32,
}

impl<'a> TableSumProxy<'a> {
    /// The two tables have the same values and the weighted sums fit.
    pub closed spec fn inv(&self) -> bool {
        &&& self.first.inv()
        &&& self.second.inv()
        &&& self.first.table@.len() == self.second.table@.len()
        &&& self.w_shift < 32
        &&& self.w_first * self.first.total + self.w_second * self.second.total <= u32::MAX
        &&& self.total_mix() > 0
    }

    /// The mixed frequency of value `v`.
    pub closed spec fn freq_mix(&self, v: int) -> int {
        mixed(
            self.w_first as int,
            self.first.table@[v] as int,
            self.w_second as int,
            self.second.table@[v] as int,
            self.w_shift as nat,
        )
    }

    /// Value `v` is one of the tables' values, with a non-zero mixed frequency.
    pub closed spec fn codes(&self, v: usize) -> bool {
        v < self.first.table@.len() && self.freq_mix(v as int) > 0
    }

    /// The sum of the mixed frequencies of the values below `k`.
    pub closed spec fn prefix_mix(&self, k: int) -> int {
        mixed_sum(
            self.first.table@,
            self.second.table@,
            self.w_first as int,
            self.w_second as int,
            self.w_shift as nat,
            k,
        )
    }

    /// The sum of all mixed frequencies.
    pub closed spec fn total_mix(&self) -> int {
        mixed_sum(
            self.first.table@,
            self.second.table@,
            self.w_first as int,
            self.w_second as int,
            self.w_shift as nat,
            self.first.table@.len() as int,
        )
    }

    /// A mix of `fa` and `fb` with weights `wa`, `wb` and shift `shift`.
    pub fn new(wa: u32, fa: &'a FrequencyTable, wb: u32, fb: &'a FrequencyTable, shift: u32) -> (r: TableSumProxy<'a>)
        ensures
            fa.inv() && fb.inv() && fa.table@.len() == fb.table@.len() && shift < 32 && wa * fa.total + wb
                * fb.total <= u32::MAX && mixed_sum(fa.table@, fb.table@, wa as int, wb as int, shift as nat, fa.table@.len() as int) > 0
                ==> r.inv(),
    {
        TableSumProxy { first: fa, second: fb, w_first: wa, w_second: wb, w_shift: shift }
    }

    fn mix_at(&self, v: usize) -> (r: u32)
        requires
            self.inv(),
            v < self.first.table@.len(),
        ensures
            r == self.freq_mix(v as int),
    {
        let a = self.first.table[v] as u32;
        let b = self.second.table[v] as u32;
        proof {
            lemma_sum16_elem(self.first.table@, v as int);
            lemma_sum16_elem(self.second.table@, v as int);
            lemma_sum16_low(self.first.table@, v as int);
            lemma_sum16_low(self.second.table@, v as int);
            assert(self.w_first * a <= self.w_first * self.first.total) by (nonlinear_arith)
                requires
                    a <= self.first.total,
            ;
            assert(self.w_second * b <= self.w_second * self.second.total) by (nonlinear_arith)
                requires
                    b <= self.second.total,
            ;
        }
        let s = self.w_first * a + self.w_second * b;
        proof {
            vstd::bits::lemma_u32_shr_is_div(s, self.w_shift);
        }
        s >> self.w_shift
    }

    /// The sum of the mixed frequencies of the first `k` values.
    fn prefix(&self, k: usize) -> (r: u32)
        requires
            self.inv(),
            k <= self.first.table@.len(),
        ensures
            r == mixed_sum(self.first.table@, self.second.table@, self.w_first as int, self.w_second as int,
                self.w_shift as nat, k as int),
    {
        let mut acc: u32 = 0;
        let mut i: usize = 0;
        while i < k
            invariant
                self.inv(),
                i <= k <= self.first.table@.len(),
                acc == mixed_sum(self.first.table@, self.second.table@, self.w_first as int, self.w_second as int,
                    self.w_shift as nat, i as int),
            decreases k - i,
        {
            proof {
                self.lemma_bound(i as int + 1);
            }
            acc = acc + self.mix_at(i);
            i = i + 1;
        }
        acc
    }

    proof fn lemma_bound(&self, k: int)
        requires
            self.inv(),
            0 <= k <= self.first.table@.len(),
        ensures
            mixed_sum(self.first.table@, self.second.table@, self.w_first as int, self.w_second as int,
                self.w_shift as nat, k) <= u32::MAX,
            mixed_sum(self.first.table@, self.second.table@, self.w_first as int, self.w_second as int,
                self.w_shift as nat, k) <= self.total_mix(),
    {
        let t0 = self.first.table@;
        let t1 = self.second.table@;
        lemma_mixed_sum_le(t0, t1, self.w_first as int, self.w_second as int, self.w_shift as nat, k);
        lemma_mixed_sum_mono(t0, t1, self.w_first as int, self.w_second as int, self.w_shift as nat, k, t0.len() as int);
        lemma_sum16_bounds(t0, k);
        lemma_sum16_bounds(t1, k);
        lemma_sum16_low(t0, k);
        lemma_sum16_low(t1, k);
        let s0 = sum16(t0.take(k));
        let s1 = sum16(t1.take(k));
        assert(self.w_first * s0 + self.w_second * s1 <= self.w_first * self.first.total + self.w_second
            * self.second.total) by (nonlinear_arith)
            requires
                s0 <= self.first.total,
                s1 <= self.second.total,
        ;
    }
}

impl<'a> Model<usize> for TableSumProxy<'a> {
    open spec fn wf(&self) -> bool {
        self.inv()
    }

    open spec fn range_of(&self, v: usize) -> (int, int) {
        (self.prefix_mix(v as int), self.prefix_mix(v as int) + self.freq_mix(v as int))
    }

    open spec fn denom(&self) -> int {
        self.total_mix()
    }

    open spec fn valid(&self, v: usize) -> bool {
        self.codes(v)
    }

    fn get_range(&self, value: usize) -> (r: (u32, u32)) {
        proof {
            self.lemma_bound(value as int + 1);
        }
        let lo = self.prefix(value);
        (lo, lo + self.mix_at(value))
    }

    fn find_value(&self, offset: u32) -> (r: (usize, u32, u32)) {
        let n = self.first.table.len();
        let mut lo: u32 = 0;
        let mut v: usize = 0;
        loop
            invariant
                self.inv(),
                n == self.first.table@.len(),
                v < n,
                lo == mixed_sum(self.first.table@, self.second.table@, self.w_first as int, self.w_second as int,
                    self.w_shift as nat, v as int),
                lo <= offset < self.total_mix(),
            decreases n - v,
        {
            proof {
                self.lemma_bound(v as int + 1);
            }
            let hi = lo + self.mix_at(v);
            if hi > offset {
                proof {
                    let t0 = self.first.table@;
                    let t1 = self.second.table@;
                    let wa = self.w_first as int;
                    let wb = self.w_second as int;
                    let ws = self.w_shift as nat;
                    assert forall|u: usize|
                        self.valid(u) && #[trigger] self.range_of(u).0 <= offset < self.range_of(u).1 implies u == v by {
                        if u < v {
                            lemma_mixed_sum_mono(t0, t1, wa, wb, ws, u as int + 1, v as int);
                        } else if u > v {
                            lemma_mixed_sum_mono(t0, t1, wa, wb, ws, v as int + 1, u as int);
                        }
                    }
                }
                return (v, lo, hi);
            }
            lo = hi;
            v = v + 1;
        }
    }

    fn get_denominator(&self) -> (r: u32) {
        proof {
            self.lemma_bound(self.first.table@.len() as int);
        }
        self.prefix(self.first.table.len())
    }
}

/// The value that ends a byte stream.
pub const TERMINATOR: usize = 256;

/// Codes bytes under an adaptive frequency table; a terminator value ends
/// the stream.
pub struct ByteEncoder {
    /// The arithmetic encoder.
    pub encoder: Encoder,
    /// The adaptive table over the 256 byte values and the terminator.
    pub freq: FrequencyTable,
}

impl ByteEncoder {
    /// The coder's and the table's invariants hold, with a table fit for it.
    pub open spec fn wf(&self) -> bool {
        &&& self.encoder.wf()
        &&& self.freq.inv()
        &&& self.freq.table@.len() == 257
        &&& self.freq.cut_threshold == RANGE_DEFAULT_THRESHOLD / 4
    }

    /// An encoder with a flat table.
    pub fn new() -> (r: ByteEncoder)
        ensures
            r.wf(),
            r.encoder.stream@.len() == 0,
    {
        ByteEncoder { encoder: Encoder::new(), freq: FrequencyTable::new_flat(257, RANGE_DEFAULT_THRESHOLD / 4) }
    }

    /// Codes each byte of `buf`, adapting the table after each.
    pub fn write(&mut self, buf: &[u8])
        requires
            old(self).wf(),
        ensures
            final(self).wf(),
            final(self).encoder.stream@.take(old(self).encoder.stream@.len() as int) == old(self).encoder.stream@,
            final(self).encoder.stream@.len() >= old(self).encoder.stream@.len(),
    {
        let mut i: usize = 0;
        while i < buf.len()
            invariant
                self.wf(),
                i <= buf@.len(),
                self.encoder.stream@.len() >= old(self).encoder.stream@.len(),
                self.encoder.stream@.take(old(self).encoder.stream@.len() as int) == old(self).encoder.stream@,
            decreases buf.len() - i,
        {
            let value = buf[i] as usize;
            let ghost s0 = self.encoder.stream@;
            self.encoder.encode(value, &self.freq);
            proof {
                assert(self.encoder.stream@.take(old(self).encoder.stream@.len() as int) =~= s0.take(
                    old(self).encoder.stream@.len() as int,
                ));
            }
            let t = self.freq.total;
            assert(t < 4096 ==> t >> 10u32 <= 4) by (bit_vector);
            self.freq.update(value, 10, 1);
            i = i + 1;
        }
    }

    /// Codes the terminator and gives the whole code stream.
    pub fn finish(self) -> (r: Vec<u8>)
        requires
            self.wf(),
        ensures
            r@.len() >= self.encoder.stream@.len() + 4,
            r@.take(self.encoder.stream@.len() as int) == self.encoder.stream@,
    {
        let mut s = self;
        let ghost s0 = s.encoder.stream@;
        s.encoder.encode(TERMINATOR, &s.freq);
        let ghost s1 = s.encoder.stream@;
        let r = s.encoder.finish();
        proof {
            assert(r@.take(s0.len() as int) =~= s1.take(s0.len() as int));
        }
        r
    }
}

/// Decodes bytes coded by `ByteEncoder`, up to the terminator.
pub struct ByteDecoder {
    /// The arithmetic decoder.
    pub decoder: Decoder,
    /// The adaptive table, kept in step with the encoder's.
    pub freq: FrequencyTable,
    /// Whether the terminator has been decoded.
    pub is_eof: bool,
}

impl ByteDecoder {
    /// The decoder's and the table's invariants hold, with a table fit for it.
    pub open spec fn wf(&self) -> bool {
        &&& self.decoder.wf()
        &&& self.freq.inv()
        &&& self.freq.table@.len() == 257
        &&& self.freq.cut_threshold == RANGE_DEFAULT_THRESHOLD / 4
    }

    /// A decoder at the start of `stream`.
    pub fn new(stream: Vec<u8>) -> (r: ByteDecoder)
        ensures
            r.wf(),
            !r.is_eof,
            r.decoder.stream == stream,
    {
        ByteDecoder {
            decoder: Decoder::new(stream),
            freq: FrequencyTable::new_flat(257, RANGE_DEFAULT_THRESHOLD / 4),
            is_eof: false,
        }
    }

    /// Decodes up to `max` bytes, stopping at the terminator.
    pub fn read(&mut self, max: usize) -> (r: Result<Vec<u8>, AriError>)
        requires
            old(self).wf(),
        ensures
            final(self).wf(),
            r matches Ok(v) ==> v@.len() <= max,
            old(self).is_eof ==> (r matches Ok(v) && v@.len() == 0),
    {
        let mut out: Vec<u8> = Vec::new();
        if self.is_eof {
            return Ok(out);
        }
        while out.len() < max
            invariant
                self.wf(),
                !old(self).is_eof,
                out@.len() <= max,
            decreases max - out@.len(),
        {
            let value = self.decoder.decode(&self.freq)?;
            if value == TERMINATOR {
                self.is_eof = true;
                break;
            }
            let t = self.freq.total;
            assert(t < 4096 ==> t >> 10u32 <= 4) by (bit_vector);
            self.freq.update(value, 10, 1);
            out.push(value as u8);
        }
        Ok(out)
    }

    /// Shifts in the last code bytes; gives the position after the stream.
    pub fn finish(&mut self) -> (r: Result<usize, AriError>)
        requires
            old(self).wf(),
        ensures
            r matches Ok(p) ==> p <= old(self).decoder.stream@.len(),
    {
        self.decoder.finish()
    }
}

} // verus!
