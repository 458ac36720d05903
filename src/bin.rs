//! Binary probability models, updated in place by shifts.

use vstd::prelude::*;
use crate::ari::Model;

verus! {

/// A model of one bit: the frequency of zero out of a constant total.
pub struct BinaryModel {
    zero: u32,
    total: u32,
    /// The learning rate: the shift applied on each update.
    pub rate: u32,
}

impl BinaryModel {
    /// Both bits keep a non-empty share of the total.
    pub open spec fn inv(&self) -> bool {
        &&& 0 < self.zero() < self.total()
        &&& 1 <= self.rate_spec() < 32
    }

    /// The frequency of zero.
    pub closed spec fn zero(&self) -> int {
        self.zero as int
    }

    /// The constant total.
    pub closed spec fn total(&self) -> int {
        self.total as int
    }

    /// The learning rate.
    pub closed spec fn rate_spec(&self) -> int {
        self.rate as int
    }

    /// Even odds.
    pub fn new_flat(threshold: u32, rate: u32) -> (r: BinaryModel)
        requires
            threshold >= 2,
            1 <= rate < 32,
        ensures
            r.inv(),
            r.zero() == threshold / 2,
            r.total() == threshold,
            r.rate_spec() == rate,
    {
        assert(threshold >> 1u32 == threshold / 2) by (bit_vector);
        BinaryModel { zero: threshold >> 1, total: threshold, rate }
    }

    /// Zero has `zero_percent` percent of the total.
    pub fn new_custom(zero_percent: u8, threshold: u32, rate: u32) -> (r: BinaryModel)
        requires
            0 < zero_percent < 100,
            100 <= threshold <= 0x1000000,
            1 <= rate < 32,
        ensures
            r.inv(),
            r.zero() == zero_percent * threshold / 100,
            r.total() == threshold,
            r.rate_spec() == rate,
    {
        proof {
            assert(zero_percent * threshold <= 100 * 0x1000000) by (nonlinear_arith)
                requires
                    zero_percent < 100,
                    threshold <= 0x1000000,
            ;
            assert(zero_percent * threshold / 100 > 0 && zero_percent * threshold / 100 < threshold) by (nonlinear_arith)
                requires
                    0 < zero_percent < 100,
                    100 <= threshold,
            ;
        }
        BinaryModel { zero: (zero_percent as u32) * threshold / 100, total: threshold, rate }
    }

    /// Back to even odds.
    pub fn reset_flat(&mut self)
        requires
            old(self).inv(),
        ensures
            final(self).zero() == old(self).total() / 2,
            final(self).total() == old(self).total(),
            final(self).rate_spec() == old(self).rate_spec(),
            final(self).total() >= 2 ==> final(self).inv(),
            final(self).total() >= 2,
    {
        let t = self.total;
        assert(t >> 1u32 == t / 2) by (bit_vector);
        self.zero = t >> 1;
    }

    /// The frequency of zero.
    pub fn get_probability_zero(&self) -> (r: u32)
        ensures
            r == self.zero(),
    {
        self.zero
    }

    /// The frequency of one.
    pub fn get_probability_one(&self) -> (r: u32)
        requires
            self.inv(),
        ensures
            r == self.total() - self.zero(),
    {
        self.total - self.zero
    }

    /// Moves probability towards zero.
    pub fn update_zero(&mut self)
        requires
            old(self).inv(),
        ensures
            final(self).inv(),
            final(self).zero() == old(self).zero() + ((((old(self).total() - old(self).zero()) as u32) >> (old(
                self,
            ).rate_spec() as u32)) as int),
            final(self).total() == old(self).total(),
            final(self).rate_spec() == old(self).rate_spec(),
    {
        let d = self.total - self.zero;
        let rate = self.rate;
        assert(d >> rate <= d / 2) by (bit_vector)
            requires
                1 <= rate < 32,
        ;
        self.zero = self.zero + (d >> rate);
    }

    /// Moves probability towards one.
    pub fn update_one(&mut self)
        requires
            old(self).inv(),
        ensures
            final(self).inv(),
            final(self).zero() == old(self).zero() - (((old(self).zero() as u32) >> (old(self).rate_spec() as u32)) as int),
            final(self).total() == old(self).total(),
            final(self).rate_spec() == old(self).rate_spec(),
    {
        let z = self.zero;
        let rate = self.rate;
        assert(z >> rate <= z / 2) by (bit_vector)
            requires
                1 <= rate < 32,
        ;
        self.zero = z - (z >> rate);
    }

    /// Moves probability towards the observed bit.
    pub fn update(&mut self, value: bool)
        requires
            old(self).inv(),
        ensures
            final(self).inv(),
            final(self).total() == old(self).total(),
            final(self).rate_spec() == old(self).rate_spec(),
            value ==> final(self).zero() == old(self).zero() - (((old(self).zero() as u32) >> (old(
                self,
            ).rate_spec() as u32)) as int),
            !value ==> final(self).zero() == old(self).zero() + ((((old(self).total() - old(self).zero()) as u32)
                >> (old(self).rate_spec() as u32)) as int),
    {
        if value {
            self.update_one()
        } else {
            self.update_zero()
        }
    }
}

impl Model<bool> for BinaryModel {
    open spec fn wf(&self) -> bool {
        self.inv()
    }

    open spec fn range_of(&self, v: bool) -> (int, int) {
        if v {
            (self.zero(), self.total())
        } else {
            (0, self.zero())
        }
    }

    open spec fn denom(&self) -> int {
        self.total()
    }

    open spec fn valid(&self, v: bool) -> bool {
        true
    }

    fn get_range(&self, value: bool) -> (r: (u32, u32)) {
        if value {
            (self.zero, self.total)
        } else {
            (0, self.zero)
        }
    }

    fn find_value(&self, offset: u32) -> (r: (bool, u32, u32)) {
        if offset < self.zero {
            (false, 0, self.zero)
        } else {
            (true, self.zero, self.total)
        }
    }

    fn get_denominator(&self) -> (r: u32) {
        self.total
    }
}

/// The weighted sum of two binary models: `(wa * A + wb * B) >> ws`.
pub struct BinarySumProxy<'a> {
    first: &'a BinaryModel,
    second: &'a BinaryModel,
    w_first: u32,
    w_second: u32,
    w_shift: u32,
}

/// The weighted, shifted sum of two frequencies.
pub open spec fn mix(wa: int, a: int, wb: int, b: int, ws: int) -> int {
    (wa * a + wb * b) / vstd::arithmetic::power2::pow2(ws as nat) as int
}

impl<'a> BinarySumProxy<'a> {
    /// The mix gives both bits a non-empty share, without overflow.
    pub closed spec fn inv(&self) -> bool {
        &&& self.first.inv()
        &&& self.second.inv()
        &&& self.w_shift < 32
        &&& self.w_first * self.first.total() + self.w_second * self.second.total() <= u32::MAX
        &&& 0 < self.zero_mix()
        &&& self.zero_mix() < self.total_mix()
    }

    /// The mixed frequency of zero.
    pub closed spec fn zero_mix(&self) -> int {
        mix(self.w_first as int, self.first.zero(), self.w_second as int, self.second.zero(), self.w_shift as int)
    }

    /// The mixed total.
    pub closed spec fn total_mix(&self) -> int {
        mix(self.w_first as int, self.first.total(), self.w_second as int, self.second.total(), self.w_shift as int)
    }

    /// A mix of `first` and `second` with weights `wa` and `wb` and shift
    /// `shift`.
    pub fn new(wa: u32, first: &'a BinaryModel, wb: u32, second: &'a BinaryModel, shift: u32) -> (r: BinarySumProxy<'a>)
        ensures
            r.zero_mix() == mix(wa as int, first.zero(), wb as int, second.zero(), shift as int),
            r.total_mix() == mix(wa as int, first.total(), wb as int, second.total(), shift as int),
            first.inv() && second.inv() && shift < 32 && wa * first.total() + wb * second.total() <= u32::MAX
                && 0 < r.zero_mix() < r.total_mix() ==> r.inv(),
    {
        BinarySumProxy { first, second, w_first: wa, w_second: wb, w_shift: shift }
    }

    fn mixed(&self, a: u32, b: u32) -> (r: u32)
        requires
            self.inv(),
            a <= self.first.total(),
            b <= self.second.total(),
        ensures
            r == mix(self.w_first as int, a as int, self.w_second as int, b as int, self.w_shift as int),
    {
        proof {
            assert(self.w_first * a <= self.w_first * self.first.total()) by (nonlinear_arith)
                requires
                    a <= self.first.total(),
            ;
            assert(self.w_second * b <= self.w_second * self.second.total()) by (nonlinear_arith)
                requires
                    b <= self.second.total(),
            ;
        }
        let s = self.w_first * a + self.w_second * b;
        let ws = self.w_shift;
        proof {
            vstd::bits::lemma_u32_shr_is_div(s, ws);
        }
        s >> ws
    }

    /// The mixed frequency of zero.
    pub fn get_probability_zero(&self) -> (r: u32)
        requires
            self.inv(),
        ensures
            r == self.zero_mix(),
    {
        self.mixed(self.first.get_probability_zero(), self.second.get_probability_zero())
    }
}

impl<'a> Model<bool> for BinarySumProxy<'a> {
    open spec fn wf(&self) -> bool {
        self.inv()
    }

    open spec fn range_of(&self, v: bool) -> (int, int) {
        if v {
            (self.zero_mix(), self.total_mix())
        } else {
            (0, self.zero_mix())
        }
    }

    open spec fn denom(&self) -> int {
        self.total_mix()
    }

    open spec fn valid(&self, v: bool) -> bool {
        true
    }

    fn get_range(&self, value: bool) -> (r: (u32, u32)) {
        let zero = self.get_probability_zero();
        if value {
            (zero, self.get_denominator())
        } else {
            (0, zero)
        }
    }

    fn find_value(&self, offset: u32) -> (r: (bool, u32, u32)) {
        let zero = self.get_probability_zero();
        let total = self.get_denominator();
        if offset < zero {
            (false, 0, zero)
        } else {
            (true, zero, total)
        }
    }

    fn get_denominator(&self) -> (r: u32) {
        self.mixed(self.first.total, self.second.total)
    }
}

} // verus!
