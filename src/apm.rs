//! Adaptive probability maps: a bit model on a 12-bit flat scale and a gate
//! that refines a probability by interpolating between adaptive bins.

use vstd::prelude::*;
use crate::ari::Model;

verus! {

/// The flat probability scale: `[0, 4096)`.
pub const FLAT_TOTAL: u32 = 4096;
/// The wide (stretched) probability scale is centred on zero, in `[-2048, 2048)`.
pub const WIDE_OFFSET: i32 = 2048;
/// Bits of the interpolation weight between two bins.
pub const BIN_WEIGHT_BITS: u32 = 8;
/// The number of bins of a gate.
pub const PORTAL_BINS: usize = 17;

/// A bit's probability of being zero, out of `FLAT_TOTAL`.
#[derive(Clone, Copy)]
pub struct Bit(pub u16);

impl Bit {
    /// Both values keep a non-empty share.
    pub open spec fn wf(&self) -> bool {
        0 < self.0 < 4096
    }

    /// Even odds.
    pub fn new_equal() -> (r: Bit)
        ensures
            r.0 == 2048,
            r.wf(),
    {
        Bit(2048)
    }

    /// The flat probability of zero.
    pub fn to_flat(&self) -> (r: u16)
        ensures
            r == self.0,
    {
        self.0
    }

    /// A bit of the given flat probability of zero.
    pub fn from_flat(fp: u16) -> (r: Bit)
        ensures
            r.0 == fp,
    {
        Bit(fp)
    }

    /// Moves probability towards zero: adds `(4096 - bias - p) >> rate`.
    pub fn update_zero(&mut self, rate: i32, bias: i32)
        requires
            old(self).wf(),
            1 <= rate < 32,
            0 <= bias,
            bias + old(self).0 <= 4096,
        ensures
            final(self).wf(),
            final(self).0 == old(self).0 + (((4096 - bias - old(self).0) as u32) >> (rate as u32)),
    {
        let one: u32 = (4096 - bias - self.0 as i32) as u32;
        let r = rate as u32;
        assert(one >> r <= one / 2) by (bit_vector)
            requires
                1 <= r < 32,
        ;
        self.0 = self.0 + (one >> r) as u16;
    }

    /// Moves probability towards one: subtracts `(p - bias) >> rate`.
    pub fn update_one(&mut self, rate: i32, bias: i32)
        requires
            old(self).wf(),
            1 <= rate < 32,
            0 <= bias <= old(self).0,
        ensures
            final(self).wf(),
            final(self).0 == old(self).0 - (((old(self).0 - bias) as u32) >> (rate as u32)),
    {
        let zero: u32 = (self.0 as i32 - bias) as u32;
        let r = rate as u32;
        assert(zero >> r <= zero / 2) by (bit_vector)
            requires
                1 <= r < 32,
        ;
        self.0 = self.0 - (zero >> r) as u16;
    }

    /// Moves probability towards the observed value.
    pub fn update(&mut self, value: bool, rate: i32, bias: i32)
        requires
            old(self).wf(),
            1 <= rate < 32,
            0 <= bias,
            bias + old(self).0 <= 4096,
            bias <= old(self).0,
        ensures
            final(self).wf(),
            !value ==> final(self).0 == old(self).0 + (((4096 - bias - old(self).0) as u32) >> (rate as u32)),
            value ==> final(self).0 == old(self).0 - (((old(self).0 - bias) as u32) >> (rate as u32)),
    {
        if !value {
            self.update_zero(rate, bias)
        } else {
            self.update_one(rate, bias)
        }
    }
}

impl Model<bool> for Bit {
    open spec fn wf(&self) -> bool {
        0 < self.0 < 4096
    }

    open spec fn range_of(&self, v: bool) -> (int, int) {
        if v {
            (self.0 as int, 4096)
        } else {
            (0, self.0 as int)
        }
    }

    open spec fn denom(&self) -> int {
        4096
    }

    open spec fn valid(&self, v: bool) -> bool {
        true
    }

    fn get_range(&self, value: bool) -> (r: (u32, u32)) {
        let fp = self.0 as u32;
        if !value {
            (0, fp)
        } else {
            (fp, FLAT_TOTAL)
        }
    }

    fn find_value(&self, offset: u32) -> (r: (bool, u32, u32)) {
        let fp = self.0 as u32;
        if offset < fp {
            (false, 0, fp)
        } else {
            (true, fp, FLAT_TOTAL)
        }
    }

    fn get_denominator(&self) -> (r: u32) {
        FLAT_TOTAL
    }
}

/// A gate: maps a probability to a refined one through adaptive bins
/// spread evenly over the wide scale.
pub struct Gate {
    /// The bins, from wide probability -2048 to 2048 in steps of 256.
    pub map: [Bit; 17],
}

/// Where a probability fell between two bins: the lower bin's index and the
/// weight of the upper one, out of 256.
pub type BinCoords = (usize, usize);

impl Gate {
    /// Every bin is a valid bit model.
    pub open spec fn wf(&self) -> bool {
        forall|i: int| 0 <= i < 17 ==> self.map@[i].wf()
    }

    /// A gate whose bins start on the logistic curve: bin `i` holds the
    /// flat probability of wide probability `256 * i - 2048`.
    pub fn new() -> (r: Gate)
        ensures
            r.wf(),
    {
        let map: [Bit; 17] = [
            Bit(1101),
            Bit(1205),
            Bit(1314),
            Bit(1428),
            Bit(1546),
            Bit(1668),
            Bit(1793),
            Bit(1920),
            Bit(2048),
            Bit(2175),
            Bit(2302),
            Bit(2427),
            Bit(2549),
            Bit(2667),
            Bit(2781),
            Bit(2890),
            Bit(2994),
        ];
        let g = Gate { map };
        assert(g.wf()) by {
            assert(g.map@ =~= seq![
                Bit(1101),
                Bit(1205),
                Bit(1314),
                Bit(1428),
                Bit(1546),
                Bit(1668),
                Bit(1793),
                Bit(1920),
                Bit(2048),
                Bit(2175),
                Bit(2302),
                Bit(2427),
                Bit(2549),
                Bit(2667),
                Bit(2781),
                Bit(2890),
                Bit(2994),
            ]);
        }
        g
    }

    /// Maps a wide probability to a flat one, blending the two bins on
    /// either side of it by its position between them.
    pub fn pass_wide(&self, wp: i16) -> (r: (u16, BinCoords))
        requires
            self.wf(),
            -2048 <= wp < 2048,
        ensures
            r.1.0 == (wp + 2048) / 256,
            r.1.1 == (wp + 2048) % 256,
            r.0 == (self.map@[r.1.0 as int].0 * (256 - r.1.1) + self.map@[r.1.0 + 1].0 * r.1.1) / 256,
            r.0 < 4096,
    {
        let u: u32 = (wp as i32 + 2048) as u32;
        let index = (u >> 8u32) as usize;
        let weight = (u & 255u32) as usize;
        assert(u >> 8u32 == u / 256 && u & 255u32 == u % 256) by (bit_vector);
        let z0 = self.map[index].0 as usize;
        let z1 = self.map[index + 1].0 as usize;
        proof {
            assert(z0 * (256 - weight) + z1 * weight < 4096 * 256) by (nonlinear_arith)
                requires
                    z0 < 4096,
                    z1 < 4096,
                    weight < 256,
            ;
        }
        let sum = z0 * (256 - weight) + z1 * weight;
        ((sum / 256) as u16, (index, weight))
    }

    /// Moves both bins around `bc` towards zero.
    pub fn update_zero(&mut self, bc: BinCoords, rate: i32, bias: i32)
        requires
            old(self).wf(),
            bc.0 < 16,
            1 <= rate < 32,
            0 <= bias,
            bias + old(self).map@[bc.0 as int].0 <= 4096,
            bias + old(self).map@[bc.0 + 1].0 <= 4096,
        ensures
            final(self).wf(),
            forall|i: int|
                0 <= i < 17 ==> #[trigger] final(self).map@[i] == if i == bc.0 || i == bc.0 + 1 {
                    Bit((old(self).map@[i].0 + (((4096 - bias - old(self).map@[i].0) as u32) >> (rate as u32))) as u16)
                } else {
                    old(self).map@[i]
                },
    {
        let (index, _) = bc;
        let mut b0 = self.map[index];
        b0.update_zero(rate, bias);
        self.map[index] = b0;
        let mut b1 = self.map[index + 1];
        b1.update_zero(rate, bias);
        self.map[index + 1] = b1;
    }

    /// Moves both bins around `bc` towards one.
    pub fn update_one(&mut self, bc: BinCoords, rate: i32, bias: i32)
        requires
            old(self).wf(),
            bc.0 < 16,
            1 <= rate < 32,
            0 <= bias,
            bias <= old(self).map@[bc.0 as int].0,
            bias <= old(self).map@[bc.0 + 1].0,
        ensures
            final(self).wf(),
            forall|i: int|
                0 <= i < 17 ==> #[trigger] final(self).map@[i] == if i == bc.0 || i == bc.0 + 1 {
                    Bit((old(self).map@[i].0 - (((old(self).map@[i].0 - bias) as u32) >> (rate as u32))) as u16)
                } else {
                    old(self).map@[i]
                },
    {
        let (index, _) = bc;
        let mut b0 = self.map[index];
        b0.update_one(rate, bias);
        self.map[index] = b0;
        let mut b1 = self.map[index + 1];
        b1.update_one(rate, bias);
        self.map[index + 1] = b1;
    }

    /// Moves both bins around `bc` towards the observed value.
    pub fn update(&mut self, value: bool, bc: BinCoords, rate: i32, bias: i32)
        requires
            old(self).wf(),
            bc.0 < 16,
            1 <= rate < 32,
            0 <= bias,
            bias + old(self).map@[bc.0 as int].0 <= 4096,
            bias + old(self).map@[bc.0 + 1].0 <= 4096,
            bias <= old(self).map@[bc.0 as int].0,
            bias <= old(self).map@[bc.0 + 1].0,
        ensures
            final(self).wf(),
            forall|i: int|
                0 <= i < 17 && i != bc.0 && i != bc.0 + 1 ==> #[trigger] final(self).map@[i] == old(self).map@[i],
            forall|i: int|
                (i == bc.0 || i == bc.0 + 1) && !value ==> #[trigger] final(self).map@[i] == Bit(
                    (old(self).map@[i].0 + (((4096 - bias - old(self).map@[i].0) as u32) >> (rate as u32))) as u16,
                ),
            forall|i: int|
                (i == bc.0 || i == bc.0 + 1) && value ==> #[trigger] final(self).map@[i] == Bit(
                    (old(self).map@[i].0 - (((old(self).map@[i].0 - bias) as u32) >> (rate as u32))) as u16,
                ),
    {
        if !value {
            self.update_zero(bc, rate, bias)
        } else {
            self.update_one(bc, rate, bias)
        }
    }
}

} // verus!
