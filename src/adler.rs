//! Adler-32 checksum.

use vstd::prelude::*;

verus! {

/// The prime modulus of both accumulators.
pub const MOD_ADLER: u32 = 65521;

/// The `a` accumulator after feeding `s` into a state whose `a` was `a0`.
pub open spec fn adler_a(a0: nat, s: Seq<u8>) -> nat
    decreases s.len(),
{
    if s.len() == 0 {
        a0
    } else {
        ((adler_a(a0, s.drop_last()) + s.last() as nat) % (MOD_ADLER as nat)) as nat
    }
}

/// The `b` accumulator after feeding `s` into a state `(a0, b0)`.
pub open spec fn adler_b(a0: nat, b0: nat, s: Seq<u8>) -> nat
    decreases s.len(),
{
    if s.len() == 0 {
        b0
    } else {
        ((adler_b(a0, b0, s.drop_last()) + adler_a(a0, s)) % (MOD_ADLER as nat)) as nat
    }
}

/// The Adler-32 checksum of a whole byte sequence.
pub open spec fn adler32(s: Seq<u8>) -> u32 {
    ((adler_b(1, 0, s) * 65536 + adler_a(1, s)) % 0x1_0000_0000) as u32
}

/// Running Adler-32 state.
pub struct State32 {
    a: u32,
    b: u32,
}

impl State32 {
    /// Both accumulators are reduced.
    pub closed spec fn wf(&self) -> bool {
        self.a < MOD_ADLER && self.b < MOD_ADLER
    }

    /// The `(a, b)` accumulators.
    pub closed spec fn view(&self) -> (nat, nat) {
        (self.a as nat, self.b as nat)
    }

    /// A fresh state, whose checksum is that of no bytes.
    pub fn new() -> (r: State32)
        ensures
            r.wf(),
            r@ == (1nat, 0nat),
    {
        State32 { a: 1, b: 0 }
    }

    /// Feeds bytes into the state.
    pub fn feed(&mut self, buf: &[u8])
        requires
            old(self).wf(),
        ensures
            final(self).wf(),
            final(self)@ == (adler_a(old(self)@.0, buf@), adler_b(old(self)@.0, old(self)@.1, buf@)),
    {
        let ghost a0 = self.a as nat;
        let ghost b0 = self.b as nat;
        let mut i: usize = 0;
        while i < buf.len()
            invariant
                0 <= i <= buf.len(),
                self.wf(),
                self.a as nat == adler_a(a0, buf@.take(i as int)),
                self.b as nat == adler_b(a0, b0, buf@.take(i as int)),
            decreases buf.len() - i,
        {
            let byte = buf[i];
            self.a = (self.a + byte as u32) % MOD_ADLER;
            self.b = (self.a + self.b) % MOD_ADLER;
            proof {
                let t = buf@.take(i as int + 1);
                assert(t.drop_last() =~= buf@.take(i as int));
            }
            i = i + 1;
        }
        proof {
            assert(buf@.take(i as int) =~= buf@);
        }
    }

    /// The checksum of everything fed since the state was new or reset.
    pub fn result(&self) -> (r: u32)
        requires
            self.wf(),
        ensures
            r == ((self@.1 * 65536 + self@.0) % 0x1_0000_0000) as u32,
    {
        let a = self.a;
        let b = self.b;
        assert(b < 65536 && a < 65536 ==> (b << 16) | a == b * 65536 + a) by (bit_vector);
        (b << 16) | a
    }

    /// Returns to the state of `new`.
    pub fn reset(&mut self)
        ensures
            final(self).wf(),
            final(self)@ == (1nat, 0nat),
    {
        self.a = 1;
        self.b = 0;
    }
}

/// The checksum of a buffer, computed in one pass.
pub fn checksum(buf: &[u8]) -> (r: u32)
    ensures
        r == adler32(buf@),
{
    let mut st = State32::new();
    st.feed(buf);
    st.result()
}

} // verus!
