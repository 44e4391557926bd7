//! A small xorshift generator of 32-bit numbers.

use vstd::prelude::*;

verus! {

/// The state that follows `x`: three xorshift steps, then the low 32 bits.
pub open spec fn next_state(x: u64) -> u64 {
    let a = x ^ (x << 13);
    let b = a ^ (a >> 17);
    let c = b ^ (b << 5);
    c & 0xffff_ffff
}

/// The number below `max` that a state of 32 bits stands for: the state
/// scaled from the range of 32 bits to the range below `max`.
pub open spec fn scaled(state: u64, max: u32) -> int {
    (state as int * max as int) / 0x1_0000_0000
}

/// A scaled state lies below the bound.
pub proof fn lemma_scaled_below(state: u64, max: u32)
    requires
        state <= 0xffff_ffff,
        max > 0,
    ensures
        0 <= scaled(state, max) < max,
{
    let s = state as int;
    let m = max as int;
    assert(0 <= s * m < 0x1_0000_0000 * m) by (nonlinear_arith)
        requires
            0 <= s < 0x1_0000_0000,
            0 < m,
    ;
    assert((s * m) / 0x1_0000_0000 < m) by (nonlinear_arith)
        requires
            0 <= s * m < 0x1_0000_0000 * m,
    ;
}

/// The generator.
pub struct XorShift {
    x: u64,
}

impl XorShift {
    /// The current state.
    pub closed spec fn state(&self) -> u64 {
        self.x
    }

    /// A generator that starts from `seed`.
    pub fn new(seed: u64) -> (rng: XorShift)
        ensures
            rng.state() == seed,
    {
        XorShift { x: seed }
    }

    /// Moves to the next state and returns it scaled to the range below
    /// `max`.
    pub fn rand(&mut self, max: u32) -> (r: u64)
        ensures
            final(self).state() == next_state(old(self).state()),
            final(self).state() <= 0xffff_ffff,
            r == scaled(final(self).state(), max),
            max > 0 ==> r < max,
            max == 0 ==> r == 0,
    {
        self.x = self.x ^ (self.x << 13);
        self.x = self.x ^ (self.x >> 17);
        self.x = self.x ^ (self.x << 5);
        self.x = self.x & 0xffff_ffff;
        let x: u64 = self.x;
        let m: u64 = max as u64;
        assert(x <= 0xffff_ffff) by (bit_vector)
            requires
                exists|c: u64| x == c & 0xffff_ffff,
        ;
        assert(x * m <= 0xffff_ffff * 0xffff_ffff) by (nonlinear_arith)
            requires
                x <= 0xffff_ffff,
                m <= 0xffff_ffff,
        ;
        assert(m == 0 ==> x * m == 0) by (nonlinear_arith);
        let product: u64 = x * m;
        assert(product >> 32 == product / 0x1_0000_0000) by (bit_vector);
        proof {
            if max > 0 {
                lemma_scaled_below(x, max);
            }
        }
        product >> 32
    }
}

} // verus!
