//! The integer parts of the renderers' random number generators: a xorshift
//! generator and a 64-bit linear congruential generator.
use vstd::prelude::*;
use crate::capstone::xorshift;

verus! {

/// A xorshift generator (shifts 13, 7, 17).
pub struct Rng {
    pub state: u64,
}

impl Rng {
    /// A generator whose state is `seed`.
    pub fn new(seed: u64) -> (r: Self)
        ensures
            r.state == seed,
    {
        Rng { state: seed }
    }

    /// Advances the state by one xorshift step and returns it.
    pub fn next_u64(&mut self) -> (r: u64)
        ensures
            r == xorshift(old(self).state),
            final(self).state == r,
    {
        self.state = self.state ^ (self.state << 13u64);
        self.state = self.state ^ (self.state >> 7u64);
        self.state = self.state ^ (self.state << 17u64);
        self.state
    }
}

/// The multiplier of the linear congruential generator.
pub const LCG_MUL: u64 = 6364136223846793005;

/// The increment of the linear congruential generator.
pub const LCG_INC: u64 = 1442695040888963407;

/// One step of the linear congruential generator: `s * LCG_MUL + LCG_INC`
/// modulo 2^64.
pub open spec fn lcg_step(s: u64) -> u64 {
    ((s * LCG_MUL + LCG_INC) % 0x1_0000_0000_0000_0000) as u64
}

/// A 64-bit linear congruential generator that hands out the high 32 bits
/// of its state.
pub struct SimpleRng {
    pub state: u64,
}

impl SimpleRng {
    /// A generator seeded with `seed`; a zero seed is replaced by one.
    pub fn new(seed: u64) -> (r: Self)
        ensures
            r.state == if seed == 0 {
                1
            } else {
                seed
            },
    {
        SimpleRng { state: if seed == 0 { 1 } else { seed } }
    }

    /// Advances the state by one step and returns its high 32 bits.
    pub fn gen_u32(&mut self) -> (r: u32)
        ensures
            final(self).state == lcg_step(old(self).state),
            r == final(self).state / 0x1_0000_0000,
    {
        let m = self.state.wrapping_mul(LCG_MUL);
        let s = m.wrapping_add(LCG_INC);
        proof {
            let a = self.state as int * LCG_MUL as int;
            assert(m == a % 0x1_0000_0000_0000_0000) by {
                assert(a >= 0) by (nonlinear_arith)
                    requires
                        a == self.state as int * LCG_MUL as int,
                ;
            }
            assert(s == (m + LCG_INC) % 0x1_0000_0000_0000_0000);
            vstd::arithmetic::div_mod::lemma_add_mod_noop(a, LCG_INC as int, 0x1_0000_0000_0000_0000);
            vstd::arithmetic::div_mod::lemma_small_mod(LCG_INC as nat, 0x1_0000_0000_0000_0000);
            vstd::arithmetic::div_mod::lemma_mod_twice(a, 0x1_0000_0000_0000_0000);
        }
        self.state = s;
        assert((s >> 32u64) == s / 0x1_0000_0000) by (bit_vector);
        (s >> 32u64) as u32
    }
}

} // verus!
