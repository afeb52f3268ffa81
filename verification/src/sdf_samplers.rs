//! Deterministic pseudo-random numbers for procedural test scenes.
use vstd::prelude::*;

verus! {

/// One xorshift32 step: `x ^= x << 13; x ^= x >> 17; x ^= x << 5`.
pub open spec fn xorshift_step(x: u32) -> u32 {
    let a = x ^ (x << 13u32);
    let b = a ^ (a >> 17u32);
    b ^ (b << 5u32)
}

/// Xorshift32 generator (Marsaglia), never in the all-zero state.
pub struct XorShift32 {
    state: u32,
}

impl XorShift32 {
    /// The current state.
    pub closed spec fn state(&self) -> u32 {
        self.state
    }

    /// A generator seeded with `seed` (a zero seed becomes 1, since zero is a
    /// fixed point of the step).
    pub fn new(seed: u32) -> (r: Self)
        ensures
            r.state() == if seed == 0 {
                1
            } else {
                seed
            },
            r.state() != 0,
    {
        XorShift32 { state: if seed == 0 { 1 } else { seed } }
    }

    /// Advance one step and return the new state.
    pub fn next(&mut self) -> (v: u32)
        ensures
            v == xorshift_step(old(self).state()),
            final(self).state() == v,
            old(self).state() != 0 ==> v != 0,
    {
        let mut x = self.state;
        x = x ^ (x << 13u32);
        x = x ^ (x >> 17u32);
        x = x ^ (x << 5u32);
        proof {
            lemma_step_nonzero(self.state);
        }
        self.state = x;
        x
    }
}

/// A nonzero state never steps to zero: each of the three xor-shifts is
/// invertible, so only zero maps to zero.
pub proof fn lemma_step_nonzero(x: u32)
    ensures
        x != 0 ==> xorshift_step(x) != 0,
{
    let a = x ^ (x << 13u32);
    let b = a ^ (a >> 17u32);
    assert(x != 0 ==> a != 0) by (bit_vector)
        requires
            a == x ^ (x << 13u32),
    ;
    assert(a != 0 ==> b != 0) by (bit_vector)
        requires
            b == a ^ (a >> 17u32),
    ;
    assert(b != 0 ==> (b ^ (b << 5u32)) != 0) by (bit_vector);
}

} // verus!
