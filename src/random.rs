//! Sources of randomness for the simulation. Every stochastic decision draws
//! from a generator handed in by the caller, so that runs can be reproduced.

use vstd::prelude::*;

verus! {

/// One million: the denominator of every probability and rate.
pub const PPM: u64 = 1_000_000;

/// A generator of uniformly distributed 32-bit words.
pub trait RandomSource {
    fn next_u32(&mut self) -> u32;
}

/// A small seedable xorshift generator.
pub struct XorShift {
    pub state: u64,
}

impl XorShift {
    /// A generator started from `seed`; a zero seed is replaced by a fixed
    /// non-zero one, since zero is a fixed point of the xorshift step.
    pub fn new(seed: u64) -> (r: XorShift)
        ensures
            r.state != 0,
            seed != 0 ==> r.state == seed,
    {
        if seed == 0 {
            XorShift { state: 0x9e37_79b9_7f4a_7c15 }
        } else {
            XorShift { state: seed }
        }
    }
}

impl RandomSource for XorShift {
    fn next_u32(&mut self) -> u32 {
        let mut x = self.state;
        x = x ^ (x << 13u64);
        x = x ^ (x >> 7u64);
        x = x ^ (x << 17u64);
        self.state = x;
        (x >> 32u64) as u32
    }
}

/// A Bernoulli trial that succeeds with probability `ppm` parts per million.
pub fn chance<R: RandomSource>(rng: &mut R, ppm: u64) -> (r: bool)
    ensures
        ppm == 0 ==> !r,
        ppm >= PPM ==> r,
{
    let draw = rng.next_u32() as u64 % PPM;
    draw < ppm
}

/// A draw in `0..bound`.
pub fn below<R: RandomSource>(rng: &mut R, bound: u64) -> (r: u64)
    requires
        bound > 0,
    ensures
        r < bound,
{
    let hi = rng.next_u32() as u64;
    let lo = rng.next_u32() as u64;
    ((hi << 32u64) | lo) % bound
}

} // verus!
