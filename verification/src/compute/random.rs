//! A small deterministic pseudo-random generator (SplitMix64).
//!
//! Equal seeds give equal streams, which is what makes training runs
//! reproducible.
use vstd::prelude::*;
use vstd::wrapping::u64_specs;

verus! {

/// Increment added to the state before every draw.
pub const GOLDEN_GAMMA: u64 = 0x9E37_79B9_7F4A_7C15;

/// State after one draw.
pub open spec fn next_state(state: u64) -> u64 {
    u64_specs::wrapping_add(state, GOLDEN_GAMMA)
}

/// Output of the draw whose (already advanced) state is `z`.
pub open spec fn mix(z: u64) -> u64 {
    let a = u64_specs::wrapping_mul(z ^ (z >> 30u64), 0xBF58_476D_1CE4_E5B9u64);
    let b = u64_specs::wrapping_mul(a ^ (a >> 27u64), 0x94D0_49BB_1331_11EBu64);
    b ^ (b >> 31u64)
}

/// Deterministic generator; its whole state is one `u64`.
#[derive(Clone, Debug)]
pub struct Rng {
    state: u64,
}

impl Rng {
    pub closed spec fn state(&self) -> u64 {
        self.state
    }

    /// A generator seeded with `seed`.
    pub fn new(seed: u64) -> (r: Self)
        ensures
            r.state() == seed,
    {
        Rng { state: seed }
    }

    /// Next 64 random bits.
    pub fn next_u64(&mut self) -> (r: u64)
        ensures
            final(self).state() == next_state(old(self).state()),
            r == mix(next_state(old(self).state())),
    {
        self.state = self.state.wrapping_add(GOLDEN_GAMMA);
        let z = self.state;
        let a = (z ^ (z >> 30u64)).wrapping_mul(0xBF58_476D_1CE4_E5B9u64);
        let b = (a ^ (a >> 27u64)).wrapping_mul(0x94D0_49BB_1331_11EBu64);
        b ^ (b >> 31u64)
    }

    /// A value in `0..n`, drawn from the next 64 random bits.
    pub fn gen_range(&mut self, n: usize) -> (r: usize)
        requires
            n > 0,
        ensures
            r < n,
            r as int == mix(next_state(old(self).state())) as int % n as int,
            final(self).state() == next_state(old(self).state()),
    {
        let bits = self.next_u64();
        let n64 = n as u64;
        (bits % n64) as usize
    }
}

} // verus!
