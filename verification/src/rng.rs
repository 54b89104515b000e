//! The seeded bit-mixing generator that drives the weighted draw.

use vstd::prelude::*;

verus! {

/// One mixing step: three xor-shift rounds over a 32-bit seed, using the
/// shift triple `(a, b, c)`. Shift amounts must be below 32.
pub open spec fn mix_step(seed: u32, a: u32, b: u32, c: u32) -> u32
    recommends
        a < 32,
        b < 32,
        c < 32,
{
    let n1 = seed ^ (seed >> a);
    let n2 = n1 ^ (n1 << b);
    n2 ^ (n2 >> c)
}

/// Deterministic xor-shift generator. The seed starts at a fixed constant and
/// every draw both advances and returns it; the shift triple is swapped in
/// from the pickup tables between draws.
pub struct Rng {
    pub seed: u32,
    pub shifts: (u32, u32, u32),
}

/// Shift amounts stay below the seed width.
pub open spec fn shifts_ok(t: (u32, u32, u32)) -> bool {
    t.0 < 32 && t.1 < 32 && t.2 < 32
}

impl Rng {
    /// Fresh generator: fixed initial seed, zero shift triple.
    pub fn new() -> (r: Rng)
        ensures
            r.seed == 0x7777_7770u32,
            r.shifts == (0u32, 0u32, 0u32),
    {
        Rng { seed: 0x7777_7770, shifts: (0, 0, 0) }
    }

    /// Replace the shift triple.
    pub fn set_shifts(&mut self, t: (u32, u32, u32))
        requires
            shifts_ok(t),
        ensures
            final(self).shifts == t,
            final(self).seed == old(self).seed,
    {
        self.shifts = t;
    }

    /// Advance the seed by one mixing step and return the new seed.
    pub fn next(&mut self) -> (r: u32)
        requires
            shifts_ok(old(self).shifts),
        ensures
            final(self).shifts == old(self).shifts,
            final(self).seed == mix_step(old(self).seed, old(self).shifts.0, old(self).shifts.1, old(self).shifts.2),
            r == final(self).seed,
    {
        let mut num = self.seed;
        num = num ^ (num >> self.shifts.0);
        num = num ^ (num << self.shifts.1);
        num = num ^ (num >> self.shifts.2);
        self.seed = num;
        self.seed
    }
}

} // verus!
