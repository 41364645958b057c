//! Deterministic, seeded randomness for the domain: a SplitMix64 generator.
//!
//! Every stochastic operation takes an explicit seed and flows through this
//! generator, so the same inputs always produce the same output.

use vstd::prelude::*;
use crate::core_types::Seed;

verus! {

/// The SplitMix64 state increment.
pub open spec fn gamma() -> u64 {
    0x9E37_79B9_7F4A_7C15
}

/// The SplitMix64 output mixing function.
pub open spec fn mix64(z0: u64) -> u64 {
    let z1 = (z0 ^ (z0 >> 30u64)).wrapping_mul(0xBF58_476D_1CE4_E5B9);
    let z2 = (z1 ^ (z1 >> 27u64)).wrapping_mul(0x94D0_49BB_1331_11EB);
    z2 ^ (z2 >> 31u64)
}

/// The state after one step.
pub open spec fn step(s: u64) -> u64 {
    s.wrapping_add(gamma())
}

/// The raw value drawn from state `s` (taken after the step).
pub open spec fn draw(s: u64) -> u64 {
    mix64(step(s))
}

/// Largest `max` accepted by [`SplitMix64::in_range`] (`2 * max + 1` must fit `i64`).
pub open spec fn max_range() -> i64 {
    0x3FFF_FFFF_FFFF_FFFF
}

/// State and value after a uniform draw in `[-max, max]` (no draw when `max <= 0`).
pub open spec fn range_draw(s: u64, max: i64) -> (u64, i64) {
    if max <= 0 {
        (s, 0)
    } else {
        (step(s), ((draw(s) % ((2 * max + 1) as u64)) as int - max) as i64)
    }
}

/// A range draw lies in `[-max, max]`; it draws nothing and gives 0 when
/// `max <= 0`.
pub proof fn lemma_range_draw(s: u64, max: i64)
    requires
        max <= max_range(),
    ensures
        max <= 0 ==> range_draw(s, max) == (s, 0i64),
        max > 0 ==> range_draw(s, max).0 == step(s) && -max <= range_draw(s, max).1 <= max,
{
    if max > 0 {
        let span = (2 * max + 1) as u64;
        assert(span as int == 2 * max + 1);
        let m = draw(s) % span;
        assert(0 <= m < span);
    }
}

/// State and value after a uniform index draw in `[0, len)` (no draw when `len == 0`).
pub open spec fn index_draw(s: u64, len: usize) -> (u64, usize) {
    if len == 0 {
        (s, 0)
    } else {
        (step(s), (draw(s) % (len as u64)) as usize)
    }
}

/// State and value of a `pct`-percent coin flip.
pub open spec fn chance_draw(s: u64, pct: u8) -> (u64, bool) {
    (step(s), draw(s) % 100 < (if pct > 100 {
        100
    } else {
        pct
    }))
}

/// A deterministic SplitMix64 generator.
#[derive(Debug, Clone)]
pub struct SplitMix64(u64);

impl SplitMix64 {
    /// The generator state.
    pub closed spec fn state(&self) -> u64 {
        self.0
    }

    /// Creates a generator from a seed.
    pub fn new(seed: Seed) -> (r: SplitMix64)
        ensures
            r.state() == seed.0,
    {
        SplitMix64(seed.0)
    }

    /// Next raw 64-bit value.
    pub fn next_u64(&mut self) -> (r: u64)
        ensures
            final(self).state() == step(old(self).state()),
            r == draw(old(self).state()),
    {
        self.0 = self.0.wrapping_add(0x9E37_79B9_7F4A_7C15);
        let mut z = self.0;
        z = (z ^ (z >> 30)).wrapping_mul(0xBF58_476D_1CE4_E5B9);
        z = (z ^ (z >> 27)).wrapping_mul(0x94D0_49BB_1331_11EB);
        z ^ (z >> 31)
    }

    /// Uniform value in `[-max, max]`; `0` when `max <= 0` (no value consumed).
    pub fn in_range(&mut self, max: i64) -> (r: i64)
        requires
            max <= max_range(),
        ensures
            (final(self).state(), r) == range_draw(old(self).state(), max),
            -max <= r <= max || (max <= 0 && r == 0),
    {
        if max <= 0 {
            return 0;
        }
        let span: u64 = (2 * max + 1) as u64;
        let raw = self.next_u64();
        let m = raw % span;
        let r = m as i64;
        r - max
    }

    /// Uniform index in `[0, len)`; `0` when `len == 0` (no value consumed).
    pub fn index(&mut self, len: usize) -> (r: usize)
        ensures
            (final(self).state(), r) == index_draw(old(self).state(), len),
            len > 0 ==> r < len,
    {
        if len == 0 {
            return 0;
        }
        let raw = self.next_u64();
        (raw % (len as u64)) as usize
    }

    /// True with probability `pct`/100.
    pub fn chance(&mut self, pct: u8) -> (r: bool)
        ensures
            (final(self).state(), r) == chance_draw(old(self).state(), pct),
    {
        let p: u8 = if pct > 100 {
            100
        } else {
            pct
        };
        (self.next_u64() % 100) < p as u64
    }
}

} // verus!
