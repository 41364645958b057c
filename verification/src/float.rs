//! IEEE-754 binary32 values held by their bit pattern.
//!
//! The project model stores mix and device parameters exactly as the 32-bit
//! float encodings the user supplied; range checks compare encodings with
//! the IEEE ordering (NaN compares false, `-0.0 == 0.0`).

use vstd::prelude::*;

verus! {

/// An IEEE-754 binary32 value, stored as its bit pattern.
#[derive(Debug, Clone, Copy, PartialEq, Eq, Structural, Hash)]
pub struct Float32 {
    /// The IEEE-754 binary32 encoding.
    pub bits: u32,
}

/// Magnitude bits (sign cleared).
pub open spec fn magnitude(b: u32) -> int {
    (b as int) % 0x8000_0000
}

/// Whether the encoding is a NaN.
pub open spec fn is_nan(b: u32) -> bool {
    magnitude(b) > 0x7F80_0000
}

/// Whether the encoding is finite (not NaN, not infinite).
pub open spec fn is_finite(b: u32) -> bool {
    magnitude(b) < 0x7F80_0000
}

/// An integer that orders non-NaN encodings as the values they denote.
pub open spec fn order_key(b: u32) -> int {
    if b >= 0x8000_0000 {
        -magnitude(b)
    } else {
        b as int
    }
}

/// `lo <= x && x <= hi` under IEEE comparison (what `(lo..=hi).contains(&x)` computes).
pub open spec fn within(x: u32, lo: u32, hi: u32) -> bool {
    !is_nan(x) && order_key(lo) <= order_key(x) <= order_key(hi)
}

impl Float32 {
    /// Whether the value lies within `lo..=hi` (bounds given as encodings, not NaN).
    pub fn within(self, lo: u32, hi: u32) -> (r: bool)
        requires
            !is_nan(lo),
            !is_nan(hi),
        ensures
            r == within(self.bits, lo, hi),
    {
        let mag = Self::mag_of(self.bits);
        if mag > 0x7F80_0000 {
            return false;
        }
        let key = Self::key_of(self.bits);
        let klo = Self::key_of(lo);
        let khi = Self::key_of(hi);
        klo <= key && key <= khi
    }

    fn mag_of(b: u32) -> (m: u32)
        ensures
            m == magnitude(b),
    {
        let m = b & 0x7FFF_FFFF;
        assert(m == (b as int) % 0x8000_0000) by (bit_vector)
            requires
                m == b & 0x7FFF_FFFF,
        ;
        m
    }

    fn key_of(b: u32) -> (k: i64)
        ensures
            k == order_key(b),
    {
        let mag = Self::mag_of(b);
        if b >= 0x8000_0000 {
            -(mag as i64)
        } else {
            b as i64
        }
    }

    /// Whether the value is finite.
    pub fn is_finite(self) -> (r: bool)
        ensures
            r == is_finite(self.bits),
    {
        let mag = Self::mag_of(self.bits);
        mag < 0x7F80_0000
    }
}

/// The encoding of `0.0`.
pub open spec fn zero_bits() -> u32 {
    0
}

} // verus!
