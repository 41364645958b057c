//! Core identifiers and musical time types shared by the whole library.
//!
//! Musical time is integer ticks at a fixed resolution of [`PPQ`] pulses per
//! quarter note; tempo is stored exactly as microseconds per quarter note.

use vstd::prelude::*;

verus! {

/// Pulses per quarter note used by [`Tick`]. Divisible by 2–8, 12, 16, 32, 64.
pub const PPQ: i64 = 960;

/// Musical time in ticks at a fixed resolution of [`PPQ`] pulses per quarter note.
#[derive(Debug, Clone, Copy, PartialEq, Eq, Structural, PartialOrd, Ord, Hash, Default)]
pub struct Tick(pub i64);

impl Tick {
    /// The zero tick (start of the timeline).
    pub fn zero() -> (t: Tick)
        ensures
            t.0 == 0,
    {
        Tick(0)
    }

    /// One quarter note.
    pub fn quarter() -> (t: Tick)
        ensures
            t.0 == PPQ,
    {
        Tick(PPQ)
    }

    /// Number of whole quarter notes this tick position represents, rounding down.
    pub fn quarters(self) -> (q: i64)
        ensures
            q == self.0 as int / PPQ as int,
            q * PPQ <= self.0 < q * PPQ + PPQ,
    {
        let x = self.0;
        if x >= 0 {
            x / PPQ
        } else {
            let m = -(x + 1);
            let q = -(m / PPQ) - 1;
            assert(q * PPQ <= x < q * PPQ + PPQ) by (nonlinear_arith)
                requires
                    m == -(x + 1),
                    q == -(m / 960) - 1,
                    x < 0,
            ;
            q
        }
    }

    /// Saturating addition.
    pub fn saturating_add(self, rhs: Tick) -> (r: Tick)
        ensures
            r.0 == clamp_i64(self.0 + rhs.0),
    {
        if rhs.0 > 0 && self.0 > i64::MAX - rhs.0 {
            Tick(i64::MAX)
        } else if rhs.0 < 0 && self.0 < i64::MIN - rhs.0 {
            Tick(i64::MIN)
        } else {
            Tick(self.0 + rhs.0)
        }
    }
}

/// The value of `v` clamped into the `i64` range.
pub open spec fn clamp_i64(v: int) -> int {
    if v > i64::MAX {
        i64::MAX as int
    } else if v < i64::MIN {
        i64::MIN as int
    } else {
        v
    }
}

/// The value of `v` clamped into `lo..=hi`.
pub open spec fn clamp_int(v: int, lo: int, hi: int) -> int {
    if v < lo {
        lo
    } else if v > hi {
        hi
    } else {
        v
    }
}

/// Pitch as a MIDI note number plus an optional microtonal offset in cents.
#[derive(Debug, Clone, Copy, PartialEq, Eq, Structural, PartialOrd, Ord, Hash)]
pub struct Pitch {
    /// MIDI note number (0–127; 60 = middle C).
    pub note: u8,
    /// Microtonal offset in cents (−100..=100 kept by convention).
    pub cents: i16,
}

/// Whether a cents offset is zero (serialization omits zero offsets).
fn is_zero_cents(c: &i16) -> (r: bool)
    ensures
        r == (*c == 0),
{
    *c == 0
}

impl Pitch {
    /// A pitch on the 12-TET grid with no microtonal offset.
    pub fn new(note: u8) -> (p: Pitch)
        ensures
            p.note == note,
            p.cents == 0,
    {
        Pitch { note, cents: 0 }
    }

    /// Transposes by `semitones`, clamping to the valid MIDI range 0–127.
    pub fn transposed(self, semitones: i8) -> (p: Pitch)
        ensures
            p.note == clamp_int(self.note + semitones, 0, 127),
            p.cents == self.cents,
    {
        let note: i16 = self.note as i16 + semitones as i16;
        let clamped: i16 = if note < 0 {
            0
        } else if note > 127 {
            127
        } else {
            note
        };
        Pitch { note: clamped as u8, cents: self.cents }
    }
}

/// MIDI velocity, validated to 1–127 for note-ons (0 means note-off on the wire).
#[derive(Debug, Clone, Copy, PartialEq, Eq, Structural, PartialOrd, Ord, Hash)]
pub struct Velocity(u8);

impl Velocity {
    /// A sensible default velocity (mezzo-forte).
    pub fn mf() -> (v: Velocity)
        ensures
            v.value() == 80,
            v == Velocity::of(80),
    {
        Velocity(80)
    }

    /// The raw value (spec view).
    pub closed spec fn value(self) -> u8 {
        self.0
    }

    /// The velocity holding the raw value `v`.
    pub closed spec fn of(v: int) -> Velocity {
        Velocity(v as u8)
    }

    /// A velocity is the one built from its own value.
    pub proof fn lemma_of_own_value(v: Velocity)
        ensures
            Velocity::of(v.value() as int) == v,
    {
    }

    /// Every velocity lies in 1..=127.
    #[verifier::type_invariant]
    spec fn in_range(self) -> bool {
        1 <= self.0 <= 127
    }

    /// Creates a velocity, returning `None` outside 1..=127.
    pub fn new(v: u8) -> (r: Option<Velocity>)
        ensures
            r matches Some(vel) ==> vel.value() == v && vel == Velocity::of(v as int),
            r is Some <==> 1 <= v <= 127,
    {
        if 1 <= v && v <= 127 {
            Some(Velocity(v))
        } else {
            None
        }
    }

    /// Creates a velocity, clamping into 1..=127.
    pub fn clamped(v: i32) -> (r: Velocity)
        ensures
            r.value() == clamp_int(v as int, 1, 127),
            r == Velocity::of(clamp_int(v as int, 1, 127)),
    {
        let c: i32 = if v < 1 {
            1
        } else if v > 127 {
            127
        } else {
            v
        };
        Velocity(c as u8)
    }

    /// The raw MIDI value (1–127).
    pub fn get(self) -> (r: u8)
        ensures
            r == self.value(),
            1 <= r <= 127,
    {
        proof {
            use_type_invariant(&self);
        }
        self.0
    }
}

/// A time signature such as 4/4 or 7/8.
#[derive(Debug, Clone, Copy, PartialEq, Eq, Structural, Hash)]
pub struct TimeSignature {
    /// Beats per bar.
    pub numerator: u8,
    /// Note value of one beat (power of two: 1, 2, 4, 8, 16, 32).
    pub denominator: u8,
}

impl TimeSignature {
    /// Common time, 4/4.
    pub fn common() -> (s: TimeSignature)
        ensures
            s.numerator == 4,
            s.denominator == 4,
    {
        TimeSignature { numerator: 4, denominator: 4 }
    }

    /// Length of one bar in ticks.
    pub fn bar_ticks(self) -> (t: Tick)
        requires
            self.denominator != 0,
        ensures
            t.0 == (self.numerator * PPQ * 4) / (self.denominator as int),
    {
        let n: i64 = self.numerator as i64 * PPQ * 4;
        Tick(n / self.denominator as i64)
    }
}

/// Tempo stored exactly as microseconds per quarter note, as in SMF.
#[derive(Debug, Clone, Copy, PartialEq, Eq, Structural, PartialOrd, Ord, Hash)]
pub struct Tempo {
    /// Microseconds per quarter note (`500_000` = 120 BPM).
    pub micros_per_quarter: u32,
}

impl Tempo {
    /// 120 BPM.
    pub fn default_tempo() -> (t: Tempo)
        ensures
            t.micros_per_quarter == 500_000,
    {
        Tempo { micros_per_quarter: 500_000 }
    }
}

/// Seed for all randomness in the domain.
#[derive(Debug, Clone, Copy, PartialEq, Eq, Structural, Hash, Default)]
pub struct Seed(pub u64);

/// Identifier for a project.
#[derive(Debug, Clone, Copy, PartialEq, Eq, Structural, PartialOrd, Ord, Hash)]
pub struct ProjectId(pub u64);

/// Identifier for a track within a project.
#[derive(Debug, Clone, Copy, PartialEq, Eq, Structural, PartialOrd, Ord, Hash)]
pub struct TrackId(pub u64);

/// Identifier for a clip within a project.
#[derive(Debug, Clone, Copy, PartialEq, Eq, Structural, PartialOrd, Ord, Hash)]
pub struct ClipId(pub u64);

} // verus!
