//! Rule-based composition: functional-harmony chord progressions, block
//! chords, basslines, melodies, and drum patterns, each a pure function of
//! its inputs and a seed.

use vstd::prelude::*;
use crate::core_types::{clamp_int, Pitch, Seed, Tick, Velocity, PPQ};
use crate::harmony::{chord_intervals, scale_has, scale_intervals, Chord, ChordQuality, PitchClass, Scale, ScaleKind};
use crate::pattern::{lemma_max_end_le, lemma_note_error_none, note_end, note_valid, Note, Pattern};
use crate::rng::{chance_draw, index_draw, range_draw, SplitMix64};
use crate::sorting::{is_stable_sort_of, lemma_stable_sort_contains};
use crate::text::{ascii_lower, chars_eq, chars_of, lower_ascii_chars, string_of, trim, trimmed};

verus! {

broadcast use vstd::seq_lib::group_seq_properties;

/// Drum styles for the drum generator.
#[derive(Debug, Clone, Copy, PartialEq, Eq, Structural)]
pub enum DrumStyle {
    /// Kick 1 & 3, snare 2 & 4, eighth hats.
    Basic,
    /// Kick every beat, offbeat hats.
    FourOnFloor,
    /// Sparse, swung hats and ghost snares.
    LoFi,
}

/// The style a name denotes (after trimming and ASCII lower-casing), or the
/// normalized name when it denotes none.
pub open spec fn drum_style_named(name: Seq<char>) -> Result<DrumStyle, Seq<char>> {
    let t = ascii_lower(trim(name));
    if t == "basic"@ || t == "rock"@ {
        Ok(DrumStyle::Basic)
    } else if t == "four_on_floor"@ || t == "house"@ {
        Ok(DrumStyle::FourOnFloor)
    } else if t == "lofi"@ || t == "lo-fi"@ {
        Ok(DrumStyle::LoFi)
    } else {
        Err(t)
    }
}

impl DrumStyle {
    /// Parses a style name; unknown names come back normalized as the error.
    pub fn parse(name: &str) -> (r: Result<DrumStyle, String>)
        ensures
            r is Ok <==> drum_style_named(name@) is Ok,
            r matches Ok(s) ==> drum_style_named(name@) == Ok::<DrumStyle, Seq<char>>(s),
            r matches Err(e) ==> drum_style_named(name@) == Err::<DrumStyle, Seq<char>>(e@),
    {
        let t = trimmed(name);
        let cs = chars_of(t.as_str());
        let v = lower_ascii_chars(&cs);
        if chars_eq(&v, "basic") || chars_eq(&v, "rock") {
            Ok(DrumStyle::Basic)
        } else if chars_eq(&v, "four_on_floor") || chars_eq(&v, "house") {
            Ok(DrumStyle::FourOnFloor)
        } else if chars_eq(&v, "lofi") || chars_eq(&v, "lo-fi") {
            Ok(DrumStyle::LoFi)
        } else {
            Err(string_of(&v))
        }
    }
}


/// One bar per chord, 4/4 throughout the generators.
pub const BAR: i64 = PPQ * 4;

// ---------------------------------------------------------------- progressions

/// Whether a scale kind is minor-like (a minor third as its third step).
pub open spec fn minor_like(k: ScaleKind) -> bool {
    scale_intervals(k).len() > 2 && scale_intervals(k)[2] == 3
}

/// The seven-step interval pattern triads are built from: the scale's own
/// pattern when it has seven steps, else the parent natural minor or major.
pub open spec fn heptatonic(k: ScaleKind) -> Seq<u8> {
    if scale_intervals(k).len() == 7 {
        scale_intervals(k)
    } else if minor_like(k) {
        seq![0u8, 2, 3, 5, 7, 8, 10]
    } else {
        seq![0u8, 2, 4, 5, 7, 9, 11]
    }
}

/// The quality of the triad stacked in thirds on degree `d` (0-based), with
/// the dominant (degree 4) forced major in minor-like keys.
pub open spec fn triad_quality(k: ScaleKind, d: int) -> ChordQuality {
    let h = heptatonic(k);
    let third = (h[(d + 2) % 7] + 12 - h[d]) % 12;
    let fifth = (h[(d + 4) % 7] + 12 - h[d]) % 12;
    if d == 4 && minor_like(k) {
        ChordQuality::Major
    } else if third == 3 && fifth == 7 {
        ChordQuality::Minor
    } else if third == 3 && fifth == 6 {
        ChordQuality::Diminished
    } else if third == 4 && fifth == 8 {
        ChordQuality::Augmented
    } else {
        ChordQuality::Major
    }
}

/// `c` is the diatonic triad on degree `d` of `scale`.
pub open spec fn is_degree_triad(c: Chord, scale: Scale, d: int) -> bool {
    &&& c.root.idx() == (scale.tonic.idx() + heptatonic(scale.kind)[d]) % 12
    &&& c.quality == triad_quality(scale.kind, d)
}

/// The diatonic triads are made of scale tones: in every seven-note scale,
/// each tone of the triad on each degree belongs to the scale, except in the
/// dominant of a minor-like key, which is made major; in the natural minor
/// that dominant takes its tones from the harmonic minor.
#[verifier::rlimit(100)]
pub proof fn law_diatonic_triads_use_scale_tones(t: int, k: ScaleKind, d: int, j: int)
    requires
        scale_intervals(k).len() == 7,
        0 <= d < 7,
        0 <= j < chord_intervals(triad_quality(k, d)).len(),
    ensures
        !(d == 4 && minor_like(k)) ==> scale_has(
            t,
            k,
            t + heptatonic(k)[d] + chord_intervals(triad_quality(k, d))[j],
        ),
        d == 4 && k == ScaleKind::NaturalMinor ==> scale_has(
            t,
            ScaleKind::HarmonicMinor,
            t + heptatonic(k)[d] + chord_intervals(triad_quality(k, d))[j],
        ),
{
    let x: int = heptatonic(k)[d] + chord_intervals(triad_quality(k, d))[j];
    assert((t + x - t) == x);
    let m = x % 12;
    assert(0 <= m < 12);
    crate::harmony::lemma_scale_degrees(k, m);
    crate::harmony::lemma_scale_degrees(ScaleKind::HarmonicMinor, m);
    assert(d == 0 || d == 1 || d == 2 || d == 3 || d == 4 || d == 5 || d == 6);
    assert(j == 0 || j == 1 || j == 2);
}

/// Tonic-function degrees (I, vi), by draw index.
pub open spec fn tonic_degree(i: usize) -> int {
    if i == 0 {
        0
    } else {
        5
    }
}

/// Pre-dominant degrees (ii, IV), by draw index.
pub open spec fn pre_degree(i: usize) -> int {
    if i == 0 {
        1
    } else {
        3
    }
}

/// The degrees (0-based) of the last `remaining` chords of a progression, in
/// functional state `state` (0 tonic, 1 pre-dominant, 2 dominant) with the
/// generator in state `rng`: the last chord is the tonic, the one before it
/// the dominant; otherwise tonic moves to pre-dominant 60% of the time,
/// pre-dominant to dominant 70% of the time, and dominant resolves to tonic.
pub open spec fn progression_tail(remaining: nat, state: u8, rng: u64) -> Seq<int>
    decreases remaining,
{
    if remaining == 0 {
        Seq::empty()
    } else if remaining == 1 {
        seq![0int]
    } else if remaining == 2 {
        let (r1, _i) = index_draw(rng, 1);
        seq![4int] + progression_tail(1, 0, r1)
    } else if state == 0 {
        let (r1, go) = chance_draw(rng, 60);
        let (r2, i) = index_draw(r1, 2);
        if go {
            seq![pre_degree(i)] + progression_tail((remaining - 1) as nat, 1, r2)
        } else {
            seq![tonic_degree(i)] + progression_tail((remaining - 1) as nat, 0, r2)
        }
    } else if state == 1 {
        let (r1, go) = chance_draw(rng, 70);
        if go {
            let (r2, _i) = index_draw(r1, 1);
            seq![4int] + progression_tail((remaining - 1) as nat, 2, r2)
        } else {
            let (r2, i) = index_draw(r1, 2);
            seq![pre_degree(i)] + progression_tail((remaining - 1) as nat, 1, r2)
        }
    } else {
        let (r1, i) = index_draw(rng, 2);
        seq![tonic_degree(i)] + progression_tail((remaining - 1) as nat, 0, r1)
    }
}

/// The degrees of a progression of `bars` chords (at least one) from `seed`:
/// it starts on the tonic.
pub open spec fn progression_degrees(bars: usize, seed: u64) -> Seq<int> {
    let total: int = if bars == 0 {
        1
    } else {
        bars as int
    };
    seq![0int] + progression_tail((total - 1) as nat, 0, seed)
}

fn is_minor(scale: Scale) -> (r: bool)
    ensures
        r == minor_like(scale.kind),
{
    let iv = scale.kind.intervals();
    iv.len() > 2 && iv[2] == 3
}

fn heptatonic_steps(scale: Scale) -> (r: Vec<u8>)
    ensures
        r@ == heptatonic(scale.kind),
{
    let steps = scale.kind.intervals();
    if steps.len() == 7 {
        vstd::slice::slice_to_vec(steps)
    } else if is_minor(scale) {
        vec![0, 2, 3, 5, 7, 8, 10]
    } else {
        vec![0, 2, 4, 5, 7, 9, 11]
    }
}

/// The seven diatonic triads of a scale, with a major dominant forced in
/// minor keys; pentatonic scales borrow the parent major or minor triads.
pub fn diatonic_triads(scale: Scale) -> (r: Vec<Chord>)
    ensures
        r@.len() == 7,
        forall|d: int| 0 <= d < 7 ==> is_degree_triad(#[trigger] r@[d], scale, d),
{
    let h = heptatonic_steps(scale);
    let minor = is_minor(scale);
    let mut out: Vec<Chord> = Vec::new();
    let mut degree: usize = 0;
    while degree < 7
        invariant
            h@ == heptatonic(scale.kind),
            minor == minor_like(scale.kind),
            degree <= 7,
            out@.len() == degree,
            forall|d: int| 0 <= d < degree ==> is_degree_triad(#[trigger] out@[d], scale, d),
        decreases 7 - degree,
    {
        proof {
            assert(forall|j: int| 0 <= j < 7 ==> #[trigger] h@[j] < 12);
        }
        let root = scale.tonic.transposed(h[degree] as i8);
        let third = (h[(degree + 2) % 7] + 12 - h[degree]) % 12;
        let fifth = (h[(degree + 4) % 7] + 12 - h[degree]) % 12;
        let quality = if third == 3 && fifth == 7 {
            ChordQuality::Minor
        } else if third == 3 && fifth == 6 {
            ChordQuality::Diminished
        } else if third == 4 && fifth == 8 {
            ChordQuality::Augmented
        } else {
            ChordQuality::Major
        };
        let chord = if degree == 4 && minor {
            Chord { root, quality: ChordQuality::Major }
        } else {
            Chord { root, quality }
        };
        out.push(chord);
        degree += 1;
    }
    out
}

/// Generates a chord progression with functional-harmony structure: tonic
/// {I, vi} → pre-dominant {ii, IV} → dominant {V} → tonic, starting on I
/// and cadencing V → I. The same `(scale, bars, seed)` always yields the
/// same progression; at least one chord is produced.
pub fn generate_chords(scale: Scale, bars: usize, seed: Seed) -> (r: Vec<Chord>)
    ensures
        r@.len() == progression_degrees(bars, seed.0).len(),
        forall|i: int|
            0 <= i < r@.len() ==> is_degree_triad(#[trigger] r@[i], scale, progression_degrees(bars, seed.0)[i]),
{
    let mut rng = SplitMix64::new(seed);
    let degrees = diatonic_triads(scale);
    let total: usize = if bars == 0 {
        1
    } else {
        bars
    };
    let ghost all = progression_degrees(bars, seed.0);
    let mut out: Vec<Chord> = Vec::new();
    out.push(degrees[0]);
    let mut state: u8 = 0;
    let ghost mut done_degrees: Seq<int> = seq![0int];
    proof {
        lemma_progression_tail_len((total - 1) as nat, 0, seed.0);
        assert(all =~= done_degrees + progression_tail((total - out@.len()) as nat, state, rng.state()));
    }
    while out.len() < total
        invariant
            degrees@.len() == 7,
            forall|d: int| 0 <= d < 7 ==> is_degree_triad(#[trigger] degrees@[d], scale, d),
            total == (if bars == 0 {
                1
            } else {
                bars
            }),
            1 <= out@.len() <= total,
            done_degrees.len() == out@.len(),
            all == progression_degrees(bars, seed.0),
            all == done_degrees + progression_tail((total - out@.len()) as nat, state, rng.state()),
            state <= 2,
            forall|i: int| 0 <= i < out@.len() ==> 0 <= #[trigger] done_degrees[i] < 7 && is_degree_triad(out@[i], scale, done_degrees[i]),
        decreases total - out@.len(),
    {
        let remaining = total - out.len();
        let ghost rem = remaining as nat;
        let ghost st0 = state;
        let ghost r0 = rng.state();
        let degree: usize;
        if remaining == 1 {
            degree = 0;
        } else if remaining == 2 {
            state = 0;
            let _i = rng.index(1);
            degree = 4;
        } else if state == 0 {
            if rng.chance(60) {
                state = 1;
                let i = rng.index(2);
                degree = if i == 0 {
                    1
                } else {
                    3
                };
            } else {
                let i = rng.index(2);
                degree = if i == 0 {
                    0
                } else {
                    5
                };
            }
        } else if state == 1 {
            if rng.chance(70) {
                state = 2;
                let _i = rng.index(1);
                degree = 4;
            } else {
                let i = rng.index(2);
                degree = if i == 0 {
                    1
                } else {
                    3
                };
            }
        } else {
            state = 0;
            let i = rng.index(2);
            degree = if i == 0 {
                0
            } else {
                5
            };
        }
        proof {
            let tail = progression_tail(rem, st0, r0);
            assert(tail == seq![degree as int] + progression_tail((rem - 1) as nat, state, rng.state()));
            assert(all =~= done_degrees.push(degree as int) + progression_tail((rem - 1) as nat, state, rng.state()));
            done_degrees = done_degrees.push(degree as int);
        }
        out.push(degrees[degree]);
    }
    proof {
        assert(done_degrees =~= all);
    }
    out
}

proof fn lemma_progression_tail_len(remaining: nat, state: u8, rng: u64)
    ensures
        progression_tail(remaining, state, rng).len() == remaining,
    decreases remaining,
{
    if remaining > 2 {
        let (r1, go) = chance_draw(rng, if state == 0 { 60 } else { 70 });
        let (r2, _i) = index_draw(r1, 2);
        let (r3, _j) = index_draw(r1, 1);
        let (r4, _k) = index_draw(rng, 2);
        lemma_progression_tail_len((remaining - 1) as nat, 0, r2);
        lemma_progression_tail_len((remaining - 1) as nat, 1, r2);
        lemma_progression_tail_len((remaining - 1) as nat, 2, r3);
        lemma_progression_tail_len((remaining - 1) as nat, 0, r4);
    } else if remaining == 2 {
        let (r1, _i) = index_draw(rng, 1);
        lemma_progression_tail_len(1, 0, r1);
    }
}

proof fn lemma_progression_tail_shape(remaining: nat, state: u8, rng: u64)
    ensures
        progression_tail(remaining, state, rng).len() == remaining,
        remaining >= 1 ==> progression_tail(remaining, state, rng).last() == 0,
        remaining >= 2 ==> progression_tail(remaining, state, rng)[remaining - 2] == 4,
        forall|i: int| 0 <= i < remaining ==> #[trigger] progression_tail(remaining, state, rng)[i] == 0
            || progression_tail(remaining, state, rng)[i] == 1 || progression_tail(remaining, state, rng)[i] == 3
            || progression_tail(remaining, state, rng)[i] == 4 || progression_tail(remaining, state, rng)[i] == 5,
    decreases remaining,
{
    lemma_progression_tail_len(remaining, state, rng);
    if remaining >= 2 {
        let t = progression_tail(remaining, state, rng);
        let (next_state, r_next): (u8, u64) = if remaining == 2 {
            (0u8, index_draw(rng, 1).0)
        } else if state == 0 {
            if chance_draw(rng, 60).1 {
                (1u8, index_draw(chance_draw(rng, 60).0, 2).0)
            } else {
                (0u8, index_draw(chance_draw(rng, 60).0, 2).0)
            }
        } else if state == 1 {
            if chance_draw(rng, 70).1 {
                (2u8, index_draw(chance_draw(rng, 70).0, 1).0)
            } else {
                (1u8, index_draw(chance_draw(rng, 70).0, 2).0)
            }
        } else {
            (0u8, index_draw(rng, 2).0)
        };
        let rest = progression_tail((remaining - 1) as nat, next_state, r_next);
        assert(t == seq![t[0]] + rest);
        lemma_progression_tail_shape((remaining - 1) as nat, next_state, r_next);
        assert forall|i: int| 1 <= i < remaining implies #[trigger] t[i] == rest[i - 1] by {}
    }
}

/// Every progression starts on the tonic triad, ends on it, and, from three
/// bars on, has the dominant in its second-to-last bar; every chord is one of
/// the degrees I, ii, IV, V or vi, and there are `max(bars, 1)` of them.
pub proof fn law_progression_structure(bars: usize, seed: u64)
    ensures
        progression_degrees(bars, seed).len() == if bars == 0 {
            1
        } else {
            bars as int
        },
        progression_degrees(bars, seed)[0] == 0,
        progression_degrees(bars, seed).last() == 0,
        bars >= 3 ==> progression_degrees(bars, seed)[bars - 2] == 4,
        forall|i: int|
            0 <= i < progression_degrees(bars, seed).len() ==> #[trigger] progression_degrees(bars, seed)[i] == 0
                || progression_degrees(bars, seed)[i] == 1 || progression_degrees(bars, seed)[i] == 3
                || progression_degrees(bars, seed)[i] == 4 || progression_degrees(bars, seed)[i] == 5,
{
    let total: int = if bars == 0 {
        1
    } else {
        bars as int
    };
    let t = progression_tail((total - 1) as nat, 0, seed);
    lemma_progression_tail_shape((total - 1) as nat, 0, seed);
    let p = progression_degrees(bars, seed);
    assert(p == seq![0int] + t);
    assert forall|i: int| 1 <= i < p.len() implies #[trigger] p[i] == t[i - 1] by {}
}

/// The harmonic function of a degree: 0 tonic (I, vi), 1 pre-dominant
/// (ii, IV), 2 dominant (V).
pub open spec fn harmonic_function(d: int) -> int {
    if d == 0 || d == 5 {
        0
    } else if d == 1 || d == 3 {
        1
    } else {
        2
    }
}

/// A chord of degree `b` may follow one of function `f`: the tonic moves to
/// the tonic or a pre-dominant, a pre-dominant to a pre-dominant or the
/// dominant, and the dominant resolves to the tonic.
pub open spec fn follows_function(f: int, b: int) -> bool {
    ||| f == 0 && harmonic_function(b) <= 1
    ||| f == 1 && harmonic_function(b) >= 1
    ||| f >= 2 && harmonic_function(b) == 0
}

proof fn lemma_tail_follows(remaining: nat, state: u8, rng: u64)
    ensures
        remaining >= 3 ==> follows_function(state as int, progression_tail(remaining, state, rng)[0]),
        forall|i: int|
            0 <= i && i + 1 < remaining - 2 ==> follows_function(
                harmonic_function(#[trigger] progression_tail(remaining, state, rng)[i]),
                progression_tail(remaining, state, rng)[i + 1],
            ),
    decreases remaining,
{
    lemma_progression_tail_len(remaining, state, rng);
    if remaining >= 3 {
        let t = progression_tail(remaining, state, rng);
        let (next_state, r_next): (u8, u64) = if state == 0 {
            if chance_draw(rng, 60).1 {
                (1u8, index_draw(chance_draw(rng, 60).0, 2).0)
            } else {
                (0u8, index_draw(chance_draw(rng, 60).0, 2).0)
            }
        } else if state == 1 {
            if chance_draw(rng, 70).1 {
                (2u8, index_draw(chance_draw(rng, 70).0, 1).0)
            } else {
                (1u8, index_draw(chance_draw(rng, 70).0, 2).0)
            }
        } else {
            (0u8, index_draw(rng, 2).0)
        };
        let rest = progression_tail((remaining - 1) as nat, next_state, r_next);
        assert(t == seq![t[0]] + rest);
        assert(next_state as int == harmonic_function(t[0]));
        lemma_progression_tail_len((remaining - 1) as nat, next_state, r_next);
        lemma_tail_follows((remaining - 1) as nat, next_state, r_next);
        assert forall|i: int| 0 <= i && i + 1 < remaining - 2 implies follows_function(
            harmonic_function(#[trigger] t[i]),
            t[i + 1],
        ) by {
            assert(t[i + 1] == rest[i]);
            if i > 0 {
                assert(t[i] == rest[i - 1]);
            }
        }
    }
}

/// Progressions move by harmonic function: until the closing dominant and
/// tonic, the tonic (I, vi) moves to the tonic or a pre-dominant (ii, IV), a
/// pre-dominant to a pre-dominant or the dominant (V), and the dominant
/// resolves to the tonic.
pub proof fn law_progression_follows_functions(bars: usize, seed: u64)
    ensures
        forall|i: int|
            0 <= i && i + 1 < progression_degrees(bars, seed).len() - 2 ==> follows_function(
                harmonic_function(#[trigger] progression_degrees(bars, seed)[i]),
                progression_degrees(bars, seed)[i + 1],
            ),
        forall|i: int|
            0 <= i && i + 1 < progression_degrees(bars, seed).len() - 2 && #[trigger] progression_degrees(bars, seed)[i]
                == 4 ==> progression_degrees(bars, seed)[i + 1] == 0 || progression_degrees(bars, seed)[i + 1] == 5,
{
    let total: int = if bars == 0 {
        1
    } else {
        bars as int
    };
    let t = progression_tail((total - 1) as nat, 0, seed);
    lemma_progression_tail_len((total - 1) as nat, 0, seed);
    lemma_tail_follows((total - 1) as nat, 0, seed);
    let p = progression_degrees(bars, seed);
    assert(p == seq![0int] + t);
    assert forall|i: int| 0 <= i && i + 1 < p.len() - 2 implies follows_function(
        harmonic_function(#[trigger] p[i]),
        p[i + 1],
    ) by {
        assert(p[i + 1] == t[i]);
        if i > 0 {
            assert(p[i] == t[i - 1]);
        }
    }
    assert forall|i: int| 0 <= i && i + 1 < p.len() - 2 && #[trigger] p[i] == 4 implies p[i + 1] == 0 || p[i + 1] == 5 by {
        assert(follows_function(harmonic_function(p[i]), p[i + 1]));
    }
}

// ---------------------------------------------------------------- patterns

/// Bar arithmetic: bar starts grow with the bar number, one bar at a time.
proof fn lemma_bars(a: int, b: int)
    ensures
        BAR == 3840,
        0 <= a <= b ==> 0 <= a * BAR <= b * BAR,
        (a + 1) * BAR == a * BAR + BAR,
{
    assert(0 <= a <= b ==> 0 <= a * 3840 <= b * 3840) by (nonlinear_arith);
}

/// The start tick of bar `bar` of a piece of `len` bars.
fn bar_start(bar: usize, len: usize) -> (r: i64)
    requires
        bar <= len,
        len * BAR <= i64::MAX,
    ensures
        r == bar * BAR,
        0 <= r,
{
    proof {
        lemma_bars(bar as int, len as int);
    }
    bar as i64 * BAR
}

/// Sorts generated notes into a pattern of the given length.
fn finish(notes: Vec<Note>, length: i64) -> (p: Pattern)
    requires
        length >= 0,
        forall|i: int| 0 <= i < notes@.len() ==> #[trigger] note_valid(notes@[i]) && note_end(notes@[i]) <= length,
    ensures
        p.wf(),
        is_stable_sort_of(p@.notes, notes@),
        p@.length.0 == length,
{
    proof {
        lemma_note_error_none(notes@);
        assert forall|i: int| 0 <= i < notes@.len() implies note_end(#[trigger] notes@[i]) <= length
            && notes@[i].start.0 >= 0 && notes@[i].duration.0 > 0 by {
            assert(note_valid(notes@[i]));
        }
        lemma_max_end_le(notes@, length as int);
    }
    match Pattern::new(notes, Tick(length)) {
        Ok(p) => p,
        Err(_) => {
            proof {
                assert(false);
            }
            Pattern::empty(Tick(length))
        },
    }
}

/// Tone `k` of chord `c` in close position from `octave`.
pub open spec fn chord_tone(c: Chord, octave: i8, k: int) -> Pitch {
    Pitch {
        note: clamp_int(
            clamp_int((octave + 1) * 12 + c.root.idx(), 0, 127) + chord_intervals(c.quality)[k],
            0,
            127,
        ) as u8,
        cents: 0,
    }
}

/// The block chords of a progression: every tone of chord `b` sounding for
/// the whole of bar `b`.
pub open spec fn block_chord_notes(prog: Seq<Chord>, octave: i8, vel: Velocity) -> Seq<Note>
    decreases prog.len(),
{
    if prog.len() == 0 {
        Seq::empty()
    } else {
        let c = prog.last();
        let start = Tick(((prog.len() - 1) * BAR) as i64);
        block_chord_notes(prog.drop_last(), octave, vel) + Seq::new(
            chord_intervals(c.quality).len(),
            |k: int| Note { pitch: chord_tone(c, octave, k), velocity: vel, start, duration: Tick(BAR) },
        )
    }
}

proof fn lemma_chord_intervals_small(q: ChordQuality)
    ensures
        forall|k: int| 0 <= k < chord_intervals(q).len() ==> #[trigger] chord_intervals(q)[k] < 12,
        3 <= chord_intervals(q).len() <= 4,
{
}

/// Block chords sound each bar's chord for the whole bar: every note starts
/// on a bar line, lasts one bar, and (for octaves 0–7, where nothing is
/// clamped) is a tone of that bar's chord at or above the chosen octave's C.
pub proof fn law_block_chords_sound_the_progression(prog: Seq<Chord>, octave: i8, vel: Velocity)
    requires
        0 <= octave <= 7,
        prog.len() * BAR <= i64::MAX,
    ensures
        forall|i: int|
            0 <= i < block_chord_notes(prog, octave, vel).len() ==> {
                let n = #[trigger] block_chord_notes(prog, octave, vel)[i];
                let b = n.start.0 / BAR;
                &&& 0 <= b < prog.len()
                &&& n.start.0 == b * BAR
                &&& n.duration.0 == BAR
                &&& n.pitch.note >= (octave + 1) * 12
                &&& chord_classes(prog[b]).contains(n.pitch.note as int % 12)
            },
    decreases prog.len(),
{
    if prog.len() > 0 {
        let rest = prog.drop_last();
        lemma_bars(rest.len() as int, prog.len() as int);
        law_block_chords_sound_the_progression(rest, octave, vel);
        let c = prog.last();
        let start = Tick(((prog.len() - 1) * BAR) as i64);
        let head = block_chord_notes(rest, octave, vel);
        let tail = Seq::new(
            chord_intervals(c.quality).len(),
            |k: int| Note { pitch: chord_tone(c, octave, k), velocity: vel, start, duration: Tick(BAR) },
        );
        let all = block_chord_notes(prog, octave, vel);
        assert(all == head + tail);
        c.root.lemma_idx();
        lemma_chord_intervals_small(c.quality);
        assert forall|i: int| 0 <= i < all.len() implies {
            let n = #[trigger] all[i];
            let b = n.start.0 / BAR;
            &&& 0 <= b < prog.len()
            &&& n.start.0 == b * BAR
            &&& n.duration.0 == BAR
            &&& n.pitch.note >= (octave + 1) * 12
            &&& chord_classes(prog[b]).contains(n.pitch.note as int % 12)
        } by {
            if i < head.len() {
                assert(all[i] == head[i]);
                let b = head[i].start.0 / BAR;
                assert(prog[b] == rest[b]);
            } else {
                let k = i - head.len();
                assert(all[i] == tail[k]);
                let last = prog.len() - 1;
                lemma_in_bar(last, 0);
                assert(start.0 == last * BAR);
                assert(start.0 / BAR == last);
                let iv = chord_intervals(c.quality)[k];
                let root = (octave + 1) * 12 + c.root.idx();
                assert(root + iv <= 127);
                assert(tail[k].pitch.note == root + iv);
                assert((root + iv) % 12 == (c.root.idx() + iv) % 12) by {
                    vstd::arithmetic::div_mod::lemma_mod_multiples_vanish(octave + 1, c.root.idx() + iv, 12);
                }
                let cc = chord_classes(c);
                assert(cc[k] == (c.root.idx() + iv) % 12);
                assert(prog[last] == c);
                assert(cc.contains(cc[k]));
            }
        }
    }
}

/// Renders a progression as sustained block chords, one bar each.
pub fn chords_to_pattern(progression: &[Chord], octave: i8, velocity: u8) -> (p: Pattern)
    requires
        progression@.len() * BAR <= i64::MAX,
    ensures
        p.wf(),
        is_stable_sort_of(
            p@.notes,
            block_chord_notes(progression@, octave, Velocity::of(clamp_int(velocity as int, 1, 127))),
        ),
        p@.length.0 == progression@.len() * BAR,
{
    let vel = Velocity::clamped(velocity as i32);
    let ghost total = progression@.len() * BAR;
    let mut notes: Vec<Note> = Vec::new();
    let mut bar: usize = 0;
    while bar < progression.len()
        invariant
            progression@.len() * BAR <= i64::MAX,
            total == progression@.len() * BAR,
            bar <= progression@.len(),
            vel == Velocity::of(clamp_int(velocity as int, 1, 127)),
            notes@ == block_chord_notes(progression@.subrange(0, bar as int), octave, vel),
            forall|i: int| 0 <= i < notes@.len() ==> #[trigger] note_valid(notes@[i]) && note_end(notes@[i]) <= bar * BAR,
        decreases progression.len() - bar,
    {
        let chord = progression[bar];
        let start = Tick(bar_start(bar, progression.len()));
        let pitches = chord.pitches(octave);
        proof {
            lemma_bars(bar as int, bar + 1);
            lemma_bars(bar + 1, progression@.len() as int);
        }
        let ghost base = notes@;
        let mut k: usize = 0;
        while k < pitches.len()
            invariant
                bar < progression@.len(),
                progression@.len() * BAR <= i64::MAX,
                start.0 == bar * BAR,
                chord == progression@[bar as int],
                pitches@.len() == chord_intervals(chord.quality).len(),
                forall|j: int|
                    0 <= j < pitches@.len() ==> (#[trigger] pitches@[j]).note == clamp_int(
                        clamp_int((octave + 1) * 12 + chord.root.idx(), 0, 127) + chord_intervals(chord.quality)[j],
                        0,
                        127,
                    ) && pitches@[j].cents == 0,
                k <= pitches@.len(),
                0 <= bar * BAR,
                (bar + 1) * BAR == bar * BAR + BAR,
                (bar + 1) * BAR <= i64::MAX,
                notes@ == base + Seq::new(
                    k as nat,
                    |j: int| Note { pitch: chord_tone(chord, octave, j), velocity: vel, start, duration: Tick(BAR) },
                ),
                forall|i: int| 0 <= i < base.len() ==> #[trigger] note_valid(base[i]) && note_end(base[i]) <= bar * BAR,
                forall|i: int| 0 <= i < notes@.len() ==> #[trigger] note_valid(notes@[i]) && note_end(notes@[i]) <= (bar + 1) * BAR,
            decreases pitches.len() - k,
        {
            let n = Note { pitch: pitches[k], velocity: vel, start, duration: Tick(BAR) };
            proof {
                assert(n.pitch == chord_tone(chord, octave, k as int));
            }
            notes.push(n);
            proof {
                assert(notes@ =~= base + Seq::new(
                    (k + 1) as nat,
                    |j: int| Note { pitch: chord_tone(chord, octave, j), velocity: vel, start, duration: Tick(BAR) },
                ));
            }
            k += 1;
        }
        proof {
            let pre = progression@.subrange(0, bar + 1);
            assert(pre.drop_last() =~= progression@.subrange(0, bar as int));
            assert(pre.last() == chord);
            assert(notes@ =~= block_chord_notes(pre, octave, vel));
        }
        bar += 1;
    }
    proof {
        assert(progression@.subrange(0, progression@.len() as int) =~= progression@);
    }
    let length = bar_start(progression.len(), progression.len());
    proof {
        assert(bar == progression@.len());
        assert(bar * BAR == length);
        assert forall|i: int| 0 <= i < notes@.len() implies #[trigger] note_valid(notes@[i]) && note_end(notes@[i]) <= length by {
            assert(note_valid(notes@[i]));
            assert(note_end(notes@[i]) <= bar * BAR);
        }
    }
    finish(notes, length)
}

// ---------------------------------------------------------------- bass

/// Bass walk offsets in semitones: unison, fifth, octave up, octave down.
pub open spec fn bass_choice(i: usize) -> int {
    if i == 0 {
        0
    } else if i == 1 {
        7
    } else if i == 2 {
        12
    } else {
        -12
    }
}

/// A bass note `offset` semitones from `root`, kept within MIDI 24–60.
pub open spec fn bass_note(root: int, offset: int, start: int, dur: int) -> Note {
    Note {
        pitch: Pitch { note: clamp_int(root + offset, 24, 60) as u8, cents: 0 },
        velocity: Velocity::of(96),
        start: Tick(start as i64),
        duration: Tick(dur as i64),
    }
}

/// The bass root of a chord (its root in octave 2).
pub open spec fn bass_root(c: Chord) -> int {
    clamp_int(36 + c.root.idx(), 0, 127)
}

/// The notes of one bar of bassline on `root` starting at tick `s`, with the
/// generator in state `rng`, and the generator state after it: the root on
/// beat 1 for two beats, sometimes (35%) a walk note on beat 2, always one
/// on beat 3 for two beats, sometimes (45%) one on beat 4; walk notes are the
/// root, fifth, or octave above or below.
pub open spec fn bass_bar(root: int, s: int, rng: u64) -> (Seq<Note>, u64) {
    let (r1, pass) = chance_draw(rng, 35);
    let (r2, i2) = if pass {
        index_draw(r1, 4)
    } else {
        (r1, 0usize)
    };
    let (r3, i3) = index_draw(r2, 4);
    let (r4, fill) = chance_draw(r3, 45);
    let (r5, i5) = if fill {
        index_draw(r4, 4)
    } else {
        (r4, 0usize)
    };
    let second = if pass {
        seq![bass_note(root, bass_choice(i2), s + PPQ, PPQ as int)]
    } else {
        Seq::empty()
    };
    let fourth = if fill {
        seq![bass_note(root, bass_choice(i5), s + PPQ * 3, PPQ as int)]
    } else {
        Seq::empty()
    };
    (
        seq![bass_note(root, 0, s, PPQ * 2)] + second + seq![bass_note(root, bass_choice(i3), s + PPQ * 2, PPQ * 2)]
            + fourth,
        r5,
    )
}

/// The bassline of bars `bar..` of a progression with the generator in
/// state `rng`.
pub open spec fn bass_line(prog: Seq<Chord>, bar: int, rng: u64) -> Seq<Note>
    decreases prog.len() - bar,
{
    if bar < 0 || bar >= prog.len() {
        Seq::empty()
    } else {
        let (notes, next) = bass_bar(bass_root(prog[bar]), bar * BAR, rng);
        notes + bass_line(prog, bar + 1, next)
    }
}

fn push_bass(notes: &mut Vec<Note>, root: Pitch, offset: i16, start: i64, dur: i64)
    requires
        root.note <= 127,
        -12 <= offset <= 12,
    ensures
        final(notes)@ == old(notes)@.push(
            Note {
                pitch: Pitch { note: clamp_int(root.note + offset, 24, 60) as u8, cents: 0 },
                velocity: Velocity::of(96),
                start: Tick(start),
                duration: Tick(dur),
            },
        ),
{
    let raw: i16 = root.note as i16 + offset;
    let note: i16 = if raw < 24 {
        24
    } else if raw > 60 {
        60
    } else {
        raw
    };
    notes.push(Note { pitch: Pitch::new(note as u8), velocity: Velocity::clamped(96), start: Tick(start), duration: Tick(dur) });
}

fn bass_offset(i: usize) -> (r: i16)
    ensures
        r == bass_choice(i),
{
    if i == 0 {
        0
    } else if i == 1 {
        7
    } else if i == 2 {
        12
    } else {
        -12
    }
}

/// Appends one bar of bassline on `root` at `start` to `notes`.
fn push_bass_bar(notes: &mut Vec<Note>, rng: &mut SplitMix64, root: Pitch, start: i64)
    requires
        root.note <= 127,
        0 <= start,
        start + BAR <= i64::MAX,
    ensures
        final(notes)@ == old(notes)@ + bass_bar(root.note as int, start as int, old(rng).state()).0,
        final(rng).state() == bass_bar(root.note as int, start as int, old(rng).state()).1,
{
    let ghost r0 = rng.state();
    let ghost base = notes@;
    let ghost spec_bar = bass_bar(root.note as int, start as int, r0);
    push_bass(notes, root, 0, start, PPQ * 2);
    let ghost after1 = notes@;
    if rng.chance(35) {
        let i = rng.index(4);
        push_bass(notes, root, bass_offset(i), start + PPQ, PPQ);
    }
    let ghost after2 = notes@;
    let i = rng.index(4);
    push_bass(notes, root, bass_offset(i), start + PPQ * 2, PPQ * 2);
    let ghost after3 = notes@;
    if rng.chance(45) {
        let i = rng.index(4);
        push_bass(notes, root, bass_offset(i), start + PPQ * 3, PPQ);
    }
    proof {
        assert(after1 == base.push(bass_note(root.note as int, 0, start as int, PPQ * 2)));
        assert(notes@ =~= base + spec_bar.0);
    }
}

/// Generates a bassline following the progression: root on beat 1, then a
/// seeded walk over root, fifth and octave on beat 3 (always) and on beats 2
/// and 4 (sometimes).
#[verifier::spinoff_prover]
#[verifier::rlimit(40)]
pub fn generate_bass(progression: &[Chord], seed: Seed) -> (p: Pattern)
    requires
        progression@.len() * BAR <= i64::MAX,
    ensures
        p.wf(),
        is_stable_sort_of(p@.notes, bass_line(progression@, 0, seed.0)),
        p@.length.0 == progression@.len() * BAR,
        forall|b: int| 0 <= b < progression@.len() ==> #[trigger] has_downbeat(p@.notes, b),
        forall|i: int|
            0 <= i < p@.notes.len() && (#[trigger] p@.notes[i]).start.0 as int % (BAR as int) == 0
                ==> p@.notes[i].pitch.note % 12 == progression@[p@.notes[i].start.0 as int / (BAR as int)].root.idx(),
{
    let mut rng = SplitMix64::new(seed);
    let mut notes: Vec<Note> = Vec::new();
    let mut bar: usize = 0;
    let ghost all = bass_line(progression@, 0, seed.0);
    assert(all =~= notes@ + bass_line(progression@, 0, rng.state()));
    while bar < progression.len()
        invariant
            progression@.len() * BAR <= i64::MAX,
            bar <= progression@.len(),
            all == bass_line(progression@, 0, seed.0),
            all == notes@ + bass_line(progression@, bar as int, rng.state()),
            forall|i: int| 0 <= i < notes@.len() ==> #[trigger] note_valid(notes@[i]) && note_end(notes@[i]) <= bar * BAR,
        decreases progression.len() - bar,
    {
        let chord = progression[bar];
        let start = bar_start(bar, progression.len());
        let root = chord.root.in_octave(2);
        let ghost base = notes@;
        let ghost r0 = rng.state();
        proof {
            chord.root.lemma_idx();
            lemma_bars(bar as int, bar + 1);
            lemma_bars(bar + 1, progression@.len() as int);
            assert(root.note == bass_root(chord));
        }
        push_bass_bar(&mut notes, &mut rng, root, start);
        proof {
            let step = bass_bar(root.note as int, start as int, r0);
            assert(bass_line(progression@, bar as int, r0) == step.0 + bass_line(progression@, bar + 1, rng.state()));
            assert(all =~= notes@ + bass_line(progression@, bar + 1, rng.state()));
            assert forall|i: int| 0 <= i < notes@.len() implies #[trigger] note_valid(notes@[i]) && note_end(notes@[i]) <= (bar + 1) * BAR by {
                if i < base.len() {
                    assert(notes@[i] == base[i]);
                } else {
                    assert(notes@[i] == step.0[i - base.len()]);
                }
            }
        }
        bar += 1;
    }
    proof {
        assert(bass_line(progression@, bar as int, rng.state()) =~= Seq::<Note>::empty());
        assert(notes@ =~= all);
    }
    let length = bar_start(progression.len(), progression.len());
    proof {
        assert(bar == progression@.len());
        assert(bar * BAR == length);
        assert forall|i: int| 0 <= i < notes@.len() implies #[trigger] note_valid(notes@[i]) && note_end(notes@[i]) <= length by {
            assert(note_valid(notes@[i]));
            assert(note_end(notes@[i]) <= bar * BAR);
        }
    }
    let p = finish(notes, length);
    proof {
        let line = bass_line(progression@, 0, seed.0);
        let out = p@.notes;
        law_bass_roots_on_downbeats(progression@, seed.0);
        lemma_stable_sort_contains(out, line);
        assert forall|b: int| 0 <= b < progression@.len() implies #[trigger] has_downbeat(out, b) by {
            assert(has_downbeat(line, b));
            let i = choose|i: int| 0 <= i < line.len() && (#[trigger] line[i]).start.0 == b * BAR;
            assert(line.contains(line[i]));
            assert(out.contains(line[i]));
        }
        assert forall|i: int|
            0 <= i < out.len() && (#[trigger] out[i]).start.0 as int % (BAR as int) == 0 implies out[i].pitch.note % 12
                == progression@[out[i].start.0 as int / (BAR as int)].root.idx() by {
            assert(out.contains(out[i]));
            let j = choose|j: int| 0 <= j < line.len() && line[j] == out[i];
            assert(line[j].start.0 as int % (BAR as int) == 0);
        }
    }
    p
}


/// Some note of `notes` starts on the downbeat of bar `b`.
pub open spec fn has_downbeat(notes: Seq<Note>, b: int) -> bool {
    exists|i: int| 0 <= i < notes.len() && (#[trigger] notes[i]).start.0 == b * BAR
}

/// Tick `b * BAR + k` with `0 <= k < BAR` lies in bar `b`.
proof fn lemma_in_bar(b: int, k: int)
    requires
        0 <= k < BAR,
    ensures
        (b * BAR + k) / (BAR as int) == b,
        (b * BAR + k) % (BAR as int) == k,
{
    assert((b * 3840 + k) / 3840 == b && (b * 3840 + k) % 3840 == k) by (nonlinear_arith)
        requires
            0 <= k < 3840,
    ;
}

#[verifier::spinoff_prover]
proof fn lemma_bass_line(prog: Seq<Chord>, bar: int, rng: u64)
    requires
        0 <= bar <= prog.len(),
        prog.len() * BAR <= i64::MAX,
    ensures
        forall|i: int|
            0 <= i < bass_line(prog, bar, rng).len() ==> bar * BAR <= (#[trigger] bass_line(prog, bar, rng)[i]).start.0
                < prog.len() * BAR,
        forall|i: int|
            0 <= i < bass_line(prog, bar, rng).len() && (#[trigger] bass_line(prog, bar, rng)[i]).start.0 as int % (BAR as int) == 0
                ==> bass_line(prog, bar, rng)[i].pitch.note % 12 == prog[bass_line(prog, bar, rng)[i].start.0 as int
                / (BAR as int)].root.idx(),
        forall|b: int| bar <= b < prog.len() ==> #[trigger] has_downbeat(bass_line(prog, bar, rng), b),
    decreases prog.len() - bar,
{
    lemma_bars(bar, prog.len() as int);
    if bar < prog.len() {
        let c = prog[bar];
        c.root.lemma_idx();
        let root = bass_root(c);
        let s = bar * BAR;
        lemma_bars(bar, bar + 1);
        lemma_bars(bar + 1, prog.len() as int);
        let (notes, next) = bass_bar(root, s, rng);
        let line = bass_line(prog, bar, rng);
        let rest = bass_line(prog, bar + 1, next);
        lemma_bass_line(prog, bar + 1, next);
        assert(line == notes + rest);
        assert(notes[0] == bass_note(root, 0, s, PPQ * 2));
        assert forall|i: int| 0 <= i < notes.len() implies s <= (#[trigger] notes[i]).start.0 < s + BAR && (
        notes[i].start.0 as int % (BAR as int) == 0 ==> i == 0) by {
            lemma_in_bar(bar, 0);
            lemma_in_bar(bar, PPQ as int);
            lemma_in_bar(bar, PPQ * 2);
            lemma_in_bar(bar, PPQ * 3);
        }
        assert forall|i: int| 0 <= i < line.len() implies bar * BAR <= (#[trigger] line[i]).start.0 < prog.len() * BAR by {
            if i >= notes.len() {
                assert(line[i] == rest[i - notes.len()]);
            }
        }
        assert forall|i: int| 0 <= i < line.len() && (#[trigger] line[i]).start.0 as int % (BAR as int) == 0 implies line[i].pitch.note % 12
            == prog[line[i].start.0 as int / (BAR as int)].root.idx() by {
            if i >= notes.len() {
                assert(line[i] == rest[i - notes.len()]);
            } else {
                assert(i == 0);
                lemma_in_bar(bar, 0);
                assert(line[0].pitch.note == root);
            }
        }
        assert forall|b: int| bar <= b < prog.len() implies #[trigger] has_downbeat(line, b) by {
            if b == bar {
                assert(line[0].start.0 == b * BAR);
            } else {
                assert(has_downbeat(rest, b));
                let j = choose|j: int| 0 <= j < rest.len() && (#[trigger] rest[j]).start.0 == b * BAR;
                assert(line[j + notes.len()] == rest[j]);
            }
        }
    }
}

/// Every bar of a generated bassline has a note on its downbeat, and every
/// downbeat note is the root of that bar's chord.
pub proof fn law_bass_roots_on_downbeats(prog: Seq<Chord>, seed: u64)
    requires
        prog.len() * BAR <= i64::MAX,
    ensures
        forall|b: int| 0 <= b < prog.len() ==> #[trigger] has_downbeat(bass_line(prog, 0, seed), b),
        forall|i: int|
            0 <= i < bass_line(prog, 0, seed).len() && (#[trigger] bass_line(prog, 0, seed)[i]).start.0 as int % (BAR as int) == 0
                ==> bass_line(prog, 0, seed)[i].pitch.note % 12 == prog[bass_line(prog, 0, seed)[i].start.0 as int
                / (BAR as int)].root.idx(),
{
    lemma_bass_line(prog, 0, seed);
}

/// A bass note of `bass_note(root, bass_choice(i), ..)` on a chord root in
/// octave 2: unclamped, in 24–59, and the root or the fifth.
proof fn lemma_bass_note_class(c: Chord, i: usize, start: int, dur: int)
    ensures
        ({
            let n = bass_note(bass_root(c), bass_choice(i), start, dur);
            &&& 24 <= n.pitch.note <= 59
            &&& (n.pitch.note as int % 12 == c.root.idx() || n.pitch.note as int % 12 == (c.root.idx() + 7) % 12)
        }),
{
    c.root.lemma_idx();
    let x = c.root.idx();
    let off = bass_choice(i);
    assert(off == 0 || off == 7 || off == 12 || off == -12);
    let p = 36 + x + off;
    assert(24 <= p <= 59);
    assert(p % 12 == (x + off + 36) % 12);
    vstd::arithmetic::div_mod::lemma_mod_multiples_vanish(3, x + off, 12);
    if off == 12 {
        vstd::arithmetic::div_mod::lemma_mod_multiples_vanish(4, x, 12);
    } else if off == -12 {
        vstd::arithmetic::div_mod::lemma_mod_multiples_vanish(2, x, 12);
    } else if off == 0 {
        vstd::arithmetic::div_mod::lemma_mod_multiples_vanish(3, x, 12);
    }
    vstd::arithmetic::div_mod::lemma_small_mod(x as nat, 12);
}

proof fn lemma_bass_line_classes(prog: Seq<Chord>, bar: int, rng: u64)
    requires
        0 <= bar <= prog.len(),
        prog.len() * BAR <= i64::MAX,
    ensures
        forall|i: int|
            0 <= i < bass_line(prog, bar, rng).len() ==> {
                let n = #[trigger] bass_line(prog, bar, rng)[i];
                let c = prog[n.start.0 as int / (BAR as int)];
                &&& bar * BAR <= n.start.0 < prog.len() * BAR
                &&& 24 <= n.pitch.note <= 59
                &&& (n.pitch.note as int % 12 == c.root.idx() || n.pitch.note as int % 12 == (c.root.idx() + 7) % 12)
            },
    decreases prog.len() - bar,
{
    lemma_bars(bar, prog.len() as int);
    if bar < prog.len() {
        let c = prog[bar];
        let root = bass_root(c);
        let s = bar * BAR;
        lemma_bars(bar, bar + 1);
        lemma_bars(bar + 1, prog.len() as int);
        let (notes, next) = bass_bar(root, s, rng);
        let line = bass_line(prog, bar, rng);
        let rest = bass_line(prog, bar + 1, next);
        lemma_bass_line_classes(prog, bar + 1, next);
        assert(line == notes + rest);
        let (r1, pass) = chance_draw(rng, 35);
        let (r2, i2) = if pass {
            index_draw(r1, 4)
        } else {
            (r1, 0usize)
        };
        let (r3, i3) = index_draw(r2, 4);
        let (r4, fill) = chance_draw(r3, 45);
        let (r5, i5) = if fill {
            index_draw(r4, 4)
        } else {
            (r4, 0usize)
        };
        lemma_bass_note_class(c, 0, s, PPQ * 2);
        lemma_bass_note_class(c, i2, s + PPQ, PPQ as int);
        lemma_bass_note_class(c, i3, s + PPQ * 2, PPQ * 2);
        lemma_bass_note_class(c, i5, s + PPQ * 3, PPQ as int);
        assert(bass_choice(0) == 0);
        lemma_in_bar(bar, 0);
        lemma_in_bar(bar, PPQ as int);
        lemma_in_bar(bar, PPQ * 2);
        lemma_in_bar(bar, PPQ * 3);
        assert forall|i: int| 0 <= i < line.len() implies {
            let n = #[trigger] line[i];
            let cc = prog[n.start.0 as int / (BAR as int)];
            &&& bar * BAR <= n.start.0 < prog.len() * BAR
            &&& 24 <= n.pitch.note <= 59
            &&& (n.pitch.note as int % 12 == cc.root.idx() || n.pitch.note as int % 12 == (cc.root.idx() + 7) % 12)
        } by {
            if i >= notes.len() {
                assert(line[i] == rest[i - notes.len()]);
            } else {
                assert(line[i] == notes[i]);
            }
        }
    }
}

/// A generated bassline plays only the root or the fifth of each bar's
/// chord, between MIDI 24 and 59.
pub proof fn law_bass_plays_root_and_fifth(prog: Seq<Chord>, seed: u64)
    requires
        prog.len() * BAR <= i64::MAX,
    ensures
        forall|i: int|
            0 <= i < bass_line(prog, 0, seed).len() ==> {
                let n = #[trigger] bass_line(prog, 0, seed)[i];
                let c = prog[n.start.0 as int / (BAR as int)];
                &&& 24 <= n.pitch.note <= 59
                &&& (n.pitch.note as int % 12 == c.root.idx() || n.pitch.note as int % 12 == (c.root.idx() + 7) % 12)
            },
{
    lemma_bass_line_classes(prog, 0, seed);
}

// ---------------------------------------------------------------- melody

proof fn lemma_template_bounds(t: usize)
    ensures
        forall|i: int|
            0 <= i < melody_template(t).len() ==> 0 <= (#[trigger] melody_template(t)[i]).0 <= 7 && 1
                <= melody_template(t)[i].1 <= 4 && melody_template(t)[i].0 + melody_template(t)[i].1 <= 8,
{
    reveal(melody_template);
    let m = melody_template(t);
    assert forall|i: int| 0 <= i < m.len() implies 0 <= (#[trigger] m[i]).0 <= 7 && 1 <= m[i].1 <= 4 && m[i].0
        + m[i].1 <= 8 by {
        if t == 0 {
            assert(i == 0 || i == 1 || i == 2 || i == 3);
        } else if t == 1 {
            assert(i == 0 || i == 1 || i == 2 || i == 3);
        } else if t == 2 {
            assert(i == 0 || i == 1 || i == 2);
        } else {
            assert(i == 0 || i == 1 || i == 2 || i == 3 || i == 4 || i == 5);
        }
    }
}

/// The rhythm templates for one bar: `(start, length)` in eighth notes.
#[verifier::opaque]
pub open spec fn melody_template(i: usize) -> Seq<(i64, i64)> {
    if i == 0 {
        seq![(0i64, 2i64), (2, 2), (4, 2), (6, 2)]
    } else if i == 1 {
        seq![(0i64, 2i64), (2, 1), (3, 1), (4, 4)]
    } else if i == 2 {
        seq![(0i64, 4i64), (4, 2), (6, 2)]
    } else {
        seq![(0i64, 1i64), (1, 1), (2, 2), (4, 2), (6, 1), (7, 1)]
    }
}

/// The pitch classes of a chord, as chromatic indices.
pub open spec fn chord_classes(c: Chord) -> Seq<int> {
    chord_intervals(c.quality).map_values(|i: u8| (c.root.idx() + i) % 12)
}

/// The pitch classes of a scale, as chromatic indices.
pub open spec fn scale_classes(s: Scale) -> Seq<int> {
    scale_intervals(s.kind).map_values(|i: u8| (s.tonic.idx() + i) % 12)
}

/// The chromatic indices of a list of pitch classes.
pub open spec fn class_indices(v: Seq<PitchClass>) -> Seq<int> {
    v.map_values(|c: PitchClass| c.idx())
}

/// The pitch nearest to `pitch` whose class is in `pcs`, searching from
/// distance `d` outwards up to 6 semitones, the lower candidate first;
/// `pitch` itself when none is found.
pub open spec fn nearest_from(pitch: int, pcs: Seq<int>, d: int) -> int
    decreases 7 - d,
{
    if d < 0 || d > 6 {
        pitch
    } else if pcs.contains((pitch - d) % 12) {
        pitch - d
    } else if pcs.contains((pitch + d) % 12) {
        pitch + d
    } else {
        nearest_from(pitch, pcs, d + 1)
    }
}

/// Moves a pitch by an octave into the singable range 60–84.
pub open spec fn octave_fold(x: int) -> int {
    if x < 60 {
        x + 12
    } else if x > 84 {
        x - 12
    } else {
        x
    }
}

/// One melody note at eighth `off` (lasting `len` eighths) of the bar
/// starting at `bar_start`, from the previous pitch `current` with the
/// generator in state `rng`, and the generator state and pitch after it. The
/// note steps up to 3 semitones from the previous one (kept within 62–82),
/// snaps to the nearest chord tone on beats 1 and 3 and to the nearest scale
/// tone elsewhere, is folded into 60–84, and gets a velocity of 88 ± 12.
pub open spec fn melody_step(
    off: i64,
    len: i64,
    bar_start: int,
    chord: Seq<int>,
    scale: Seq<int>,
    rng: u64,
    current: int,
) -> (Note, u64, int) {
    let target = if off == 0 || off == 4 {
        chord
    } else {
        scale
    };
    let (r1, step) = range_draw(rng, 3);
    let pitch = octave_fold(nearest_from(clamp_int(current + step, 62, 82), target, 0));
    let (r2, dv) = range_draw(r1, 12);
    let note = Note {
        pitch: Pitch { note: pitch as u8, cents: 0 },
        velocity: Velocity::of(clamp_int(88 + dv, 1, 127)),
        start: Tick((bar_start + off * (PPQ / 2)) as i64),
        duration: Tick((len * (PPQ / 2)) as i64),
    };
    (note, r2, pitch)
}

/// The melody notes for the template `items` of one bar starting at
/// `bar_start`, and the generator state and pitch after them.
pub open spec fn melody_items(
    items: Seq<(i64, i64)>,
    bar_start: int,
    chord: Seq<int>,
    scale: Seq<int>,
    rng: u64,
    current: int,
) -> (Seq<Note>, u64, int)
    decreases items.len(),
{
    if items.len() == 0 {
        (Seq::empty(), rng, current)
    } else {
        let (note, r2, pitch) = melody_step(items[0].0, items[0].1, bar_start, chord, scale, rng, current);
        let (rest, r3, c3) = melody_items(items.drop_first(), bar_start, chord, scale, r2, pitch);
        (seq![note] + rest, r3, c3)
    }
}

/// The melody over bars `bar..` of a progression: each bar draws one of
/// four rhythm templates.
pub open spec fn melody_line(prog: Seq<Chord>, scale: Seq<int>, bar: int, rng: u64, current: int) -> Seq<Note>
    decreases prog.len() - bar,
{
    if bar < 0 || bar >= prog.len() {
        Seq::empty()
    } else {
        let (r1, t) = index_draw(rng, 4);
        let (notes, r2, c2) = melody_items(melody_template(t), bar * BAR, chord_classes(prog[bar]), scale, r1, current);
        notes + melody_line(prog, scale, bar + 1, r2, c2)
    }
}

fn melody_rhythm(i: usize) -> (r: Vec<(i64, i64)>)
    ensures
        r@ == melody_template(i),
{
    reveal(melody_template);
    if i == 0 {
        vec![(0, 2), (2, 2), (4, 2), (6, 2)]
    } else if i == 1 {
        vec![(0, 2), (2, 1), (3, 1), (4, 4)]
    } else if i == 2 {
        vec![(0, 4), (4, 2), (6, 2)]
    } else {
        vec![(0, 1), (1, 1), (2, 2), (4, 2), (6, 1), (7, 1)]
    }
}

fn has_class(pcs: &Vec<PitchClass>, pc: i16) -> (r: bool)
    requires
        0 <= pc < 12,
    ensures
        r == class_indices(pcs@).contains(pc as int),
{
    let mut i: usize = 0;
    while i < pcs.len()
        invariant
            i <= pcs@.len(),
            0 <= pc < 12,
            forall|j: int| 0 <= j < i ==> (#[trigger] pcs@[j]).idx() != pc,
        decreases pcs.len() - i,
    {
        if pcs[i].index() as i16 == pc {
            proof {
                assert(class_indices(pcs@)[i as int] == pc);
            }
            return true;
        }
        i += 1;
    }
    proof {
        if class_indices(pcs@).contains(pc as int) {
            let j = choose|j: int| 0 <= j < class_indices(pcs@).len() && class_indices(pcs@)[j] == pc;
            assert(pcs@[j].idx() == pc);
        }
    }
    false
}

/// Snaps a pitch to the nearest pitch whose class is in `pcs`.
fn nearest_in_pcs(pitch: i16, pcs: &Vec<PitchClass>) -> (r: i16)
    requires
        6 <= pitch <= 200,
    ensures
        r == nearest_from(pitch as int, class_indices(pcs@), 0),
{
    let mut d: i16 = 0;
    while d <= 6
        invariant
            6 <= pitch <= 200,
            0 <= d <= 7,
            nearest_from(pitch as int, class_indices(pcs@), 0) == nearest_from(pitch as int, class_indices(pcs@), d as int),
        decreases 7 - d,
    {
        if has_class(pcs, (pitch - d) % 12) {
            return pitch - d;
        }
        if has_class(pcs, (pitch + d) % 12) {
            return pitch + d;
        }
        d += 1;
    }
    pitch
}

proof fn lemma_nearest_range(pitch: int, pcs: Seq<int>, d: int)
    requires
        0 <= d,
    ensures
        pitch - 6 <= nearest_from(pitch, pcs, d) <= pitch + 6,
    decreases 7 - d,
{
    if d <= 6 {
        lemma_nearest_range(pitch, pcs, d + 1);
    }
}

/// When some class within distance `d..=6` of `pitch` is in `pcs`, the
/// search finds a pitch whose class is in `pcs`.
proof fn lemma_nearest_found(pitch: int, pcs: Seq<int>, d: int, e: int)
    requires
        0 <= d <= e <= 6,
        pcs.contains((pitch - e) % 12) || pcs.contains((pitch + e) % 12),
    ensures
        pcs.contains(nearest_from(pitch, pcs, d) % 12),
    decreases e - d,
{
    if !pcs.contains((pitch - d) % 12) && !pcs.contains((pitch + d) % 12) {
        lemma_nearest_found(pitch, pcs, d + 1, e);
    }
}

/// Every pitch class lies within 6 semitones of any pitch.
proof fn lemma_class_within_six(pitch: int, c: int) -> (e: int)
    requires
        0 <= c < 12,
    ensures
        0 <= e <= 6,
        (pitch - e) % 12 == c || (pitch + e) % 12 == c,
{
    let k = (c - pitch) % 12;
    assert(0 <= k < 12 && (pitch + k) % 12 == c && (k >= 6 ==> (pitch - (12 - k)) % 12 == c)) by (nonlinear_arith)
        requires
            0 <= c < 12,
            k == (c - pitch) % 12,
    {
        assert((pitch + k) % 12 == ((pitch % 12) + k) % 12);
    }
    if k <= 6 {
        k
    } else {
        12 - k
    }
}

/// A pitch folded by an octave keeps its class.
proof fn lemma_fold_class(x: int)
    ensures
        octave_fold(x) % 12 == x % 12,
{
    assert((x + 12) % 12 == x % 12 && (x - 12) % 12 == x % 12) by (nonlinear_arith);
}

/// The next melody note; see [`melody_step`].
fn next_melody_note(
    rng: &mut SplitMix64,
    current: i16,
    off: i64,
    len: i64,
    start_of_bar: i64,
    chord_pcs: &Vec<PitchClass>,
    scale_pcs: &Vec<PitchClass>,
) -> (r: (Note, i16))
    requires
        60 <= current <= 84,
        0 <= off <= 7,
        1 <= len <= 4,
        off + len <= 8,
        0 <= start_of_bar,
        start_of_bar + BAR <= i64::MAX,
    ensures
        (r.0, final(rng).state(), r.1 as int) == melody_step(
            off,
            len,
            start_of_bar as int,
            class_indices(chord_pcs@),
            class_indices(scale_pcs@),
            old(rng).state(),
            current as int,
        ),
        60 <= r.1 <= 84,
        note_valid(r.0),
        note_end(r.0) <= start_of_bar + BAR,
{
    proof {
        assert(PPQ / 2 == 480);
        assert(0 <= off * 480 <= 3360 && 480 <= len * 480 <= 1920 && off * 480 + len * 480 <= 3840) by (nonlinear_arith)
            requires
                0 <= off <= 7,
                1 <= len <= 4,
                off + len <= 8,
        ;
    }
    let strong = off == 0 || off == 4;
    let step = rng.in_range(3);
    let moved: i16 = current + step as i16;
    let cand: i16 = if moved < 62 {
        62
    } else if moved > 82 {
        82
    } else {
        moved
    };
    let near = if strong {
        nearest_in_pcs(cand, chord_pcs)
    } else {
        nearest_in_pcs(cand, scale_pcs)
    };
    proof {
        lemma_nearest_range(cand as int, if strong { class_indices(chord_pcs@) } else { class_indices(scale_pcs@) }, 0);
    }
    let mut folded: i16 = near;
    while folded < 60
        invariant
            56 <= near <= 88,
            folded == near || (near < 60 && folded == near + 12),
        decreases 72 - folded,
    {
        folded += 12;
    }
    while folded > 84
        invariant
            56 <= near <= 88,
            folded == near || (near < 60 && folded == near + 12) || (near > 84 && folded == near - 12),
            folded >= 60,
        decreases folded,
    {
        folded -= 12;
    }
    let dv = rng.in_range(12);
    let vel = Velocity::clamped(88 + dv as i32);
    let n = Note {
        pitch: Pitch::new(folded as u8),
        velocity: vel,
        start: Tick(start_of_bar + off * (PPQ / 2)),
        duration: Tick(len * (PPQ / 2)),
    };
    (n, folded)
}

/// The pitch classes of a chord, root first.
fn chord_class_list(chord: Chord) -> (r: Vec<PitchClass>)
    ensures
        class_indices(r@) == chord_classes(chord),
{
    let iv = chord.quality.intervals();
    let mut chord_pcs: Vec<PitchClass> = Vec::new();
    let mut k: usize = 0;
    while k < iv.len()
        invariant
            k <= iv@.len(),
            iv@ == chord_intervals(chord.quality),
            chord_pcs@.len() == k,
            forall|j: int| 0 <= j < k ==> (#[trigger] chord_pcs@[j]).idx() == (chord.root.idx() + iv@[j]) % 12,
        decreases iv.len() - k,
    {
        assert(iv@[k as int] < 12);
        chord_pcs.push(chord.root.transposed(iv[k] as i8));
        k += 1;
    }
    assert(class_indices(chord_pcs@) =~= chord_classes(chord));
    chord_pcs
}

/// Appends the notes of a rhythm template for one bar.
fn push_template_notes(
    notes: &mut Vec<Note>,
    rng: &mut SplitMix64,
    current: i16,
    start_of_bar: i64,
    template: &Vec<(i64, i64)>,
    chord_pcs: &Vec<PitchClass>,
    scale_pcs: &Vec<PitchClass>,
) -> (r: i16)
    requires
        60 <= current <= 84,
        0 <= start_of_bar,
        start_of_bar + BAR <= i64::MAX,
        forall|i: int| 0 <= i < template@.len() ==> 0 <= (#[trigger] template@[i]).0 <= 7 && 1 <= template@[i].1 <= 4
            && template@[i].0 + template@[i].1 <= 8,
    ensures
        ({
            let m = melody_items(template@, start_of_bar as int, class_indices(chord_pcs@), class_indices(scale_pcs@), old(rng).state(), current as int);
            final(notes)@ == old(notes)@ + m.0 && final(rng).state() == m.1 && r as int == m.2
        }),
        60 <= r <= 84,
        forall|i: int| old(notes)@.len() <= i < final(notes)@.len() ==> #[trigger] note_valid(final(notes)@[i]) && note_end(final(notes)@[i]) <= start_of_bar + BAR,
{
    let ghost base = notes@;
    let ghost cc = class_indices(chord_pcs@);
    let ghost sc = class_indices(scale_pcs@);
    let ghost items_all = template@;
    let ghost bar_spec = melody_items(items_all, start_of_bar as int, cc, sc, rng.state(), current as int);
    let mut cur = current;
    let mut j: usize = 0;
    assert(items_all.subrange(0, items_all.len() as int) =~= items_all);
    assert(notes@.subrange(base.len() as int, notes@.len() as int) =~= Seq::<Note>::empty());
    while j < template.len()
        invariant
            template@ == items_all,
            j <= template@.len(),
            0 <= start_of_bar,
            start_of_bar + BAR <= i64::MAX,
            class_indices(chord_pcs@) == cc,
            class_indices(scale_pcs@) == sc,
            60 <= cur <= 84,
            forall|i: int| 0 <= i < items_all.len() ==> 0 <= (#[trigger] items_all[i]).0 <= 7 && 1 <= items_all[i].1 <= 4
                && items_all[i].0 + items_all[i].1 <= 8,
            notes@.len() >= base.len(),
            notes@.subrange(0, base.len() as int) == base,
            ({
                let m = melody_items(items_all.subrange(j as int, items_all.len() as int), start_of_bar as int, cc, sc, rng.state(), cur as int);
                bar_spec.0 == notes@.subrange(base.len() as int, notes@.len() as int) + m.0 && bar_spec.1 == m.1 && bar_spec.2 == m.2
            }),
            forall|i: int| base.len() <= i < notes@.len() ==> #[trigger] note_valid(notes@[i]) && note_end(notes@[i]) <= start_of_bar + BAR,
        decreases template.len() - j,
    {
        let (off, len) = template[j];
        let ghost rest = items_all.subrange(j as int, items_all.len() as int);
        let ghost st = rng.state();
        let ghost c0 = cur as int;
        let ghost before = notes@;
        proof {
            assert(rest[0] == (off, len));
            assert(rest.drop_first() =~= items_all.subrange(j + 1, items_all.len() as int));
            assert(items_all[j as int] == (off, len));
        }
        let (n, next) = next_melody_note(rng, cur, off, len, start_of_bar, chord_pcs, scale_pcs);
        cur = next;
        notes.push(n);
        proof {
            let m = melody_items(rest, start_of_bar as int, cc, sc, st, c0);
            let m2 = melody_items(rest.drop_first(), start_of_bar as int, cc, sc, rng.state(), cur as int);
            assert(m.0 == seq![n] + m2.0);
            assert(notes@.subrange(0, base.len() as int) =~= base);
            assert(notes@.subrange(base.len() as int, notes@.len() as int) =~= before.subrange(
                base.len() as int,
                before.len() as int,
            ).push(n));
            assert forall|i: int| base.len() <= i < notes@.len() implies #[trigger] note_valid(notes@[i]) && note_end(notes@[i]) <= start_of_bar + BAR by {
                if i < before.len() {
                    assert(notes@[i] == before[i]);
                }
            }
        }
        j += 1;
    }
    proof {
        assert(items_all.subrange(j as int, items_all.len() as int) =~= Seq::<(i64, i64)>::empty());
        assert(notes@.subrange(base.len() as int, notes@.len() as int) =~= bar_spec.0);
        assert(notes@ =~= base + bar_spec.0);
    }
    cur
}

/// Appends the melody of one bar (a drawn rhythm template over `chord`).
fn push_melody_bar(
    notes: &mut Vec<Note>,
    rng: &mut SplitMix64,
    current: i16,
    start_of_bar: i64,
    chord: Chord,
    scale_pcs: &Vec<PitchClass>,
) -> (r: i16)
    requires
        60 <= current <= 84,
        0 <= start_of_bar,
        start_of_bar + BAR <= i64::MAX,
    ensures
        ({
            let (r1, t) = index_draw(old(rng).state(), 4);
            let m = melody_items(melody_template(t), start_of_bar as int, chord_classes(chord), class_indices(scale_pcs@), r1, current as int);
            final(notes)@ == old(notes)@ + m.0 && final(rng).state() == m.1 && r as int == m.2
        }),
        60 <= r <= 84,
        forall|i: int| old(notes)@.len() <= i < final(notes)@.len() ==> #[trigger] note_valid(final(notes)@[i]) && note_end(final(notes)@[i]) <= start_of_bar + BAR,
{
    let t = rng.index(4);
    let template = melody_rhythm(t);
    let chord_pcs = chord_class_list(chord);
    proof {
        lemma_template_bounds(t);
    }
    push_template_notes(notes, rng, current, start_of_bar, &template, &chord_pcs, scale_pcs)
}

/// Generates a melody over the progression: chord tones on beats 1 and 3,
/// scale tones between, kept within 60–84, on one of four seeded rhythm
/// templates per bar.
#[verifier::spinoff_prover]
#[verifier::rlimit(60)]
pub fn generate_melody(progression: &[Chord], scale: Scale, seed: Seed) -> (p: Pattern)
    requires
        progression@.len() * BAR <= i64::MAX,
    ensures
        p.wf(),
        is_stable_sort_of(p@.notes, melody_line(progression@, scale_classes(scale), 0, seed.0, 72)),
        p@.length.0 == progression@.len() * BAR,
        forall|i: int|
            0 <= i < p@.notes.len() ==> {
                let n = #[trigger] p@.notes[i];
                &&& 60 <= n.pitch.note <= 84
                &&& is_strong_beat(n.start.0 as int) ==> chord_classes(
                    progression@[n.start.0 as int / (BAR as int)],
                ).contains(n.pitch.note as int % 12)
            },
{
    let mut rng = SplitMix64::new(seed);
    let scale_pcs = scale.pitch_classes();
    proof {
        assert(class_indices(scale_pcs@) =~= scale_classes(scale));
    }
    let mut notes: Vec<Note> = Vec::new();
    let mut current: i16 = 72;
    let ghost sc = scale_classes(scale);
    let ghost all = melody_line(progression@, sc, 0, seed.0, 72);
    assert(all =~= notes@ + melody_line(progression@, sc, 0, rng.state(), current as int));
    let mut bar: usize = 0;
    while bar < progression.len()
        invariant
            progression@.len() * BAR <= i64::MAX,
            bar <= progression@.len(),
            sc == scale_classes(scale),
            class_indices(scale_pcs@) == sc,
            60 <= current <= 84,
            all == melody_line(progression@, sc, 0, seed.0, 72),
            all == notes@ + melody_line(progression@, sc, bar as int, rng.state(), current as int),
            forall|i: int| 0 <= i < notes@.len() ==> #[trigger] note_valid(notes@[i]) && note_end(notes@[i]) <= bar * BAR,
        decreases progression.len() - bar,
    {
        let chord = progression[bar];
        let start_of_bar = bar_start(bar, progression.len());
        let ghost r0 = rng.state();
        let ghost c0 = current as int;
        let ghost base = notes@;
        proof {
            lemma_bars(bar as int, bar + 1);
            lemma_bars(bar + 1, progression@.len() as int);
        }
        current = push_melody_bar(&mut notes, &mut rng, current, start_of_bar, chord, &scale_pcs);
        proof {
            let (r1, t) = index_draw(r0, 4);
            let m = melody_items(melody_template(t), bar * BAR, chord_classes(chord), sc, r1, c0);
            assert(melody_line(progression@, sc, bar as int, r0, c0) == m.0 + melody_line(progression@, sc, bar + 1, rng.state(), current as int));
            assert(all =~= notes@ + melody_line(progression@, sc, bar + 1, rng.state(), current as int));
            assert forall|i: int| 0 <= i < notes@.len() implies #[trigger] note_valid(notes@[i]) && note_end(notes@[i]) <= (bar + 1) * BAR by {
                if i < base.len() {
                    assert(notes@[i] == base[i]);
                }
            }
        }
        bar += 1;
    }
    proof {
        assert(melody_line(progression@, sc, bar as int, rng.state(), current as int) =~= Seq::<Note>::empty());
        assert(notes@ =~= all);
    }
    let length = bar_start(progression.len(), progression.len());
    proof {
        assert(bar == progression@.len());
        assert(bar * BAR == length);
        assert forall|i: int| 0 <= i < notes@.len() implies #[trigger] note_valid(notes@[i]) && note_end(notes@[i]) <= length by {
            assert(note_valid(notes@[i]));
            assert(note_end(notes@[i]) <= bar * BAR);
        }
    }
    let p = finish(notes, length);
    proof {
        let line = melody_line(progression@, scale_classes(scale), 0, seed.0, 72);
        let out = p@.notes;
        law_melody_range_and_chord_tones(progression@, scale, seed.0);
        lemma_stable_sort_contains(out, line);
        assert forall|i: int| 0 <= i < out.len() implies {
            let n = #[trigger] out[i];
            &&& 60 <= n.pitch.note <= 84
            &&& is_strong_beat(n.start.0 as int) ==> chord_classes(progression@[n.start.0 as int / (BAR as int)]).contains(
                n.pitch.note as int % 12,
            )
        } by {
            assert(out.contains(out[i]));
            let j = choose|j: int| 0 <= j < line.len() && line[j] == out[i];
            assert(line[j] == out[i]);
        }
    }
    p
}


proof fn lemma_melody_items(
    items: Seq<(i64, i64)>,
    b: int,
    chord: Seq<int>,
    scale: Seq<int>,
    rng: u64,
    current: int,
)
    requires
        0 <= b,
        (b + 1) * BAR <= i64::MAX,
        forall|i: int| 0 <= i < items.len() ==> 0 <= (#[trigger] items[i]).0 <= 7 && 1 <= items[i].1 <= 4,
        chord.len() > 0,
        0 <= chord[0] < 12,
    ensures
        forall|i: int|
            0 <= i < melody_items(items, b * BAR, chord, scale, rng, current).0.len() ==> {
                let n = #[trigger] melody_items(items, b * BAR, chord, scale, rng, current).0[i];
                &&& 60 <= n.pitch.note <= 84
                &&& b * BAR <= n.start.0 < b * BAR + BAR
                &&& (n.start.0 - b * BAR == 0 || n.start.0 - b * BAR == 2 * PPQ) ==> chord.contains(
                    n.pitch.note as int % 12,
                )
            },
    decreases items.len(),
{
    if items.len() > 0 {
        let (off, len) = items[0];
        let target = if off == 0 || off == 4 {
            chord
        } else {
            scale
        };
        let (r1, step) = range_draw(rng, 3);
        let cand = clamp_int(current + step, 62, 82);
        let near = nearest_from(cand, target, 0);
        lemma_nearest_range(cand, target, 0);
        lemma_fold_class(near);
        let (note, r2, pitch) = melody_step(off, len, b * BAR, chord, scale, rng, current);
        assert(pitch == octave_fold(near));
        assert(60 <= pitch <= 84);
        assert(PPQ / 2 == 480);
        lemma_bars(b, b + 1);
        assert(0 <= off * 480 <= 3360) by (nonlinear_arith)
            requires
                0 <= off <= 7,
        ;
        lemma_in_bar(b, off * 480);
        assert(note.start.0 == b * BAR + off * 480);
        if note.start.0 - b * BAR == 0 || note.start.0 - b * BAR == 2 * PPQ {
            assert(off * 480 == 0 || off * 480 == 1920);
            assert(off == 0 || off == 4) by (nonlinear_arith)
                requires
                    off * 480 == 0 || off * 480 == 1920,
            ;
            let e = lemma_class_within_six(cand, chord[0]);
            assert(chord.contains(chord[0]));
            lemma_nearest_found(cand, chord, 0, e);
            assert(chord.contains(near % 12));
        }
        let rest = items.drop_first();
        assert forall|i: int| 0 <= i < rest.len() implies 0 <= (#[trigger] rest[i]).0 <= 7 && 1 <= rest[i].1 <= 4 by {
            assert(rest[i] == items[i + 1]);
        }
        lemma_melody_items(rest, b, chord, scale, r2, pitch);
        let all = melody_items(items, b * BAR, chord, scale, rng, current).0;
        let tail = melody_items(rest, b * BAR, chord, scale, r2, pitch).0;
        assert(all == seq![note] + tail);
        assert forall|i: int| 1 <= i < all.len() implies #[trigger] all[i] == tail[i - 1] by {}
    }
}

proof fn lemma_melody_line(prog: Seq<Chord>, scale: Seq<int>, bar: int, rng: u64, current: int)
    requires
        0 <= bar <= prog.len(),
        prog.len() * BAR <= i64::MAX,
    ensures
        forall|i: int|
            0 <= i < melody_line(prog, scale, bar, rng, current).len() ==> {
                let n = #[trigger] melody_line(prog, scale, bar, rng, current)[i];
                &&& 60 <= n.pitch.note <= 84
                &&& bar * BAR <= n.start.0 < prog.len() * BAR
                &&& is_strong_beat(n.start.0 as int) ==> chord_classes(prog[n.start.0 as int / (BAR as int)]).contains(
                    n.pitch.note as int % 12,
                )
            },
    decreases prog.len() - bar,
{
    lemma_bars(bar, prog.len() as int);
    if bar < prog.len() {
        let c = prog[bar];
        c.root.lemma_idx();
        let (r1, t) = index_draw(rng, 4);
        let cc = chord_classes(c);
        assert(cc[0] == (c.root.idx() + chord_intervals(c.quality)[0]) % 12);
        lemma_template_bounds(t);
        lemma_bars(bar + 1, prog.len() as int);
        lemma_bars(bar, bar + 1);
        let m = melody_items(melody_template(t), bar * BAR, cc, scale, r1, current);
        lemma_melody_items(melody_template(t), bar, cc, scale, r1, current);
        lemma_melody_line(prog, scale, bar + 1, m.1, m.2);
        let line = melody_line(prog, scale, bar, rng, current);
        let rest = melody_line(prog, scale, bar + 1, m.1, m.2);
        assert(line == m.0 + rest);
        assert forall|i: int| 0 <= i < line.len() implies {
            let n = #[trigger] line[i];
            &&& 60 <= n.pitch.note <= 84
            &&& bar * BAR <= n.start.0 < prog.len() * BAR
            &&& is_strong_beat(n.start.0 as int) ==> chord_classes(prog[n.start.0 as int / (BAR as int)]).contains(
                n.pitch.note as int % 12,
            )
        } by {
            if i < m.0.len() {
                let n = m.0[i];
                assert(line[i] == n);
                if is_strong_beat(n.start.0 as int) {
                    assert(bar * BAR <= n.start.0 < bar * BAR + BAR);
                    lemma_in_bar(bar, n.start.0 - bar * BAR);
                    assert(n.start.0 - bar * BAR == 0 || n.start.0 - bar * BAR == 2 * PPQ);
                }
            } else {
                assert(line[i] == rest[i - m.0.len()]);
            }
        }
    }
}

/// A position on beat 1 or beat 3 of its (4/4) bar.
pub open spec fn is_strong_beat(t: int) -> bool {
    t % (BAR as int) == 0 || t % (BAR as int) == 2 * PPQ
}

/// Every note of a generated melody lies within 60–84, and every note on a
/// strong beat (1 or 3) is a tone of that bar's chord.
pub proof fn law_melody_range_and_chord_tones(prog: Seq<Chord>, scale: Scale, seed: u64)
    requires
        prog.len() * BAR <= i64::MAX,
    ensures
        forall|i: int|
            0 <= i < melody_line(prog, scale_classes(scale), 0, seed, 72).len() ==> {
                let n = #[trigger] melody_line(prog, scale_classes(scale), 0, seed, 72)[i];
                &&& 60 <= n.pitch.note <= 84
                &&& is_strong_beat(n.start.0 as int) ==> chord_classes(prog[n.start.0 as int / (BAR as int)]).contains(
                    n.pitch.note as int % 12,
                )
            },
{
    lemma_melody_line(prog, scale_classes(scale), 0, seed, 72);
}

// ---------------------------------------------------------------- drums

/// General MIDI kick drum key.
pub const KICK: u8 = 36;
/// General MIDI snare key.
pub const SNARE: u8 = 38;
/// General MIDI closed hi-hat key.
pub const HAT: u8 = 42;

/// A sixteenth-note drum hit.
pub open spec fn drum_hit(key: u8, start: int, vel: int) -> Note {
    Note {
        pitch: Pitch { note: key, cents: 0 },
        velocity: Velocity::of(clamp_int(vel, 1, 127)),
        start: Tick(start as i64),
        duration: Tick((PPQ / 4) as i64),
    }
}

/// The swung, velocity-jittered hats `e..8` of a lo-fi bar starting at `s`.
pub open spec fn lofi_hats(s: int, e: int, rng: u64) -> (Seq<Note>, u64)
    decreases 8 - e,
{
    if e < 0 || e >= 8 {
        (Seq::empty(), rng)
    } else {
        let (r1, dv) = range_draw(rng, 14);
        let swing: int = if e % 2 == 1 {
            PPQ / 2 / 6
        } else {
            0
        };
        let (rest, r2) = lofi_hats(s, e + 1, r1);
        (seq![drum_hit(HAT, s + e * (PPQ / 2) + swing, 48 + dv)] + rest, r2)
    }
}

/// The hits of one bar starting at `s` in a style, and the generator state
/// after it. Basic: kicks on 1 and 3, snares on 2 and 4, accented eighth
/// hats. Four on the floor: a kick on every beat with an offbeat hat, snares
/// on 2 and 4. Lo-fi: kick on 1 and sometimes (60%) on the and of 3, snares
/// on 2 and 4, swung hats with seeded velocities, and sometimes (30%) a
/// ghost snare.
#[verifier::opaque]
pub open spec fn drum_bar(style: DrumStyle, s: int, rng: u64) -> (Seq<Note>, u64) {
    let eighth: int = PPQ / 2;
    match style {
        DrumStyle::Basic => (
            seq![
                drum_hit(KICK, s, 110),
                drum_hit(KICK, s + PPQ * 2, 104),
                drum_hit(SNARE, s + PPQ, 102),
                drum_hit(SNARE, s + PPQ * 3, 102),
            ] + Seq::new(8, |e: int| drum_hit(HAT, s + e * eighth, if e % 2 == 0 { 78 } else { 62 })),
            rng,
        ),
        DrumStyle::FourOnFloor => (
            Seq::new(
                8,
                |j: int|
                    if j % 2 == 0 {
                        drum_hit(KICK, s + (j / 2) * PPQ, 112)
                    } else {
                        drum_hit(HAT, s + (j / 2) * PPQ + eighth, 84)
                    },
            ) + seq![drum_hit(SNARE, s + PPQ, 98), drum_hit(SNARE, s + PPQ * 3, 98)],
            rng,
        ),
        DrumStyle::LoFi => {
            let (r1, extra) = chance_draw(rng, 60);
            let kicks = if extra {
                seq![drum_hit(KICK, s, 100), drum_hit(KICK, s + PPQ * 2 + eighth, 88)]
            } else {
                seq![drum_hit(KICK, s, 100)]
            };
            let (hats, r2) = lofi_hats(s, 0, r1);
            let (r3, ghost) = chance_draw(r2, 30);
            let ghosts = if ghost {
                seq![drum_hit(SNARE, s + PPQ * 2 + eighth + eighth / 2, 40)]
            } else {
                Seq::empty()
            };
            (kicks + seq![drum_hit(SNARE, s + PPQ, 92), drum_hit(SNARE, s + PPQ * 3, 92)] + hats + ghosts, r3)
        },
    }
}

/// The drum hits of bars `bar..total`.
pub open spec fn drum_line(total: int, style: DrumStyle, bar: int, rng: u64) -> Seq<Note>
    decreases total - bar,
{
    if bar < 0 || bar >= total {
        Seq::empty()
    } else {
        let (notes, next) = drum_bar(style, bar * BAR, rng);
        notes + drum_line(total, style, bar + 1, next)
    }
}

fn hit(notes: &mut Vec<Note>, key: u8, start: i64, vel: i32)
    ensures
        final(notes)@ == old(notes)@.push(drum_hit(key, start as int, vel as int)),
{
    notes.push(Note { pitch: Pitch::new(key), velocity: Velocity::clamped(vel), start: Tick(start), duration: Tick(PPQ / 2 / 2) });
}

/// Appends one bar of drums at `s`.
#[verifier::rlimit(40)]
fn push_drum_bar(notes: &mut Vec<Note>, rng: &mut SplitMix64, style: DrumStyle, s: i64)
    requires
        0 <= s,
        s + BAR <= i64::MAX,
    ensures
        final(notes)@ == old(notes)@ + drum_bar(style, s as int, old(rng).state()).0,
        final(rng).state() == drum_bar(style, s as int, old(rng).state()).1,
{
    let ghost base = notes@;
    let ghost r0 = rng.state();
    let ghost spec_bar = drum_bar(style, s as int, r0);
    proof {
        reveal(drum_bar);
    }
    let eighth: i64 = PPQ / 2;
    match style {
        DrumStyle::Basic => {
            hit(notes, KICK, s, 110);
            hit(notes, KICK, s + PPQ * 2, 104);
            hit(notes, SNARE, s + PPQ, 102);
            hit(notes, SNARE, s + PPQ * 3, 102);
            let ghost head = notes@;
            let mut e: i64 = 0;
            while e < 8
                invariant
                    0 <= e <= 8,
                    0 <= s,
                    s + BAR <= i64::MAX,
                    eighth == PPQ / 2,
                    notes@ == head + Seq::new(
                        e as nat,
                        |k: int| drum_hit(HAT, s + k * eighth, if k % 2 == 0 { 78 } else { 62 }),
                    ),
                decreases 8 - e,
            {
                let vel: i32 = if e % 2 == 0 {
                    78
                } else {
                    62
                };
                proof {
                    assert(0 <= e * eighth <= 3360) by (nonlinear_arith)
                        requires
                            0 <= e < 8,
                            eighth == 480,
                    ;
                }
                hit(notes, HAT, s + e * eighth, vel);
                proof {
                    assert(notes@ =~= head + Seq::new(
                        (e + 1) as nat,
                        |k: int| drum_hit(HAT, s + k * eighth, if k % 2 == 0 { 78 } else { 62 }),
                    ));
                }
                e += 1;
            }
            proof {
                assert(notes@ =~= base + spec_bar.0);
            }
        },
        DrumStyle::FourOnFloor => {
            let mut beat: i64 = 0;
            while beat < 4
                invariant
                    0 <= beat <= 4,
                    0 <= s,
                    s + BAR <= i64::MAX,
                    eighth == PPQ / 2,
                    notes@ == base + Seq::new(
                        (2 * beat) as nat,
                        |j: int|
                            if j % 2 == 0 {
                                drum_hit(KICK, s + (j / 2) * PPQ, 112)
                            } else {
                                drum_hit(HAT, s + (j / 2) * PPQ + eighth, 84)
                            },
                    ),
                decreases 4 - beat,
            {
                hit(notes, KICK, s + beat * PPQ, 112);
                hit(notes, HAT, s + beat * PPQ + eighth, 84);
                proof {
                    let f = |j: int|
                        if j % 2 == 0 {
                            drum_hit(KICK, s + (j / 2) * PPQ, 112)
                        } else {
                            drum_hit(HAT, s + (j / 2) * PPQ + eighth, 84)
                        };
                    assert((2 * beat) / 2 == beat && (2 * beat + 1) / 2 == beat && (2 * beat) % 2 == 0 && (2 * beat
                        + 1) % 2 == 1);
                    assert(notes@ =~= base + Seq::new((2 * beat + 2) as nat, f));
                }
                beat += 1;
            }
            hit(notes, SNARE, s + PPQ, 98);
            hit(notes, SNARE, s + PPQ * 3, 98);
            proof {
                assert(notes@ =~= base + spec_bar.0);
            }
        },
        DrumStyle::LoFi => {
            hit(notes, KICK, s, 100);
            if rng.chance(60) {
                hit(notes, KICK, s + PPQ * 2 + eighth, 88);
            }
            hit(notes, SNARE, s + PPQ, 92);
            hit(notes, SNARE, s + PPQ * 3, 92);
            let ghost head = notes@;
            let ghost r1 = rng.state();
            let mut e: i64 = 0;
            proof {
                assert(head + Seq::<Note>::empty() =~= head);
                assert(lofi_hats(s as int, 0, r1) == lofi_hats(s as int, 0, r1));
            }
            while e < 8
                invariant
                    0 <= e <= 8,
                    0 <= s,
                    s + BAR <= i64::MAX,
                    eighth == PPQ / 2,
                    notes@.len() >= head.len(),
                    notes@.subrange(0, head.len() as int) == head,
                    lofi_hats(s as int, 0, r1).0 == notes@.subrange(head.len() as int, notes@.len() as int) + lofi_hats(
                        s as int,
                        e as int,
                        rng.state(),
                    ).0,
                    lofi_hats(s as int, 0, r1).1 == lofi_hats(s as int, e as int, rng.state()).1,
                decreases 8 - e,
            {
                let ghost before = notes@;
                let ghost st = rng.state();
                let swing: i64 = if e % 2 == 1 {
                    eighth / 6
                } else {
                    0
                };
                let dv = rng.in_range(14);
                let vel: i32 = 48 + dv as i32;
                proof {
                    assert(0 <= e * eighth <= 3360) by (nonlinear_arith)
                        requires
                            0 <= e < 8,
                            eighth == 480,
                    ;
                }
                hit(notes, HAT, s + e * eighth + swing, vel);
                proof {
                    let n = drum_hit(HAT, s + e * eighth + swing, 48 + dv);
                    assert(lofi_hats(s as int, e as int, st).0 == seq![n] + lofi_hats(s as int, e + 1, rng.state()).0);
                    assert(notes@.subrange(0, head.len() as int) =~= head);
                    assert(notes@.subrange(head.len() as int, notes@.len() as int) =~= before.subrange(
                        head.len() as int,
                        before.len() as int,
                    ).push(n));
                }
                e += 1;
            }
            let ghost r2 = rng.state();
            let ghost mid = notes@;
            proof {
                assert(lofi_hats(s as int, 8, r2).0 =~= Seq::<Note>::empty());
                assert(mid =~= head + lofi_hats(s as int, 0, r1).0);
            }
            if rng.chance(30) {
                hit(notes, SNARE, s + PPQ * 2 + eighth + eighth / 2, 40);
            }
            proof {
                assert(notes@ =~= base + spec_bar.0);
            }
        },
    }
}

/// Generates a drum pattern of at least one bar: the style's skeleton with
/// seeded hat-velocity motion and occasional extra hits.
#[verifier::spinoff_prover]
#[verifier::rlimit(40)]
pub fn generate_drums(bars: usize, style: DrumStyle, seed: Seed) -> (p: Pattern)
    requires
        (if bars == 0 {
            1
        } else {
            bars as int
        }) * BAR <= i64::MAX,
    ensures
        p.wf(),
        is_stable_sort_of(
            p@.notes,
            drum_line(
                if bars == 0 {
                    1
                } else {
                    bars as int
                },
                style,
                0,
                seed.0,
            ),
        ),
        p@.length.0 == (if bars == 0 {
            1
        } else {
            bars as int
        }) * BAR,
        forall|b: int|
            0 <= b < (if bars == 0 {
                1
            } else {
                bars as int
            }) ==> #[trigger] has_backbeat(p@.notes, b),
        forall|i: int| 0 <= i < p@.notes.len() ==> (#[trigger] p@.notes[i]).duration.0 == PPQ / 4,
        style == DrumStyle::FourOnFloor ==> forall|b: int, k: int|
            0 <= b < (if bars == 0 {
                1
            } else {
                bars as int
            }) && 0 <= k < 4 ==> #[trigger] has_hit_at(p@.notes, KICK, b * BAR + k * PPQ),
        style == DrumStyle::FourOnFloor ==> forall|i: int|
            0 <= i < p@.notes.len() && (#[trigger] p@.notes[i]).pitch.note == HAT ==> p@.notes[i].start.0 % PPQ == PPQ / 2,
{
    let total: usize = if bars == 0 {
        1
    } else {
        bars
    };
    let mut rng = SplitMix64::new(seed);
    let mut notes: Vec<Note> = Vec::new();
    let ghost all = drum_line(total as int, style, 0, seed.0);
    assert(all =~= notes@ + drum_line(total as int, style, 0, rng.state()));
    let mut bar: usize = 0;
    while bar < total
        invariant
            total * BAR <= i64::MAX,
            bar <= total,
            all == drum_line(total as int, style, 0, seed.0),
            all == notes@ + drum_line(total as int, style, bar as int, rng.state()),
            forall|i: int| 0 <= i < notes@.len() ==> #[trigger] note_valid(notes@[i]) && note_end(notes@[i]) <= bar * BAR,
        decreases total - bar,
    {
        let s = bar_start(bar, total);
        let ghost r0 = rng.state();
        let ghost base = notes@;
        proof {
            lemma_bars(bar as int, bar + 1);
            lemma_bars(bar + 1, total as int);
        }
        push_drum_bar(&mut notes, &mut rng, style, s);
        proof {
            let step = drum_bar(style, s as int, r0);
            lemma_drum_bar_bounds(style, s as int, r0);
            assert(notes@ == base + step.0);
            assert(s + BAR == (bar + 1) * BAR);
            assert(bar * BAR <= (bar + 1) * BAR);
            assert(drum_line(total as int, style, bar as int, r0) == step.0 + drum_line(total as int, style, bar + 1, rng.state()));
            assert(all =~= notes@ + drum_line(total as int, style, bar + 1, rng.state()));
            assert forall|i: int| 0 <= i < notes@.len() implies #[trigger] note_valid(notes@[i]) && note_end(notes@[i]) <= (bar + 1) * BAR by {
                if i < base.len() {
                    assert(notes@[i] == base[i]);
                    assert(note_valid(base[i]) && note_end(base[i]) <= bar * BAR);
                } else {
                    let k = i - base.len();
                    assert(notes@[i] == step.0[k]);
                    assert(0 <= k < step.0.len());
                    assert(note_valid(step.0[k]));
                    assert(note_end(step.0[k]) <= s + BAR);
                }
            }
        }
        bar += 1;
    }
    proof {
        assert(drum_line(total as int, style, bar as int, rng.state()) =~= Seq::<Note>::empty());
        assert(notes@ =~= all);
    }
    let length = bar_start(total, total);
    proof {
        assert(bar == total);
        assert(bar * BAR == length);
        assert forall|i: int| 0 <= i < notes@.len() implies #[trigger] note_valid(notes@[i]) && note_end(notes@[i]) <= length by {
            assert(note_valid(notes@[i]));
            assert(note_end(notes@[i]) <= bar * BAR);
        }
    }
    let p = finish(notes, length);
    proof {
        let line = drum_line(total as int, style, 0, seed.0);
        let out = p@.notes;
        law_drums_backbeat(total as int, style, seed.0);
        lemma_stable_sort_contains(out, line);
        assert forall|b: int| 0 <= b < total implies #[trigger] has_backbeat(out, b) by {
            assert(has_snare_on_two(line, b));
            assert(has_snare_at(line, b * BAR + 3 * PPQ));
            let i = choose|i: int| 0 <= i < line.len() && (#[trigger] line[i]).pitch.note == SNARE && line[i].start.0 == b * BAR + PPQ;
            let k = choose|k: int| 0 <= k < line.len() && (#[trigger] line[k]).pitch.note == SNARE && line[k].start.0 == b * BAR + 3 * PPQ;
            assert(line.contains(line[i]) && line.contains(line[k]));
            assert(out.contains(line[i]) && out.contains(line[k]));
        }
        assert forall|i: int| 0 <= i < out.len() implies (#[trigger] out[i]).duration.0 == PPQ / 4 by {
            assert(out.contains(out[i]));
            let j = choose|j: int| 0 <= j < line.len() && line[j] == out[i];
            assert(line[j] == out[i]);
        }
        if style == DrumStyle::FourOnFloor {
            law_four_on_the_floor(total as int, seed.0);
            assert forall|b: int, k: int| 0 <= b < total && 0 <= k < 4 implies #[trigger] has_hit_at(
                out,
                KICK,
                b * BAR + k * PPQ,
            ) by {
                assert(has_hit_at(line, KICK, b * BAR + k * PPQ));
                let i = choose|i: int| 0 <= i < line.len() && (#[trigger] line[i]).pitch.note == KICK && line[i].start.0 == b * BAR + k * PPQ;
                assert(line.contains(line[i]));
                assert(out.contains(line[i]));
            }
            assert forall|i: int| 0 <= i < out.len() && (#[trigger] out[i]).pitch.note == HAT implies out[i].start.0 % PPQ
                == PPQ / 2 by {
                assert(out.contains(out[i]));
                let j = choose|j: int| 0 <= j < line.len() && line[j] == out[i];
                assert(line[j] == out[i]);
            }
        }
    }
    p
}

proof fn lemma_lofi_hats_bounds(s: int, e: int, rng: u64)
    requires
        0 <= s,
        s + BAR <= i64::MAX,
        0 <= e,
    ensures
        forall|i: int|
            0 <= i < lofi_hats(s, e, rng).0.len() ==> s <= (#[trigger] lofi_hats(s, e, rng).0[i]).start.0 && note_end(
                lofi_hats(s, e, rng).0[i],
            ) <= s + BAR && lofi_hats(s, e, rng).0[i].duration.0 > 0,
    decreases 8 - e,
{
    if e < 8 {
        let (r1, dv) = range_draw(rng, 14);
        lemma_lofi_hats_bounds(s, e + 1, r1);
        let l = lofi_hats(s, e, rng).0;
        let rest = lofi_hats(s, e + 1, r1).0;
        assert(0 <= e * 480 <= 3360) by (nonlinear_arith)
            requires
                0 <= e < 8,
        ;
        assert(l == seq![l[0]] + rest);
        assert forall|i: int| 1 <= i < l.len() implies #[trigger] l[i] == rest[i - 1] by {}
    }
}

proof fn lemma_drum_bar_bounds(style: DrumStyle, s: int, rng: u64)
    requires
        0 <= s,
        s + BAR <= i64::MAX,
    ensures
        forall|i: int|
            0 <= i < drum_bar(style, s, rng).0.len() ==> #[trigger] note_valid(drum_bar(style, s, rng).0[i])
                && note_end(drum_bar(style, s, rng).0[i]) <= s + BAR && s <= drum_bar(style, s, rng).0[i].start.0,
{
    reveal(drum_bar);
    let b = drum_bar(style, s, rng).0;
    assert(PPQ == 960);
    match style {
        DrumStyle::Basic => {
            assert forall|i: int| 0 <= i < b.len() implies #[trigger] note_valid(b[i]) && note_end(b[i]) <= s + BAR
                && s <= b[i].start.0 by {
                if i >= 4 {
                    let e = i - 4;
                    assert(0 <= e * 480 <= 3360) by (nonlinear_arith)
                        requires
                            0 <= e < 8,
                    ;
                }
            }
        },
        DrumStyle::FourOnFloor => {
            assert forall|i: int| 0 <= i < b.len() implies #[trigger] note_valid(b[i]) && note_end(b[i]) <= s + BAR
                && s <= b[i].start.0 by {
                if i < 8 {
                    assert(0 <= (i / 2) * 960 <= 2880) by (nonlinear_arith)
                        requires
                            0 <= i < 8,
                    ;
                }
            }
        },
        DrumStyle::LoFi => {
            let (r1, extra) = chance_draw(rng, 60);
            lemma_lofi_hats_bounds(s, 0, r1);
            let (hats, r2) = lofi_hats(s, 0, r1);
            let kicks = if extra {
                seq![drum_hit(KICK, s, 100), drum_hit(KICK, s + PPQ * 2 + 480, 88)]
            } else {
                seq![drum_hit(KICK, s, 100)]
            };
            let head = kicks + seq![drum_hit(SNARE, s + PPQ, 92), drum_hit(SNARE, s + PPQ * 3, 92)];
            assert forall|i: int| 0 <= i < b.len() implies #[trigger] note_valid(b[i]) && note_end(b[i]) <= s + BAR
                && s <= b[i].start.0 by {
                if head.len() <= i < head.len() + hats.len() {
                    assert(b[i] == hats[i - head.len()]);
                }
            }
        },
    }
}

/// Every bar of a generated drum pattern, in every style, has a snare on
/// beat 2 and on beat 4, and every hit lasts a sixteenth.
pub proof fn law_drums_backbeat(total: int, style: DrumStyle, seed: u64)
    requires
        1 <= total,
        total * BAR <= i64::MAX,
    ensures
        forall|b: int| 0 <= b < total ==> #[trigger] has_snare_on_two(drum_line(total, style, 0, seed), b),
        forall|b: int| 0 <= b < total ==> #[trigger] has_snare_at(drum_line(total, style, 0, seed), b * BAR + 3 * PPQ),
        forall|i: int|
            0 <= i < drum_line(total, style, 0, seed).len() ==> (#[trigger] drum_line(total, style, 0, seed)[i]).duration.0
                == PPQ / 4,
{
    lemma_drum_line_backbeat(total, style, 0, seed);
    lemma_drum_line_durations(total, style, 0, seed);
    assert forall|b: int| 0 <= b < total implies #[trigger] has_snare_on_two(drum_line(total, style, 0, seed), b) by {
        assert(has_snare_at(drum_line(total, style, 0, seed), b * BAR + 1 * PPQ));
    }
}

/// Some note of `notes` is a snare on beat 2 of bar `b`.
pub open spec fn has_snare_on_two(notes: Seq<Note>, b: int) -> bool {
    has_snare_at(notes, b * BAR + PPQ)
}

/// Bar `b` of `notes` has a snare on beat 2 and on beat 4.
pub open spec fn has_backbeat(notes: Seq<Note>, b: int) -> bool {
    has_snare_at(notes, b * BAR + PPQ) && has_snare_at(notes, b * BAR + 3 * PPQ)
}

/// Some note of `notes` is a snare starting at tick `t`.
pub open spec fn has_snare_at(notes: Seq<Note>, t: int) -> bool {
    exists|i: int| 0 <= i < notes.len() && (#[trigger] notes[i]).pitch.note == SNARE && notes[i].start.0 == t
}

proof fn lemma_drum_line_backbeat(total: int, style: DrumStyle, bar: int, rng: u64)
    requires
        0 <= bar <= total,
        total * BAR <= i64::MAX,
    ensures
        forall|b: int, o: int|
            bar <= b < total && (o == 1 || o == 3) ==> #[trigger] has_snare_at(
                drum_line(total, style, bar, rng),
                b * BAR + o * PPQ,
            ),
    decreases total - bar,
{
    if bar < total {
        let (notes, next) = drum_bar(style, bar * BAR, rng);
        lemma_drum_line_backbeat(total, style, bar + 1, next);
        lemma_bars(bar, total);
        lemma_bars(bar + 1, total);
        let line = drum_line(total, style, bar, rng);
        let rest = drum_line(total, style, bar + 1, next);
        assert(line == notes + rest);
        assert forall|b: int, o: int| bar <= b < total && (o == 1 || o == 3) implies #[trigger] has_snare_at(
            line,
            b * BAR + o * PPQ,
        ) by {
            reveal(drum_bar);
            if b == bar {
                let k0: int = match style {
                    DrumStyle::Basic => 2,
                    DrumStyle::FourOnFloor => 8,
                    DrumStyle::LoFi => if chance_draw(rng, 60).1 {
                        2
                    } else {
                        1
                    },
                };
                let k = if o == 1 {
                    k0
                } else {
                    k0 + 1
                };
                assert(line[k] == notes[k]);
                assert(notes[k].pitch.note == SNARE && notes[k].start.0 == b * BAR + o * PPQ);
            } else {
                assert(has_snare_at(rest, b * BAR + o * PPQ));
                let j = choose|j: int|
                    0 <= j < rest.len() && (#[trigger] rest[j]).pitch.note == SNARE && rest[j].start.0 == b * BAR + o * PPQ;
                assert(line[j + notes.len()] == rest[j]);
            }
        }
    }
}

proof fn lemma_lofi_hats_durations(s: int, e: int, rng: u64)
    ensures
        forall|i: int| 0 <= i < lofi_hats(s, e, rng).0.len() ==> (#[trigger] lofi_hats(s, e, rng).0[i]).duration.0 == PPQ / 4,
    decreases 8 - e,
{
    if 0 <= e < 8 {
        let (r1, dv) = range_draw(rng, 14);
        lemma_lofi_hats_durations(s, e + 1, r1);
        let all = lofi_hats(s, e, rng).0;
        let rest = lofi_hats(s, e + 1, r1).0;
        assert forall|i: int| 0 <= i < all.len() implies (#[trigger] all[i]).duration.0 == PPQ / 4 by {
            if i > 0 {
                assert(all[i] == rest[i - 1]);
            }
        }
    }
}

proof fn lemma_drum_line_durations(total: int, style: DrumStyle, bar: int, rng: u64)
    ensures
        forall|i: int|
            0 <= i < drum_line(total, style, bar, rng).len() ==> (#[trigger] drum_line(total, style, bar, rng)[i]).duration.0
                == PPQ / 4,
    decreases total - bar,
{
    if 0 <= bar < total {
        let (notes, next) = drum_bar(style, bar * BAR, rng);
        lemma_drum_line_durations(total, style, bar + 1, next);
        let line = drum_line(total, style, bar, rng);
        let rest = drum_line(total, style, bar + 1, next);
        assert(line == notes + rest);
        assert forall|i: int| 0 <= i < notes.len() implies (#[trigger] notes[i]).duration.0 == PPQ / 4 by {
            reveal(drum_bar);
            match style {
                DrumStyle::LoFi => {
                    let (r1, extra) = chance_draw(rng, 60);
                    let (hats, r2) = lofi_hats(bar * BAR, 0, r1);
                    lemma_lofi_hats_durations(bar * BAR, 0, r1);
                    let kicks = if extra {
                        seq![drum_hit(KICK, bar * BAR, 100), drum_hit(KICK, bar * BAR + PPQ * 2 + PPQ / 2, 88)]
                    } else {
                        seq![drum_hit(KICK, bar * BAR, 100)]
                    };
                    let head = kicks + seq![drum_hit(SNARE, bar * BAR + PPQ, 92), drum_hit(SNARE, bar * BAR + PPQ * 3, 92)];
                    if head.len() <= i < head.len() + hats.len() {
                        assert(notes[i] == hats[i - head.len()]);
                    }
                },
                _ => {},
            }
        }
        assert forall|i: int| 0 <= i < line.len() implies (#[trigger] line[i]).duration.0 == PPQ / 4 by {
            if i < notes.len() {
                assert(line[i] == notes[i]);
            } else {
                assert(line[i] == rest[i - notes.len()]);
            }
        }
    }
}
/// Some note of `notes` plays `key` starting at tick `t`.
pub open spec fn has_hit_at(notes: Seq<Note>, key: u8, t: int) -> bool {
    exists|i: int| 0 <= i < notes.len() && (#[trigger] notes[i]).pitch.note == key && notes[i].start.0 == t
}

proof fn lemma_offbeat(q: int)
    requires
        0 <= q,
    ensures
        (q * 960 + 480) % 960 == 480,
{
    vstd::arithmetic::div_mod::lemma_mod_multiples_vanish(q, 480, 960);
    assert(q * 960 == 960 * q) by (nonlinear_arith);
}

proof fn lemma_four_on_floor_line(total: int, bar: int, rng: u64)
    requires
        0 <= bar <= total,
        total * BAR <= i64::MAX,
    ensures
        forall|b: int, k: int|
            bar <= b < total && 0 <= k < 4 ==> #[trigger] has_hit_at(
                drum_line(total, DrumStyle::FourOnFloor, bar, rng),
                KICK,
                b * BAR + k * PPQ,
            ),
        forall|i: int|
            0 <= i < drum_line(total, DrumStyle::FourOnFloor, bar, rng).len() && (#[trigger] drum_line(
                total,
                DrumStyle::FourOnFloor,
                bar,
                rng,
            )[i]).pitch.note == HAT ==> drum_line(total, DrumStyle::FourOnFloor, bar, rng)[i].start.0 % PPQ == PPQ / 2,
    decreases total - bar,
{
    if bar < total {
        let (notes, next) = drum_bar(DrumStyle::FourOnFloor, bar * BAR, rng);
        lemma_four_on_floor_line(total, bar + 1, next);
        lemma_bars(bar, total);
        lemma_bars(bar + 1, total);
        let line = drum_line(total, DrumStyle::FourOnFloor, bar, rng);
        let rest = drum_line(total, DrumStyle::FourOnFloor, bar + 1, next);
        assert(line == notes + rest);
        reveal(drum_bar);
        assert(notes.len() == 10);
        assert forall|b: int, k: int| bar <= b < total && 0 <= k < 4 implies #[trigger] has_hit_at(
            line,
            KICK,
            b * BAR + k * PPQ,
        ) by {
            if b == bar {
                let j = 2 * k;
                assert(j % 2 == 0 && j / 2 == k);
                assert(line[j] == notes[j]);
                assert(notes[j].pitch.note == KICK && notes[j].start.0 == b * BAR + k * PPQ);
            } else {
                assert(has_hit_at(rest, KICK, b * BAR + k * PPQ));
                let j = choose|j: int| 0 <= j < rest.len() && (#[trigger] rest[j]).pitch.note == KICK && rest[j].start.0 == b * BAR + k * PPQ;
                assert(line[j + notes.len()] == rest[j]);
            }
        }
        assert forall|i: int| 0 <= i < line.len() && (#[trigger] line[i]).pitch.note == HAT implies line[i].start.0 % PPQ
            == PPQ / 2 by {
            if i < notes.len() {
                assert(line[i] == notes[i]);
                if i < 8 {
                    assert(i % 2 == 1);
                    let q = 4 * bar + i / 2;
                    assert(bar * BAR + (i / 2) * PPQ == q * 960);
                    lemma_offbeat(q);
                    assert(notes[i].start.0 == q * 960 + 480);
                }
            } else {
                assert(line[i] == rest[i - notes.len()]);
            }
        }
    }
}

/// A four-on-the-floor pattern has a kick on every beat of every bar, and
/// its hi-hats play only on the off-beats (half a beat after a beat).
pub proof fn law_four_on_the_floor(total: int, seed: u64)
    requires
        1 <= total,
        total * BAR <= i64::MAX,
    ensures
        forall|b: int, k: int|
            0 <= b < total && 0 <= k < 4 ==> #[trigger] has_hit_at(
                drum_line(total, DrumStyle::FourOnFloor, 0, seed),
                KICK,
                b * BAR + k * PPQ,
            ),
        forall|i: int|
            0 <= i < drum_line(total, DrumStyle::FourOnFloor, 0, seed).len() && (#[trigger] drum_line(
                total,
                DrumStyle::FourOnFloor,
                0,
                seed,
            )[i]).pitch.note == HAT ==> drum_line(total, DrumStyle::FourOnFloor, 0, seed)[i].start.0 % PPQ == PPQ / 2,
{
    lemma_four_on_floor_line(total, 0, seed);
}
proof fn lemma_kick_and_hat_line(total: int, style: DrumStyle, bar: int, rng: u64)
    requires
        0 <= bar <= total,
        total * BAR <= i64::MAX,
    ensures
        forall|b: int, k: int|
            bar <= b < total && (k == 0 || (k == 2 && style == DrumStyle::Basic)) ==> #[trigger] has_hit_at(
                drum_line(total, style, bar, rng),
                KICK,
                b * BAR + k * PPQ,
            ),
        forall|b: int, e: int|
            bar <= b < total && 0 <= e < 8 && style == DrumStyle::Basic ==> #[trigger] has_hit_at(
                drum_line(total, style, bar, rng),
                HAT,
                b * BAR + e * (PPQ / 2),
            ),
    decreases total - bar,
{
    if bar < total {
        let (notes, next) = drum_bar(style, bar * BAR, rng);
        lemma_kick_and_hat_line(total, style, bar + 1, next);
        lemma_bars(bar, total);
        lemma_bars(bar + 1, total);
        let line = drum_line(total, style, bar, rng);
        let rest = drum_line(total, style, bar + 1, next);
        assert(line == notes + rest);
        reveal(drum_bar);
        assert forall|b: int, k: int| bar <= b < total && (k == 0 || (k == 2 && style == DrumStyle::Basic)) implies #[trigger] has_hit_at(
            line,
            KICK,
            b * BAR + k * PPQ,
        ) by {
            if b == bar {
                let j: int = match style {
                    DrumStyle::Basic => if k == 0 {
                        0
                    } else {
                        1
                    },
                    DrumStyle::FourOnFloor => 0,
                    DrumStyle::LoFi => 0,
                };
                assert(line[j] == notes[j]);
                assert(notes[j].pitch.note == KICK && notes[j].start.0 == b * BAR + k * PPQ);
            } else {
                assert(has_hit_at(rest, KICK, b * BAR + k * PPQ));
                let j = choose|j: int| 0 <= j < rest.len() && (#[trigger] rest[j]).pitch.note == KICK && rest[j].start.0 == b * BAR + k * PPQ;
                assert(line[j + notes.len()] == rest[j]);
            }
        }
        assert forall|b: int, e: int| bar <= b < total && 0 <= e < 8 && style == DrumStyle::Basic implies #[trigger] has_hit_at(
            line,
            HAT,
            b * BAR + e * (PPQ / 2),
        ) by {
            if b == bar {
                let j = 4 + e;
                assert(line[j] == notes[j]);
                assert(0 <= e * 480 <= 3360) by (nonlinear_arith)
                    requires
                        0 <= e < 8,
                ;
                assert(notes[j].pitch.note == HAT && notes[j].start.0 == b * BAR + e * (PPQ / 2));
            } else {
                assert(has_hit_at(rest, HAT, b * BAR + e * (PPQ / 2)));
                let j = choose|j: int| 0 <= j < rest.len() && (#[trigger] rest[j]).pitch.note == HAT && rest[j].start.0 == b * BAR + e * (PPQ / 2);
                assert(line[j + notes.len()] == rest[j]);
            }
        }
    }
}

/// Every style opens each bar with a kick on the downbeat; the basic beat
/// adds a kick on beat 3 and closed hi-hats on all eight eighth notes.
pub proof fn law_drum_styles_kicks_and_hats(total: int, style: DrumStyle, seed: u64)
    requires
        1 <= total,
        total * BAR <= i64::MAX,
    ensures
        forall|b: int| 0 <= b < total ==> #[trigger] has_hit_at(drum_line(total, style, 0, seed), KICK, b * BAR),
        style == DrumStyle::Basic ==> forall|b: int|
            0 <= b < total ==> #[trigger] has_hit_at(drum_line(total, style, 0, seed), KICK, b * BAR + 2 * PPQ),
        style == DrumStyle::Basic ==> forall|b: int, e: int|
            0 <= b < total && 0 <= e < 8 ==> #[trigger] has_hit_at(
                drum_line(total, style, 0, seed),
                HAT,
                b * BAR + e * (PPQ / 2),
            ),
{
    lemma_kick_and_hat_line(total, style, 0, seed);
    assert forall|b: int| 0 <= b < total implies #[trigger] has_hit_at(drum_line(total, style, 0, seed), KICK, b * BAR) by {
        assert(has_hit_at(drum_line(total, style, 0, seed), KICK, b * BAR + 0 * PPQ));
    }
    if style == DrumStyle::Basic {
        assert forall|b: int| 0 <= b < total implies #[trigger] has_hit_at(
            drum_line(total, style, 0, seed),
            KICK,
            b * BAR + 2 * PPQ,
        ) by {
            assert(has_hit_at(drum_line(total, style, 0, seed), KICK, b * BAR + 2 * PPQ));
        }
    }
}
} // verus!
