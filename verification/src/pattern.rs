//! Symbolic music model: notes, patterns, and pattern transformations.
//!
//! A [`Pattern`] is an ordered collection of [`Note`]s with a declared
//! length. All transformations are pure `Pattern -> Pattern` functions;
//! anything stochastic takes an explicit seed.

use vstd::prelude::*;
use crate::core_types::{clamp_int, Pitch, Seed, Tick, Velocity};
use crate::rng::{max_range, range_draw, SplitMix64};
use crate::sorting::{
    is_stable_sort_of, key_class, lemma_stable_sort_same_elements, lemma_stable_sort_unique, sorted_by_key,
    stable_sort, SortKey,
};

verus! {

/// A single note event within a pattern.
#[derive(Debug, Clone, Copy, PartialEq, Eq, Structural, Hash)]
pub struct Note {
    /// Pitch of the note.
    pub pitch: Pitch,
    /// Note-on velocity.
    pub velocity: Velocity,
    /// Start position relative to the pattern origin. Never negative.
    pub start: Tick,
    /// Duration in ticks. Always positive.
    pub duration: Tick,
}

/// End position of a note (`start + duration`).
pub open spec fn note_end(n: Note) -> int {
    n.start.0 + n.duration.0
}

impl Note {
    /// End position (`start + duration`).
    pub fn end(&self) -> (t: Tick)
        requires
            i64::MIN <= note_end(*self) <= i64::MAX,
        ensures
            t.0 == note_end(*self),
    {
        Tick(self.start.0 + self.duration.0)
    }
}

impl SortKey for Note {
    /// Notes are ordered by `(start, pitch.note)`.
    open spec fn key(&self) -> int {
        self.start.0 * 256 + self.pitch.note
    }

    fn sort_key(&self) -> (k: i128) {
        (self.start.0 as i128) * 256 + self.pitch.note as i128
    }
}

/// A note with a non-negative start, positive duration, and representable end.
pub open spec fn note_valid(n: Note) -> bool {
    n.start.0 >= 0 && n.duration.0 > 0 && note_end(n) <= i64::MAX
}

/// Errors from pattern construction.
#[derive(Debug, Clone, Copy, PartialEq, Eq, Structural)]
pub enum PatternError {
    /// A note started before tick zero.
    NegativeStart(Tick),
    /// A note had a zero or negative duration.
    NonPositiveDuration(Tick),
}

/// The error for the first invalid note of `s`, if any.
pub open spec fn note_error(s: Seq<Note>) -> Option<PatternError>
    decreases s.len(),
{
    if s.len() == 0 {
        None
    } else if s[0].start.0 < 0 {
        Some(PatternError::NegativeStart(s[0].start))
    } else if s[0].duration.0 <= 0 {
        Some(PatternError::NonPositiveDuration(s[0].duration))
    } else {
        note_error(s.drop_first())
    }
}

/// The latest end of the notes of `s` (0 when empty).
pub open spec fn max_end(s: Seq<Note>) -> int
    decreases s.len(),
{
    if s.len() == 0 {
        0
    } else {
        let m = max_end(s.drop_last());
        let e = note_end(s.last());
        if e > m {
            e
        } else {
            m
        }
    }
}

/// The larger of two integers.
pub open spec fn max_int(a: int, b: int) -> int {
    if a >= b {
        a
    } else {
        b
    }
}

/// The abstract value of a pattern: its notes and declared length.
pub struct PatternView {
    /// Notes in order.
    pub notes: Seq<Note>,
    /// Declared length.
    pub length: Tick,
}

/// Pattern invariant: sorted, valid notes, and length at least every note end.
pub open spec fn pattern_wf(notes: Seq<Note>, length: Tick) -> bool {
    &&& sorted_by_key(notes)
    &&& forall|i: int| 0 <= i < notes.len() ==> #[trigger] note_valid(notes[i])
    &&& forall|i: int| 0 <= i < notes.len() ==> note_end(#[trigger] notes[i]) <= length.0
}

/// An immutable, tick-sorted collection of notes with a declared length.
#[derive(Debug, Clone, PartialEq, Eq)]
pub struct Pattern {
    notes: Vec<Note>,
    length: Tick,
}

impl View for Pattern {
    type V = PatternView;

    closed spec fn view(&self) -> PatternView {
        PatternView { notes: self.notes@, length: self.length }
    }
}

pub proof fn lemma_note_error_none(s: Seq<Note>)
    ensures
        note_error(s) is None <==> forall|i: int|
            0 <= i < s.len() ==> s[i].start.0 >= 0 && s[i].duration.0 > 0,
    decreases s.len(),
{
    if s.len() > 0 {
        lemma_note_error_none(s.drop_first());
        if note_error(s) is None {
            assert forall|i: int| 0 <= i < s.len() implies s[i].start.0 >= 0 && s[i].duration.0
                > 0 by {
                if i > 0 {
                    assert(s[i] == s.drop_first()[i - 1]);
                }
            }
        }
    }
}

proof fn lemma_max_end_bounds(s: Seq<Note>)
    ensures
        forall|i: int| 0 <= i < s.len() ==> note_end(#[trigger] s[i]) <= max_end(s),
        max_end(s) >= 0,
        s.len() > 0 && (forall|i: int| 0 <= i < s.len() ==> note_end(#[trigger] s[i]) <= i64::MAX)
            ==> max_end(s) <= i64::MAX,
    decreases s.len(),
{
    if s.len() > 0 {
        lemma_max_end_bounds(s.drop_last());
        assert forall|i: int| 0 <= i < s.len() implies note_end(#[trigger] s[i]) <= max_end(s) by {
            if i < s.len() - 1 {
                assert(s[i] == s.drop_last()[i]);
            }
        }
        if forall|i: int| 0 <= i < s.len() ==> note_end(#[trigger] s[i]) <= i64::MAX {
            assert forall|i: int| 0 <= i < s.drop_last().len() implies note_end(
                #[trigger] s.drop_last()[i],
            ) <= i64::MAX by {
                assert(s.drop_last()[i] == s[i]);
            }
            assert(note_end(s[s.len() - 1]) <= i64::MAX);
        }
    }
}

/// Computes the latest note end (0 for no notes).
fn content_end(notes: &Vec<Note>) -> (r: i64)
    requires
        forall|i: int| 0 <= i < notes@.len() ==> i64::MIN <= note_end(#[trigger] notes@[i]) <= i64::MAX,
    ensures
        r == max_end(notes@),
{
    let mut m: i64 = 0;
    let mut i: usize = 0;
    while i < notes.len()
        invariant
            i <= notes.len(),
            m == max_end(notes@.subrange(0, i as int)),
            forall|k: int| 0 <= k < notes@.len() ==> i64::MIN <= note_end(#[trigger] notes@[k]) <= i64::MAX,
        decreases notes.len() - i,
    {
        let e = notes[i].end();
        proof {
            let t = notes@.subrange(0, i + 1);
            assert(t.drop_last() =~= notes@.subrange(0, i as int));
            assert(t.last() == notes@[i as int]);
        }
        if e.0 > m {
            m = e.0;
        }
        i += 1;
    }
    assert(notes@.subrange(0, notes.len() as int) =~= notes@);
    m
}

/// Builds the pattern holding the stable sort of `notes`, with the length
/// grown to fit.
fn assemble(notes: Vec<Note>, length: Tick) -> (p: Pattern)
    requires
        forall|i: int| 0 <= i < notes@.len() ==> #[trigger] note_valid(notes@[i]),
    ensures
        p.wf(),
        is_stable_sort_of(p@.notes, notes@),
        p@.notes.len() == notes@.len(),
        p@.length.0 == max_int(length.0 as int, max_end(notes@)),
{
    proof {
        assert forall|i: int| 0 <= i < notes@.len() implies i64::MIN <= note_end(#[trigger] notes@[i]) <= i64::MAX by {
            assert(note_valid(notes@[i]));
        }
    }
    let end = content_end(&notes);
    let sorted = stable_sort(&notes);
    let len: i64 = if length.0 >= end {
        length.0
    } else {
        end
    };
    proof {
        lemma_max_end_bounds(notes@);
        assert forall|i: int| 0 <= i < sorted@.len() implies #[trigger] note_valid(sorted@[i])
            && note_end(sorted@[i]) <= len by {
            assert(sorted@.contains(sorted@[i]));
            lemma_stable_sort_same_elements(sorted@, notes@, sorted@[i]);
            let j = choose|j: int| 0 <= j < notes@.len() && notes@[j] == sorted@[i];
            assert(note_valid(notes@[j]));
            assert(note_end(notes@[j]) <= max_end(notes@));
        }
        assert(forall|i: int| 0 <= i < sorted@.len() ==> #[trigger] note_valid(sorted@[i]));
        assert forall|i: int| 0 <= i < sorted@.len() implies note_end(#[trigger] sorted@[i]) <= len by {
            assert(sorted@.contains(sorted@[i]));
            lemma_stable_sort_same_elements(sorted@, notes@, sorted@[i]);
            let j = choose|j: int| 0 <= j < notes@.len() && notes@[j] == sorted@[i];
            assert(note_end(notes@[j]) <= max_end(notes@));
            assert(end == max_end(notes@));
        }
    }
    let p = Pattern { notes: sorted, length: Tick(len) };
    assert(p@.notes == sorted@);
    p
}

/// Whether a note is valid (non-negative start and positive duration).
fn check_note(n: &Note) -> (r: Option<PatternError>)
    ensures
        r == (if n.start.0 < 0 {
            Some(PatternError::NegativeStart(n.start))
        } else if n.duration.0 <= 0 {
            Some(PatternError::NonPositiveDuration(n.duration))
        } else {
            None::<PatternError>
        }),
{
    if n.start.0 < 0 {
        Some(PatternError::NegativeStart(n.start))
    } else if n.duration.0 <= 0 {
        Some(PatternError::NonPositiveDuration(n.duration))
    } else {
        None
    }
}

/// Chromatic transposition of one pitch, clamped to the MIDI range.
pub open spec fn transpose_pitch(p: Pitch, semitones: i8) -> Pitch {
    Pitch { note: clamp_int(p.note + semitones, 0, 127) as u8, cents: p.cents }
}

/// Every note transposed, in the original order.
pub open spec fn transpose_notes(s: Seq<Note>, semitones: i8) -> Seq<Note> {
    s.map_values(|n: Note| Note { pitch: transpose_pitch(n.pitch, semitones), ..n })
}

/// Transposing moves every pitch by exactly `semitones` when the result stays
/// in the MIDI range, and pins it to the nearest end of the range when it
/// would not; timing, velocity and microtonal offset are untouched.
pub proof fn law_transpose_moves_by_the_interval(s: Seq<Note>, semitones: i8)
    ensures
        transpose_notes(s, semitones).len() == s.len(),
        forall|i: int|
            0 <= i < s.len() ==> {
                let a = s[i];
                let b = #[trigger] transpose_notes(s, semitones)[i];
                &&& b.start == a.start && b.duration == a.duration && b.velocity == a.velocity
                &&& b.pitch.cents == a.pitch.cents
                &&& (0 <= a.pitch.note + semitones <= 127 ==> b.pitch.note - a.pitch.note == semitones)
                &&& (a.pitch.note + semitones > 127 ==> b.pitch.note == 127)
                &&& (a.pitch.note + semitones < 0 ==> b.pitch.note == 0)
            },
{
}

/// The grid line nearest to `value` (ties go down).
pub open spec fn nearest_multiple_spec(value: int, grid: int) -> int {
    let down = (value / grid) * grid;
    let up = down + grid;
    if value - down <= up - value {
        down
    } else {
        up
    }
}

/// Integer division rounding toward zero (Rust's `/`).
pub open spec fn div_trunc(a: int, b: int) -> int {
    if a >= 0 {
        a / b
    } else {
        -((-a) / b)
    }
}

/// The start of a note after partial quantization.
pub open spec fn quantize_start(start: int, grid: int, strength_pct: u8, length: int) -> int {
    let strength: int = if strength_pct > 100 {
        100
    } else {
        strength_pct as int
    };
    let target = nearest_multiple_spec(start, grid);
    clamp_int(start + div_trunc((target - start) * strength, 100), 0, length)
}

/// Full-strength quantizing snaps a start to the nearest grid line (the
/// earlier one on a tie): the result is a multiple of the grid, at most half
/// a grid step away, and not exactly half a step later.
pub proof fn law_full_quantize_snaps_to_nearest(start: int, grid: int, length: int)
    requires
        grid > 0,
        0 <= start <= length,
        length % grid == 0,
    ensures
        quantize_start(start, grid, 100, length) % grid == 0,
        -grid <= 2 * (quantize_start(start, grid, 100, length) - start) < grid,
{
    let down = (start / grid) * grid;
    let r = start % grid;
    vstd::arithmetic::div_mod::lemma_fundamental_div_mod(start, grid);
    assert(start == down + r) by (nonlinear_arith)
        requires
            start == grid * (start / grid) + start % grid,
            down == (start / grid) * grid,
            r == start % grid,
    ;
    assert(0 <= r < grid);
    assert(0 <= start / grid) by (nonlinear_arith)
        requires
            0 <= start,
            grid > 0,
    {
        vstd::arithmetic::div_mod::lemma_div_pos_is_pos(start, grid);
    }
    let target = nearest_multiple_spec(start, grid);
    let q = start / grid;
    vstd::arithmetic::div_mod::lemma_fundamental_div_mod(length, grid);
    let lq = length / grid;
    assert(length == grid * lq);
    if r * 2 <= grid {
        assert(target == down);
    } else {
        assert(target == down + grid);
        assert(r > 0);
        assert(q < lq) by (nonlinear_arith)
            requires
                down + r == start,
                start <= length,
                r > 0,
                down == q * grid,
                length == grid * lq,
                grid > 0,
        ;
        assert(down + grid <= length) by (nonlinear_arith)
            requires
                q < lq,
                down == q * grid,
                length == grid * lq,
                grid > 0,
        ;
    }
    assert(0 <= down) by (nonlinear_arith)
        requires
            0 <= q,
            down == q * grid,
            grid > 0,
    ;
    assert(div_trunc((target - start) * 100, 100) == target - start);
    assert(quantize_start(start, grid, 100, length) == target);
    vstd::arithmetic::div_mod::lemma_mod_multiples_basic(q, grid);
    vstd::arithmetic::div_mod::lemma_mod_multiples_basic(q + 1, grid);
    assert((q + 1) * grid == down + grid) by (nonlinear_arith)
        requires
            down == q * grid,
    ;
}

/// Every note quantized, in the original order.
pub open spec fn quantize_notes(s: Seq<Note>, grid: int, strength_pct: u8, length: int) -> Seq<Note> {
    s.map_values(
        |n: Note| Note { start: Tick(quantize_start(n.start.0 as int, grid, strength_pct, length) as i64), ..n },
    )
}

/// Every note humanized, drawing timing then velocity jitter per note.
pub open spec fn humanize_notes(s: Seq<Note>, state: u64, timing: i64, velocity: u8, length: int) -> Seq<Note>
    decreases s.len(),
{
    if s.len() == 0 {
        Seq::empty()
    } else {
        let n = s[0];
        let (s1, dt) = range_draw(state, timing);
        let (s2, dv) = range_draw(s1, velocity as i64);
        let m = Note {
            start: Tick(clamp_int(n.start.0 + dt, 0, length) as i64),
            velocity: Velocity::of(clamp_int(n.velocity.value() + dv, 1, 127)),
            ..n
        };
        seq![m] + humanize_notes(s.drop_first(), s2, timing, velocity, length)
    }
}

/// The generator state with which note `i` of a humanization starts: each
/// earlier note has taken its timing draw and then its velocity draw.
pub open spec fn jitter_state(state: u64, timing: i64, velocity: u8, i: nat) -> u64
    decreases i,
{
    if i == 0 {
        state
    } else {
        let s = jitter_state(state, timing, velocity, (i - 1) as nat);
        range_draw(range_draw(s, timing).0, velocity as i64).0
    }
}

proof fn lemma_humanize_from(s: Seq<Note>, state: u64, timing: i64, velocity: u8, length: int, k: nat, st0: u64)
    requires
        timing <= max_range(),
        k <= s.len(),
        jitter_state(st0, timing, velocity, k) == state,
    ensures
        humanize_notes(s.subrange(k as int, s.len() as int), state, timing, velocity, length).len() == s.len() - k,
        forall|i: int|
            k <= i < s.len() ==> {
                let h = #[trigger] humanize_notes(s.subrange(k as int, s.len() as int), state, timing, velocity, length)[i - k];
                let st = jitter_state(st0, timing, velocity, i as nat);
                let (s1, dt) = range_draw(st, timing);
                let dv = range_draw(s1, velocity as i64).1;
                &&& h == Note {
                    start: Tick(clamp_int(s[i].start.0 + dt, 0, length) as i64),
                    velocity: Velocity::of(clamp_int(s[i].velocity.value() + dv, 1, 127)),
                    ..s[i]
                }
                &&& (timing <= 0 ==> dt == 0)
                &&& (timing > 0 ==> -timing <= dt <= timing)
                &&& -(velocity as int) <= dv <= velocity
            },
    decreases s.len() - k,
{
    let rest = s.subrange(k as int, s.len() as int);
    if k < s.len() {
        let (s1, dt) = range_draw(state, timing);
        let (s2, dv) = range_draw(s1, velocity as i64);
        crate::rng::lemma_range_draw(state, timing);
        crate::rng::lemma_range_draw(s1, velocity as i64);
        assert(rest[0] == s[k as int]);
        assert(rest.drop_first() =~= s.subrange(k as int + 1, s.len() as int));
        assert(jitter_state(st0, timing, velocity, (k + 1) as nat) == s2);
        lemma_humanize_from(s, s2, timing, velocity, length, (k + 1) as nat, st0);
        let all = humanize_notes(rest, state, timing, velocity, length);
        let tail = humanize_notes(s.subrange(k as int + 1, s.len() as int), s2, timing, velocity, length);
        assert(all == seq![all[0]] + tail);
        assert forall|i: int| k <= i < s.len() implies {
            let h = #[trigger] humanize_notes(s.subrange(k as int, s.len() as int), state, timing, velocity, length)[i - k];
            let st = jitter_state(st0, timing, velocity, i as nat);
            let (s1, dt) = range_draw(st, timing);
            let dv = range_draw(s1, velocity as i64).1;
            &&& h == Note {
                start: Tick(clamp_int(s[i].start.0 + dt, 0, length) as i64),
                velocity: Velocity::of(clamp_int(s[i].velocity.value() + dv, 1, 127)),
                ..s[i]
            }
            &&& (timing <= 0 ==> dt == 0)
            &&& (timing > 0 ==> -timing <= dt <= timing)
            &&& -(velocity as int) <= dv <= velocity
        } by {
            if i > k {
                assert(all[i - k] == tail[i - (k + 1)]);
            }
        }
    }
}

/// Humanizing gives each note its own jitter from the seed: note `i` starts
/// with the generator in `jitter_state(..., i)`, moves its start by the first
/// value drawn (within `±timing`, clamped into `[0, length]`) and its
/// velocity by the second (within `±velocity`, clamped into 1..=127); pitch
/// and duration stay.
pub proof fn law_humanize_jitter(s: Seq<Note>, state: u64, timing: i64, velocity: u8, length: int)
    requires
        timing <= max_range(),
    ensures
        humanize_notes(s, state, timing, velocity, length).len() == s.len(),
        forall|i: int|
            0 <= i < s.len() ==> {
                let h = #[trigger] humanize_notes(s, state, timing, velocity, length)[i];
                let st = jitter_state(state, timing, velocity, i as nat);
                let (s1, dt) = range_draw(st, timing);
                let dv = range_draw(s1, velocity as i64).1;
                &&& h.pitch == s[i].pitch
                &&& h.duration == s[i].duration
                &&& h.start.0 == clamp_int(s[i].start.0 + dt, 0, length) as i64
                &&& h.velocity == Velocity::of(clamp_int(s[i].velocity.value() + dv, 1, 127))
                &&& (timing <= 0 ==> dt == 0)
                &&& (timing > 0 ==> -timing <= dt <= timing)
                &&& -(velocity as int) <= dv <= velocity
            },
{
    assert(s.subrange(0, s.len() as int) =~= s);
    lemma_humanize_from(s, state, timing, velocity, length, 0, state);
    assert forall|i: int| 0 <= i < s.len() implies {
        let h = #[trigger] humanize_notes(s, state, timing, velocity, length)[i];
        let st = jitter_state(state, timing, velocity, i as nat);
        let (s1, dt) = range_draw(st, timing);
        let dv = range_draw(s1, velocity as i64).1;
        &&& h.pitch == s[i].pitch
        &&& h.duration == s[i].duration
        &&& h.start.0 == clamp_int(s[i].start.0 + dt, 0, length) as i64
        &&& h.velocity == Velocity::of(clamp_int(s[i].velocity.value() + dv, 1, 127))
        &&& (timing <= 0 ==> dt == 0)
        &&& (timing > 0 ==> -timing <= dt <= timing)
        &&& -(velocity as int) <= dv <= velocity
    } by {
        let h0 = humanize_notes(s.subrange(0, s.len() as int), state, timing, velocity, length)[i - 0];
        assert(h0 == humanize_notes(s, state, timing, velocity, length)[i]);
    }
}

/// Timing and velocity draw alike: with the same seed and the same amount,
/// the velocity jitter of a velocity-only humanization is, note for note,
/// the timing jitter of a timing-only one.
pub proof fn law_humanize_velocity_mirrors_timing(s: Seq<Note>, state: u64, amount: u8, length: int)
    ensures
        forall|i: int|
            0 <= i < s.len() ==> {
                let d = range_draw(jitter_state(state, amount as i64, 0, i as nat), amount as i64).1;
                &&& -(amount as int) <= d <= amount
                &&& (#[trigger] humanize_notes(s, state, amount as i64, 0, length)[i]).start.0 == clamp_int(
                    s[i].start.0 + d,
                    0,
                    length,
                ) as i64
                &&& humanize_notes(s, state, 0, amount, length)[i].velocity == Velocity::of(
                    clamp_int(s[i].velocity.value() + d, 1, 127),
                )
            },
{
    assert(amount as i64 <= max_range());
    law_humanize_jitter(s, state, amount as i64, 0, length);
    law_humanize_jitter(s, state, 0, amount, length);
    assert forall|i: int| 0 <= i < s.len() implies {
        let d = range_draw(jitter_state(state, amount as i64, 0, i as nat), amount as i64).1;
        &&& -(amount as int) <= d <= amount
        &&& (#[trigger] humanize_notes(s, state, amount as i64, 0, length)[i]).start.0 == clamp_int(
            s[i].start.0 + d,
            0,
            length,
        ) as i64
        &&& humanize_notes(s, state, 0, amount, length)[i].velocity == Velocity::of(
            clamp_int(s[i].velocity.value() + d, 1, 127),
        )
    } by {
        lemma_jitter_states_agree(state, amount, i as nat);
        let st = jitter_state(state, amount as i64, 0, i as nat);
        crate::rng::lemma_range_draw(st, amount as i64);
        crate::rng::lemma_range_draw(st, 0);
        assert(range_draw(st, 0i64).0 == st);
    }
}

/// A timing-only and a velocity-only humanization with the same amount walk
/// the generator through the same states.
proof fn lemma_jitter_states_agree(state: u64, amount: u8, i: nat)
    ensures
        jitter_state(state, amount as i64, 0, i) == jitter_state(state, 0, amount, i),
    decreases i,
{
    if i > 0 {
        lemma_jitter_states_agree(state, amount, (i - 1) as nat);
        let s = jitter_state(state, amount as i64, 0, (i - 1) as nat);
        assert(amount as i64 <= max_range());
        crate::rng::lemma_range_draw(s, 0);
        crate::rng::lemma_range_draw(range_draw(s, amount as i64).0, 0);
    }
}

/// Rounds `value` to the nearest multiple of `grid` (ties go down).
fn nearest_multiple(value: i64, grid: i64) -> (r: i64)
    requires
        grid > 0,
        0 <= value,
        value + grid <= i64::MAX,
    ensures
        r == nearest_multiple_spec(value as int, grid as int),
        value - grid <= r <= value + grid,
{
    let q = value / grid;
    proof {
        assert(0 <= q * grid <= value < q * grid + grid) by (nonlinear_arith)
            requires
                q == value / grid,
                grid > 0,
                value >= 0,
        ;
    }
    let down = q * grid;
    let up = down + grid;
    if value - down <= up - value {
        down
    } else {
        up
    }
}

impl Pattern {
    /// The pattern invariant.
    pub open spec fn wf(&self) -> bool {
        pattern_wf(self@.notes, self@.length)
    }

    /// Builds a pattern from notes, sorting them and growing `length` to fit.
    /// Fails on the first note (in input order) that starts before zero or
    /// has a non-positive duration.
    pub fn new(notes: Vec<Note>, length: Tick) -> (r: Result<Pattern, PatternError>)
        requires
            note_error(notes@) is None ==> forall|i: int|
                0 <= i < notes@.len() ==> note_end(#[trigger] notes@[i]) <= i64::MAX,
        ensures
            r is Err <==> note_error(notes@) is Some,
            r matches Err(e) ==> note_error(notes@) == Some(e),
            r matches Ok(p) ==> p.wf() && is_stable_sort_of(p@.notes, notes@) && p@.length.0
                == max_int(length.0 as int, max_end(notes@)),
    {
        let mut i: usize = 0;
        assert(notes@.subrange(0, notes@.len() as int) =~= notes@);
        while i < notes.len()
            invariant
                i <= notes.len(),
                note_error(notes@) == note_error(notes@.subrange(i as int, notes@.len() as int)),
            decreases notes.len() - i,
        {
            let e = check_note(&notes[i]);
            proof {
                let t = notes@.subrange(i as int, notes@.len() as int);
                assert(t[0] == notes@[i as int]);
                assert(t.drop_first() =~= notes@.subrange(i + 1, notes@.len() as int));
            }
            if e.is_some() {
                return Err(e.unwrap());
            }
            i += 1;
        }
        proof {
            assert(notes@.subrange(notes@.len() as int, notes@.len() as int) =~= Seq::<Note>::empty());
            lemma_note_error_none(notes@);
        }
        Ok(assemble(notes, length))
    }

    /// The empty pattern of a given length.
    pub fn empty(length: Tick) -> (p: Pattern)
        ensures
            p@.notes == Seq::<Note>::empty(),
            p@.length == length,
            p.wf(),
    {
        Pattern { notes: Vec::new(), length }
    }

    /// The notes, sorted by `(start, pitch)`.
    pub fn notes(&self) -> (r: &[Note])
        ensures
            r@ == self@.notes,
    {
        self.notes.as_slice()
    }

    /// Declared pattern length.
    pub fn length(&self) -> (r: Tick)
        ensures
            r == self@.length,
    {
        self.length
    }

    /// A copy of this pattern.
    pub fn copy(&self) -> (r: Pattern)
        ensures
            r@ == self@,
    {
        let mut v: Vec<Note> = Vec::new();
        let mut i: usize = 0;
        while i < self.notes.len()
            invariant
                i <= self.notes.len(),
                v@ == self.notes@.subrange(0, i as int),
            decreases self.notes.len() - i,
        {
            v.push(self.notes[i]);
            proof {
                assert(self.notes@.subrange(0, i + 1) =~= self.notes@.subrange(0, i as int).push(
                    self.notes@[i as int],
                ));
            }
            i += 1;
        }
        assert(self.notes@.subrange(0, self.notes.len() as int) =~= self.notes@);
        Pattern { notes: v, length: self.length }
    }

    /// Chromatic transposition by `semitones`, clamped to the MIDI range.
    pub fn transposed(&self, semitones: i8) -> (p: Pattern)
        requires
            self.wf(),
        ensures
            p.wf(),
            is_stable_sort_of(p@.notes, transpose_notes(self@.notes, semitones)),
            p@.length.0 == max_int(self@.length.0 as int, max_end(transpose_notes(self@.notes, semitones))),
    {
        let mut v: Vec<Note> = Vec::new();
        let mut i: usize = 0;
        while i < self.notes.len()
            invariant
                self.wf(),
                i <= self.notes.len(),
                v@ == transpose_notes(self@.notes.subrange(0, i as int), semitones),
                forall|k: int| 0 <= k < v@.len() ==> note_end(#[trigger] v@[k]) <= self.length.0,
                forall|k: int| 0 <= k < v@.len() ==> #[trigger] note_valid(v@[k]),
            decreases self.notes.len() - i,
        {
            let n = self.notes[i];
            let m = Note { pitch: n.pitch.transposed(semitones), ..n };
            proof {
                assert(note_valid(self@.notes[i as int]));
                assert(transpose_notes(self@.notes.subrange(0, i + 1), semitones) =~= transpose_notes(
                    self@.notes.subrange(0, i as int),
                    semitones,
                ).push(m));
            }
            v.push(m);
            i += 1;
        }
        proof {
            assert(self@.notes.subrange(0, self.notes.len() as int) =~= self@.notes);
        }
        assemble(v, self.length)
    }

    /// Quantizes note starts to a grid: each note moves `strength_pct`
    /// percent (at most 100) of the way to the nearest grid line, then is
    /// clamped into `[0, length]`. Durations are unchanged.
    pub fn quantized(&self, grid: Tick, strength_pct: u8) -> (p: Pattern)
        requires
            self.wf(),
            grid.0 > 0,
            grid.0 * 100 <= i64::MAX,
            self@.length.0 + grid.0 <= i64::MAX,
            forall|i: int| 0 <= i < self@.notes.len() ==> self@.length.0 + (#[trigger] self@.notes[i]).duration.0 <= i64::MAX,
        ensures
            p.wf(),
            is_stable_sort_of(p@.notes, quantize_notes(self@.notes, grid.0 as int, strength_pct, self@.length.0 as int)),
            p@.length.0 == max_int(self@.length.0 as int, max_end(quantize_notes(self@.notes, grid.0 as int, strength_pct, self@.length.0 as int))),
    {
        let strength: i64 = if strength_pct > 100 {
            100
        } else {
            strength_pct as i64
        };
        let mut v: Vec<Note> = Vec::new();
        let mut i: usize = 0;
        while i < self.notes.len()
            invariant
                self.wf(),
                grid.0 > 0,
                grid.0 * 100 <= i64::MAX,
                self@.length.0 + grid.0 <= i64::MAX,
                forall|k: int| 0 <= k < self@.notes.len() ==> self@.length.0 + (#[trigger] self@.notes[k]).duration.0 <= i64::MAX,
                strength == (if strength_pct > 100 { 100 } else { strength_pct as int }),
                i <= self.notes.len(),
                v@ == quantize_notes(self@.notes.subrange(0, i as int), grid.0 as int, strength_pct, self@.length.0 as int),
                forall|k: int| 0 <= k < v@.len() ==> #[trigger] note_valid(v@[k]),
            decreases self.notes.len() - i,
        {
            let n = self.notes[i];
            proof {
                assert(note_valid(self@.notes[i as int]));
                assert(note_end(self@.notes[i as int]) <= self.length.0);
            }
            let target = nearest_multiple(n.start.0, grid.0);
            let diff = target - n.start.0;
            proof {
                assert(-grid.0 * 100 <= diff * strength <= grid.0 * 100) by (nonlinear_arith)
                    requires
                        -grid.0 <= diff <= grid.0,
                        0 <= strength <= 100,
                ;
            }
            let prod = diff * strength;
            let shift: i64 = if prod >= 0 {
                prod / 100
            } else {
                -((-prod) / 100)
            };
            let moved = n.start.0 + shift;
            let clamped: i64 = if moved < 0 {
                0
            } else if moved > self.length.0 {
                self.length.0
            } else {
                moved
            };
            let m = Note { start: Tick(clamped), ..n };
            proof {
                assert(quantize_notes(self@.notes.subrange(0, i + 1), grid.0 as int, strength_pct, self@.length.0 as int) =~= quantize_notes(
                    self@.notes.subrange(0, i as int),
                    grid.0 as int,
                    strength_pct,
                    self@.length.0 as int,
                ).push(m));
            }
            v.push(m);
            i += 1;
        }
        proof {
            assert(self@.notes.subrange(0, self.notes.len() as int) =~= self@.notes);
        }
        assemble(v, self.length)
    }

    /// Humanizes timing and velocity with deterministic, seeded jitter: each
    /// note's start moves by up to `±timing` ticks (clamped into
    /// `[0, length]`) and its velocity by up to `±velocity` steps.
    pub fn humanized(&self, seed: Seed, timing: Tick, velocity: u8) -> (p: Pattern)
        requires
            self.wf(),
            timing.0 <= max_range(),
            self@.length.0 + timing.0 <= i64::MAX,
            forall|i: int| 0 <= i < self@.notes.len() ==> self@.length.0 + (#[trigger] self@.notes[i]).duration.0 <= i64::MAX,
        ensures
            p.wf(),
            is_stable_sort_of(p@.notes, humanize_notes(self@.notes, seed.0, timing.0, velocity, self@.length.0 as int)),
            p@.length.0 == max_int(self@.length.0 as int, max_end(humanize_notes(self@.notes, seed.0, timing.0, velocity, self@.length.0 as int))),
    {
        let mut rng = SplitMix64::new(seed);
        let mut v: Vec<Note> = Vec::new();
        let mut i: usize = 0;
        let ghost total = humanize_notes(self@.notes, seed.0, timing.0, velocity, self@.length.0 as int);
        assert(self@.notes.subrange(0, self@.notes.len() as int) =~= self@.notes);
        assert(v@ + total =~= total);
        while i < self.notes.len()
            invariant
                self.wf(),
                timing.0 <= max_range(),
                self@.length.0 + timing.0 <= i64::MAX,
                forall|k: int| 0 <= k < self@.notes.len() ==> self@.length.0 + (#[trigger] self@.notes[k]).duration.0 <= i64::MAX,
                i <= self.notes.len(),
                total == humanize_notes(self@.notes, seed.0, timing.0, velocity, self@.length.0 as int),
                total == v@ + humanize_notes(self@.notes.subrange(i as int, self@.notes.len() as int), rng.state(), timing.0, velocity, self@.length.0 as int),
                forall|k: int| 0 <= k < v@.len() ==> #[trigger] note_valid(v@[k]),
            decreases self.notes.len() - i,
        {
            let n = self.notes[i];
            proof {
                assert(note_valid(self@.notes[i as int]));
                assert(note_end(self@.notes[i as int]) <= self.length.0);
            }
            let ghost rest = self@.notes.subrange(i as int, self@.notes.len() as int);
            let ghost st = rng.state();
            let dt = rng.in_range(timing.0);
            let dv64 = rng.in_range(velocity as i64);
            let dv = dv64 as i32;
            let vel = Velocity::clamped(n.velocity.get() as i32 + dv);
            let moved = n.start.0 + dt;
            let clamped: i64 = if moved < 0 {
                0
            } else if moved > self.length.0 {
                self.length.0
            } else {
                moved
            };
            let m = Note { start: Tick(clamped), velocity: vel, ..n };
            proof {
                assert(rest[0] == n);
                assert(rest.drop_first() =~= self@.notes.subrange(i + 1, self@.notes.len() as int));
                assert(humanize_notes(rest, st, timing.0, velocity, self@.length.0 as int) == seq![m]
                    + humanize_notes(rest.drop_first(), rng.state(), timing.0, velocity, self@.length.0 as int));
                assert(v@.push(m) + humanize_notes(rest.drop_first(), rng.state(), timing.0, velocity, self@.length.0 as int)
                    =~= v@ + (seq![m] + humanize_notes(rest.drop_first(), rng.state(), timing.0, velocity, self@.length.0 as int)));
            }
            v.push(m);
            i += 1;
        }
        proof {
            assert(self@.notes.subrange(self.notes.len() as int, self@.notes.len() as int) =~= Seq::<Note>::empty());
            assert(v@ + Seq::<Note>::empty() =~= v@);
        }
        assemble(v, self.length)
    }
}

/// Every note of `s` ends at or before `bound` implies the latest end does too.
pub proof fn lemma_max_end_le(s: Seq<Note>, bound: int)
    requires
        forall|i: int| 0 <= i < s.len() ==> note_end(#[trigger] s[i]) <= bound,
        bound >= 0,
    ensures
        max_end(s) <= bound,
    decreases s.len(),
{
    if s.len() > 0 {
        assert forall|i: int| 0 <= i < s.drop_last().len() implies note_end(#[trigger] s.drop_last()[i]) <= bound by {
            assert(s.drop_last()[i] == s[i]);
        }
        lemma_max_end_le(s.drop_last(), bound);
    }
}


/// A sorted sequence is its own stable sort, so any stable sort of it equals it.
proof fn lemma_sorted_is_own_sort(r: Seq<Note>, s: Seq<Note>)
    requires
        sorted_by_key(s),
        is_stable_sort_of(r, s),
    ensures
        r == s,
{
    lemma_stable_sort_unique(r, s);
}

/// Transposition leaves starts and durations, hence the latest end, alone.
proof fn lemma_max_end_transpose(s: Seq<Note>, semitones: i8)
    ensures
        max_end(transpose_notes(s, semitones)) == max_end(s),
    decreases s.len(),
{
    if s.len() > 0 {
        assert(transpose_notes(s, semitones).drop_last() =~= transpose_notes(s.drop_last(), semitones));
        lemma_max_end_transpose(s.drop_last(), semitones);
    }
}

/// Transposing up and then back down by the same amount gives back the
/// pattern, as long as no note is clamped at the edge of the MIDI range.
pub proof fn law_transpose_round_trip(p: PatternView, semitones: i8, q: PatternView, r: PatternView)
    requires
        pattern_wf(p.notes, p.length),
        p.length.0 >= 0,
        semitones > i8::MIN,
        forall|i: int| 0 <= i < p.notes.len() ==> (#[trigger] p.notes[i]).pitch.note <= 127,
        forall|i: int| 0 <= i < p.notes.len() ==> 0 <= (#[trigger] p.notes[i]).pitch.note + semitones <= 127,
        is_stable_sort_of(q.notes, transpose_notes(p.notes, semitones)),
        q.length.0 == max_int(p.length.0 as int, max_end(transpose_notes(p.notes, semitones))),
        is_stable_sort_of(r.notes, transpose_notes(q.notes, (-semitones) as i8)),
        r.length.0 == max_int(q.length.0 as int, max_end(transpose_notes(q.notes, (-semitones) as i8))),
    ensures
        r == p,
{
    let t1 = transpose_notes(p.notes, semitones);
    assert forall|i: int, j: int| 0 <= i <= j < t1.len() implies t1[i].key() <= t1[j].key() by {
        assert(p.notes[i].key() <= p.notes[j].key());
        assert(0 <= p.notes[i].pitch.note + semitones <= 127);
        assert(0 <= p.notes[j].pitch.note + semitones <= 127);
    }
    lemma_sorted_is_own_sort(q.notes, t1);
    let t2 = transpose_notes(q.notes, (-semitones) as i8);
    let back = (-semitones) as i8;
    assert(back == -semitones);
    assert forall|i: int| 0 <= i < t2.len() implies t2[i] == p.notes[i] by {
        let n = p.notes[i];
        assert(0 <= n.pitch.note + semitones <= 127);
        assert(n.pitch.note <= 127);
        assert(q.notes[i] == t1[i]);
        assert(t1[i].pitch.note == n.pitch.note + semitones);
        let m = q.notes[i];
        assert(t2[i] == Note { pitch: transpose_pitch(m.pitch, back), ..m });
        assert(m.pitch.note + back == n.pitch.note);
        assert(clamp_int(m.pitch.note + back, 0, 127) == n.pitch.note);
        assert(t2[i].pitch.note == n.pitch.note);
    }
    assert(t2 =~= p.notes);
    lemma_sorted_is_own_sort(r.notes, p.notes);
    lemma_max_end_transpose(p.notes, semitones);
    lemma_max_end_transpose(q.notes, (-semitones) as i8);
    lemma_max_end_le(p.notes, p.length.0 as int);
}

/// A start on the grid and inside `[0, length]` is a fixed point of full
/// quantization.
proof fn lemma_on_grid_fixed(start: int, grid: int, length: int)
    requires
        grid > 0,
        0 <= start <= length,
        start % grid == 0,
    ensures
        quantize_start(start, grid, 100, length) == start,
{
    assert(nearest_multiple_spec(start, grid) == start) by (nonlinear_arith)
        requires
            grid > 0,
            start >= 0,
            start % grid == 0,
    {
        assert(start == (start / grid) * grid);
    }
}

/// A full-strength quantized start is on the grid unless it was clamped to a
/// length that is off the grid.
proof fn lemma_full_quantize_on_grid(start: int, grid: int, length: int)
    requires
        grid > 0,
        0 <= start,
        0 <= length,
        nearest_multiple_spec(start, grid) <= length || length % grid == 0,
    ensures
        quantize_start(start, grid, 100, length) % grid == 0,
        0 <= quantize_start(start, grid, 100, length) <= length,
{
    let t = nearest_multiple_spec(start, grid);
    assert(t % grid == 0 && t >= 0 && -grid <= t - start <= grid) by (nonlinear_arith)
        requires
            grid > 0,
            start >= 0,
            t == nearest_multiple_spec(start, grid),
    {
        let d = (start / grid) * grid;
        assert(d <= start < d + grid);
        assert(d % grid == 0);
        assert((d + grid) % grid == 0);
    }
    assert(div_trunc((t - start) * 100, 100) == t - start);
}

/// Quantizing at full strength twice is the same as once, provided no note
/// is pushed off the grid by the clamp to the pattern length (every note's
/// nearest grid line lies within the length, or the length is on the grid).
pub proof fn law_full_quantize_idempotent(p: PatternView, grid: int, q: PatternView, r: PatternView)
    requires
        pattern_wf(p.notes, p.length),
        grid > 0,
        forall|i: int| 0 <= i < p.notes.len() ==> nearest_multiple_spec((#[trigger] p.notes[i]).start.0 as int, grid)
            <= p.length.0 || (p.length.0 as int) % grid == 0,
        is_stable_sort_of(q.notes, quantize_notes(p.notes, grid, 100, p.length.0 as int)),
        q.length.0 == max_int(p.length.0 as int, max_end(quantize_notes(p.notes, grid, 100, p.length.0 as int))),
        is_stable_sort_of(r.notes, quantize_notes(q.notes, grid, 100, q.length.0 as int)),
        r.length.0 == max_int(q.length.0 as int, max_end(quantize_notes(q.notes, grid, 100, q.length.0 as int))),
    ensures
        r == q,
{
    let len = p.length.0 as int;
    let t1 = quantize_notes(p.notes, grid, 100, len);
    lemma_max_end_bounds(t1);
    assert forall|i: int| 0 <= i < q.notes.len() implies ((#[trigger] q.notes[i]).start.0 as int) % grid == 0
        && 0 <= q.notes[i].start.0 <= q.length.0 && note_end(q.notes[i]) <= q.length.0 by {
        let x = q.notes[i];
        assert(q.notes.contains(x));
        lemma_stable_sort_same_elements(q.notes, t1, x);
        let j = choose|j: int| 0 <= j < t1.len() && t1[j] == x;
        let n = p.notes[j];
        assert(note_valid(n));
        assert(note_end(n) <= len);
        lemma_full_quantize_on_grid(n.start.0 as int, grid, len);
        assert(note_end(t1[j]) <= max_end(t1));
    }
    let t2 = quantize_notes(q.notes, grid, 100, q.length.0 as int);
    assert forall|i: int| 0 <= i < t2.len() implies t2[i] == q.notes[i] by {
        lemma_on_grid_fixed(q.notes[i].start.0 as int, grid, q.length.0 as int);
    }
    assert(t2 =~= q.notes);
    lemma_sorted_is_own_sort(r.notes, q.notes);
    lemma_max_end_bounds(q.notes);
    if q.notes.len() > 0 {
        lemma_max_end_le(q.notes, q.length.0 as int);
    }
}

} // verus!
