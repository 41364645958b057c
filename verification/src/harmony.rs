//! Music theory: pitch classes, scales, chord qualities and chord symbols.

use vstd::prelude::*;
use crate::core_types::Pitch;
use crate::text::{
    ascii_lower, ascii_upper_char, chars_eq, chars_of, is_ws, lower_ascii_chars, push_char,
    string_of, to_ascii_upper, trim, trimmed,
};

verus! {

broadcast use vstd::seq_lib::group_seq_properties;

// ---------------------------------------------------------------- pitch classes

/// One of the twelve pitch classes, as a chromatic index (0 = C … 11 = B).
#[derive(Debug, Clone, Copy, PartialEq, Eq, Structural, Hash)]
pub struct PitchClass(u8);

impl PitchClass {
    #[verifier::type_invariant]
    spec fn in_octave_range(self) -> bool {
        self.0 < 12
    }

    /// The chromatic index.
    pub closed spec fn idx(self) -> int {
        (self.0 % 12) as int
    }

    /// The index lies in 0..12.
    pub proof fn lemma_idx(self)
        ensures
            0 <= self.idx() < 12,
    {
    }

    /// The stored index is canonical (below 12). Every pitch class a program
    /// holds is canonical; the functions below say so of what they return
    /// and of what they are given.
    pub closed spec fn wf(self) -> bool {
        self.0 < 12
    }

    /// A canonical pitch class is determined by its index.
    pub proof fn lemma_idx_determines(self, other: PitchClass)
        requires
            self.wf(),
            other.wf(),
            self.idx() == other.idx(),
        ensures
            self == other,
    {
    }

    /// Creates a pitch class from a chromatic index, taken modulo 12.
    pub fn new(index: u8) -> (p: PitchClass)
        ensures
            p.idx() == index % 12,
            p.wf(),
    {
        PitchClass(index % 12)
    }

    /// The chromatic index (0–11).
    pub fn index(self) -> (r: u8)
        ensures
            r == self.idx(),
            r < 12,
            self.wf(),
    {
        proof {
            use_type_invariant(self);
        }
        self.0
    }

    /// Pitch class of a MIDI note number.
    pub fn of(pitch: Pitch) -> (p: PitchClass)
        ensures
            p.idx() == pitch.note % 12,
            p.wf(),
    {
        PitchClass(pitch.note % 12)
    }

    /// Transposes by `semitones` (wraps around the octave).
    pub fn transposed(self, semitones: i8) -> (p: PitchClass)
        ensures
            p.idx() == (self.idx() + semitones) % 12,
            p.wf(),
            self.wf(),
    {
        proof {
            use_type_invariant(self);
        }
        let shifted: i16 = self.0 as i16 + semitones as i16 + 144;
        let idx: i16 = shifted % 12;
        assert(idx == (self.0 + semitones) % 12) by (nonlinear_arith)
            requires
                idx == shifted % 12,
                shifted == self.0 + semitones + 144,
                shifted >= 0,
        ;
        PitchClass(idx as u8)
    }

    /// The pitch in a given octave (octave 4 contains middle C = 60), clamped
    /// to the MIDI range.
    pub fn in_octave(self, octave: i8) -> (p: Pitch)
        ensures
            p.note == crate::core_types::clamp_int((octave + 1) * 12 + self.idx(), 0, 127),
            p.cents == 0,
    {
        proof {
            use_type_invariant(self);
        }
        let note: i16 = (octave as i16 + 1) * 12 + self.0 as i16;
        let clamped: i16 = if note < 0 {
            0
        } else if note > 127 {
            127
        } else {
            note
        };
        Pitch::new(clamped as u8)
    }
}

// ---------------------------------------------------------------- scales

/// Scale species, described by their interval pattern from the tonic.
#[derive(Debug, Clone, Copy, PartialEq, Eq, Structural, Hash)]
pub enum ScaleKind {
    /// Ionian mode (natural major).
    Major,
    /// Aeolian mode (natural minor).
    NaturalMinor,
    /// Harmonic minor.
    HarmonicMinor,
    /// Melodic minor (ascending form).
    MelodicMinor,
    /// Dorian mode.
    Dorian,
    /// Mixolydian mode.
    Mixolydian,
    /// Major pentatonic.
    MajorPentatonic,
    /// Minor pentatonic.
    MinorPentatonic,
}

/// Semitone offsets of a scale from its tonic, ascending within one octave.
pub open spec fn scale_intervals(k: ScaleKind) -> Seq<u8> {
    match k {
        ScaleKind::Major => seq![0u8, 2, 4, 5, 7, 9, 11],
        ScaleKind::NaturalMinor => seq![0u8, 2, 3, 5, 7, 8, 10],
        ScaleKind::HarmonicMinor => seq![0u8, 2, 3, 5, 7, 8, 11],
        ScaleKind::MelodicMinor => seq![0u8, 2, 3, 5, 7, 9, 11],
        ScaleKind::Dorian => seq![0u8, 2, 3, 5, 7, 9, 10],
        ScaleKind::Mixolydian => seq![0u8, 2, 4, 5, 7, 9, 10],
        ScaleKind::MajorPentatonic => seq![0u8, 2, 4, 7, 9],
        ScaleKind::MinorPentatonic => seq![0u8, 3, 5, 7, 10],
    }
}

impl ScaleKind {
    /// Semitone offsets from the tonic, ascending within one octave.
    pub fn intervals(self) -> (r: &'static [u8])
        ensures
            r@ == scale_intervals(self),
    {
        match self {
            ScaleKind::Major => &[0, 2, 4, 5, 7, 9, 11],
            ScaleKind::NaturalMinor => &[0, 2, 3, 5, 7, 8, 10],
            ScaleKind::HarmonicMinor => &[0, 2, 3, 5, 7, 8, 11],
            ScaleKind::MelodicMinor => &[0, 2, 3, 5, 7, 9, 11],
            ScaleKind::Dorian => &[0, 2, 3, 5, 7, 9, 10],
            ScaleKind::Mixolydian => &[0, 2, 4, 5, 7, 9, 10],
            ScaleKind::MajorPentatonic => &[0, 2, 4, 7, 9],
            ScaleKind::MinorPentatonic => &[0, 3, 5, 7, 10],
        }
    }
}

/// A scale: a tonic plus a [`ScaleKind`].
#[derive(Debug, Clone, Copy, PartialEq, Eq, Structural, Hash)]
pub struct Scale {
    /// The tonic pitch class.
    pub tonic: PitchClass,
    /// The scale species.
    pub kind: ScaleKind,
}

/// Whether pitch class `pc` belongs to the scale of kind `k` on `tonic`
/// (indices as chromatic integers).
pub open spec fn scale_has(tonic: int, k: ScaleKind, pc: int) -> bool {
    scale_intervals(k).contains(((pc - tonic) % 12) as u8)
}

impl Scale {
    /// Whether the scale contains a pitch class.
    pub fn contains(&self, pc: PitchClass) -> (r: bool)
        ensures
            r == scale_has(self.tonic.idx(), self.kind, pc.idx()),
            pc.wf(),
            self.tonic.wf(),
    {
        let a = pc.index();
        let b = self.tonic.index();
        let rel: u8 = if a >= b {
            a - b
        } else {
            a + 12 - b
        };
        assert(rel == (a - b) % 12) by (nonlinear_arith)
            requires
                a < 12,
                b < 12,
                rel == (if a >= b {
                    a - b
                } else {
                    a + 12 - b
                }),
        ;
        assert(rel == ((pc.idx() - self.tonic.idx()) % 12) as u8);
        let iv = self.kind.intervals();
        let mut i: usize = 0;
        while i < iv.len()
            invariant
                i <= iv@.len(),
                iv@ == scale_intervals(self.kind),
                rel == ((pc.idx() - self.tonic.idx()) % 12) as u8,
                pc.wf(),
                self.tonic.wf(),
                forall|k: int| 0 <= k < i ==> iv@[k] != rel,
            decreases iv.len() - i,
        {
            if iv[i] == rel {
                assert(iv@.contains(rel));
                return true;
            }
            i += 1;
        }
        false
    }

    /// The scale degrees as pitch classes, starting at the tonic.
    pub fn pitch_classes(&self) -> (r: Vec<PitchClass>)
        ensures
            r@.len() == scale_intervals(self.kind).len(),
            forall|k: int|
                0 <= k < r@.len() ==> (#[trigger] r@[k]).idx() == (self.tonic.idx()
                    + scale_intervals(self.kind)[k]) % 12 && r@[k].wf(),
            self.tonic.wf(),
    {
        proof {
            use_type_invariant(self.tonic);
        }
        let iv = self.kind.intervals();
        let mut r: Vec<PitchClass> = Vec::new();
        let mut i: usize = 0;
        while i < iv.len()
            invariant
                i <= iv@.len(),
                iv@ == scale_intervals(self.kind),
                r@.len() == i,
                forall|k: int|
                    0 <= k < i ==> (#[trigger] r@[k]).idx() == (self.tonic.idx() + iv@[k]) % 12 && r@[k].wf(),
            decreases iv.len() - i,
        {
            assert(iv@[i as int] < 12);
            r.push(self.tonic.transposed(iv[i] as i8));
            i += 1;
        }
        r
    }
}

/// Scale membership is transposition-invariant: moving the tonic and the
/// pitch class by the same interval keeps the answer.
pub proof fn law_scale_membership_transposes(tonic: int, k: ScaleKind, pc: int, d: int)
    ensures
        scale_has((tonic + d) % 12, k, (pc + d) % 12) == scale_has(tonic, k, pc),
{
    assert(((pc + d) % 12 - (tonic + d) % 12) % 12 == (pc - tonic) % 12) by (nonlinear_arith);
}

proof fn lemma_contains3(s: Seq<u8>, x: u8)
    requires
        s.len() == 3,
    ensures
        s.contains(x) <==> (x == s[0] || x == s[1] || x == s[2]),
{
    if s.contains(x) {
        let i = choose|i: int| 0 <= i < s.len() && s[i] == x;
        assert(i == 0 || i == 1 || i == 2);
    }
    if x == s[0] || x == s[1] || x == s[2] {
        if x == s[0] {
            assert(s[0] == x);
        } else if x == s[1] {
            assert(s[1] == x);
        } else {
            assert(s[2] == x);
        }
    }
}

proof fn lemma_contains5(s: Seq<u8>, x: u8)
    requires
        s.len() == 5,
    ensures
        s.contains(x) <==> (x == s[0] || x == s[1] || x == s[2] || x == s[3] || x == s[4]),
{
    if s.contains(x) {
        let i = choose|i: int| 0 <= i < s.len() && s[i] == x;
        assert(i == 0 || i == 1 || i == 2 || i == 3 || i == 4);
    }
    if x == s[0] {
        assert(s[0] == x);
    } else if x == s[1] {
        assert(s[1] == x);
    } else if x == s[2] {
        assert(s[2] == x);
    } else if x == s[3] {
        assert(s[3] == x);
    } else if x == s[4] {
        assert(s[4] == x);
    }
}

proof fn lemma_contains7(s: Seq<u8>, x: u8)
    requires
        s.len() == 7,
    ensures
        s.contains(x) <==> (x == s[0] || x == s[1] || x == s[2] || x == s[3] || x == s[4] || x == s[5] || x == s[6]),
{
    if s.contains(x) {
        let i = choose|i: int| 0 <= i < s.len() && s[i] == x;
        assert(i == 0 || i == 1 || i == 2 || i == 3 || i == 4 || i == 5 || i == 6);
    }
    if x == s[0] {
        assert(s[0] == x);
    } else if x == s[1] {
        assert(s[1] == x);
    } else if x == s[2] {
        assert(s[2] == x);
    } else if x == s[3] {
        assert(s[3] == x);
    } else if x == s[4] {
        assert(s[4] == x);
    } else if x == s[5] {
        assert(s[5] == x);
    } else if x == s[6] {
        assert(s[6] == x);
    }
}

/// Which degrees (semitones above the tonic, 0–11) a scale of kind `k`
/// holds, spelled out degree by degree.
pub(crate) proof fn lemma_scale_degrees(k: ScaleKind, d: int)
    requires
        0 <= d < 12,
    ensures
        scale_intervals(k).contains(d as u8) <==> match k {
            ScaleKind::Major => d == 0 || d == 2 || d == 4 || d == 5 || d == 7 || d == 9 || d == 11,
            ScaleKind::NaturalMinor => d == 0 || d == 2 || d == 3 || d == 5 || d == 7 || d == 8 || d == 10,
            ScaleKind::HarmonicMinor => d == 0 || d == 2 || d == 3 || d == 5 || d == 7 || d == 8 || d == 11,
            ScaleKind::MelodicMinor => d == 0 || d == 2 || d == 3 || d == 5 || d == 7 || d == 9 || d == 11,
            ScaleKind::Dorian => d == 0 || d == 2 || d == 3 || d == 5 || d == 7 || d == 9 || d == 10,
            ScaleKind::Mixolydian => d == 0 || d == 2 || d == 4 || d == 5 || d == 7 || d == 9 || d == 10,
            ScaleKind::MajorPentatonic => d == 0 || d == 2 || d == 4 || d == 7 || d == 9,
            ScaleKind::MinorPentatonic => d == 0 || d == 3 || d == 5 || d == 7 || d == 10,
        },
{
    let s = scale_intervals(k);
    match k {
        ScaleKind::MajorPentatonic => lemma_contains5(s, d as u8),
        ScaleKind::MinorPentatonic => lemma_contains5(s, d as u8),
        _ => lemma_contains7(s, d as u8),
    }
}

/// The degree of `pc` above `t + c` is its degree above `t` lowered by `c`.
proof fn lemma_shift_degree(t: int, pc: int, c: int)
    requires
        0 <= c < 12,
    ensures
        (pc - (t + c)) % 12 == ((pc - t) % 12 - c) % 12,
        (pc - (t - c)) % 12 == ((pc - t) % 12 + c) % 12,
        0 <= (pc - t) % 12 < 12,
{
    vstd::arithmetic::div_mod::lemma_sub_mod_noop(pc - t, c, 12);
    vstd::arithmetic::div_mod::lemma_add_mod_noop(pc - t, c, 12);
    assert(c % 12 == c);
    assert(pc - (t + c) == (pc - t) - c);
    assert(pc - (t - c) == (pc - t) + c);
}

/// The modes are rotations of the major scale: Dorian on `t` holds the notes
/// of the major scale a whole tone below, Mixolydian those of the major scale
/// a fourth above (G Mixolydian is C major from G), and the natural minor
/// those of its relative major a minor third above; the minor pentatonic is
/// likewise the major pentatonic of its relative major.
pub proof fn law_modes_rotate_major(t: int, pc: int)
    ensures
        scale_has(t, ScaleKind::Dorian, pc) == scale_has(t - 2, ScaleKind::Major, pc),
        scale_has(t, ScaleKind::Mixolydian, pc) == scale_has(t + 5, ScaleKind::Major, pc),
        scale_has(t, ScaleKind::NaturalMinor, pc) == scale_has(t + 3, ScaleKind::Major, pc),
        scale_has(t, ScaleKind::MinorPentatonic, pc) == scale_has(t + 3, ScaleKind::MajorPentatonic, pc),
{
    let d = (pc - t) % 12;
    lemma_shift_degree(t, pc, 2);
    lemma_shift_degree(t, pc, 5);
    lemma_shift_degree(t, pc, 3);
    let dm2 = (pc - (t - 2)) % 12;
    let d5 = (pc - (t + 5)) % 12;
    let d3 = (pc - (t + 3)) % 12;
    assert(0 <= dm2 < 12 && 0 <= d5 < 12 && 0 <= d3 < 12);
    lemma_scale_degrees(ScaleKind::Dorian, d);
    lemma_scale_degrees(ScaleKind::Mixolydian, d);
    lemma_scale_degrees(ScaleKind::NaturalMinor, d);
    lemma_scale_degrees(ScaleKind::MinorPentatonic, d);
    lemma_scale_degrees(ScaleKind::Major, dm2);
    lemma_scale_degrees(ScaleKind::Major, d5);
    lemma_scale_degrees(ScaleKind::Major, d3);
    lemma_scale_degrees(ScaleKind::MajorPentatonic, d3);
    assert(d == 0 || d == 1 || d == 2 || d == 3 || d == 4 || d == 5 || d == 6 || d == 7 || d == 8 || d == 9 || d == 10 || d == 11);
}

/// The other scales are the major and natural minor scales altered: the
/// harmonic minor raises the natural minor's seventh (10 to 11 semitones),
/// the melodic minor is the major scale with a minor third, and the major
/// pentatonic is the major scale without its fourth and seventh.
pub proof fn law_altered_scales(t: int, pc: int)
    ensures
        scale_has(t, ScaleKind::HarmonicMinor, pc) == ((scale_has(t, ScaleKind::NaturalMinor, pc) && (pc - t) % 12 != 10)
            || (pc - t) % 12 == 11),
        scale_has(t, ScaleKind::MelodicMinor, pc) == ((scale_has(t, ScaleKind::Major, pc) && (pc - t) % 12 != 4) || (pc
            - t) % 12 == 3),
        scale_has(t, ScaleKind::MajorPentatonic, pc) == (scale_has(t, ScaleKind::Major, pc) && (pc - t) % 12 != 5 && (pc
            - t) % 12 != 11),
{
    let d = (pc - t) % 12;
    lemma_shift_degree(t, pc, 0);
    lemma_scale_degrees(ScaleKind::HarmonicMinor, d);
    lemma_scale_degrees(ScaleKind::NaturalMinor, d);
    lemma_scale_degrees(ScaleKind::MelodicMinor, d);
    lemma_scale_degrees(ScaleKind::Major, d);
    lemma_scale_degrees(ScaleKind::MajorPentatonic, d);
    assert(d == 0 || d == 1 || d == 2 || d == 3 || d == 4 || d == 5 || d == 6 || d == 7 || d == 8 || d == 9 || d == 10 || d == 11);
}

/// The major scale is exactly the notes of its three primary major triads:
/// those on the tonic (I), a fourth above (IV) and a fifth above (V).
pub proof fn law_major_scale_is_primary_triads(t: int, pc: int)
    ensures
        scale_has(t, ScaleKind::Major, pc) == (chord_intervals(ChordQuality::Major).contains(((pc - t) % 12) as u8)
            || chord_intervals(ChordQuality::Major).contains(((pc - (t + 5)) % 12) as u8)
            || chord_intervals(ChordQuality::Major).contains(((pc - (t + 7)) % 12) as u8)),
{
    let d = (pc - t) % 12;
    lemma_shift_degree(t, pc, 5);
    lemma_shift_degree(t, pc, 7);
    let d5 = (pc - (t + 5)) % 12;
    let d7 = (pc - (t + 7)) % 12;
    let tri = chord_intervals(ChordQuality::Major);
    lemma_contains3(tri, d as u8);
    lemma_contains3(tri, d5 as u8);
    lemma_contains3(tri, d7 as u8);
    lemma_scale_degrees(ScaleKind::Major, d);
    assert(d == 0 || d == 1 || d == 2 || d == 3 || d == 4 || d == 5 || d == 6 || d == 7 || d == 8 || d == 9 || d == 10 || d == 11);
}

// ---------------------------------------------------------------- chords

/// The chord qualities are built from the scales: the major and minor triads
/// stack the first, third and fifth degrees of the major and natural minor
/// scales; the diminished triad lowers the minor triad's fifth and the
/// augmented raises the major triad's; the suspended fourth replaces the
/// major third with the scale's fourth; and the seventh chords add the
/// seventh of the Mixolydian (dominant), major (major seventh) and natural
/// minor (minor seventh) scales.
pub proof fn law_chord_qualities_from_scales()
    ensures
        chord_intervals(ChordQuality::Major) == seq![
            scale_intervals(ScaleKind::Major)[0],
            scale_intervals(ScaleKind::Major)[2],
            scale_intervals(ScaleKind::Major)[4],
        ],
        chord_intervals(ChordQuality::Minor) == seq![
            scale_intervals(ScaleKind::NaturalMinor)[0],
            scale_intervals(ScaleKind::NaturalMinor)[2],
            scale_intervals(ScaleKind::NaturalMinor)[4],
        ],
        chord_intervals(ChordQuality::Diminished) == chord_intervals(ChordQuality::Minor).update(
            2,
            (chord_intervals(ChordQuality::Minor)[2] - 1) as u8,
        ),
        chord_intervals(ChordQuality::Augmented) == chord_intervals(ChordQuality::Major).update(
            2,
            (chord_intervals(ChordQuality::Major)[2] + 1) as u8,
        ),
        chord_intervals(ChordQuality::Sus4) == chord_intervals(ChordQuality::Major).update(
            1,
            scale_intervals(ScaleKind::Major)[3],
        ),
        chord_intervals(ChordQuality::Dominant7) == chord_intervals(ChordQuality::Major).push(
            scale_intervals(ScaleKind::Mixolydian)[6],
        ),
        chord_intervals(ChordQuality::Major7) == chord_intervals(ChordQuality::Major).push(
            scale_intervals(ScaleKind::Major)[6],
        ),
        chord_intervals(ChordQuality::Minor7) == chord_intervals(ChordQuality::Minor).push(
            scale_intervals(ScaleKind::NaturalMinor)[6],
        ),
{
    assert(chord_intervals(ChordQuality::Major) =~= seq![
        scale_intervals(ScaleKind::Major)[0],
        scale_intervals(ScaleKind::Major)[2],
        scale_intervals(ScaleKind::Major)[4],
    ]);
    assert(chord_intervals(ChordQuality::Minor) =~= seq![
        scale_intervals(ScaleKind::NaturalMinor)[0],
        scale_intervals(ScaleKind::NaturalMinor)[2],
        scale_intervals(ScaleKind::NaturalMinor)[4],
    ]);
    assert(chord_intervals(ChordQuality::Diminished) =~= chord_intervals(ChordQuality::Minor).update(
        2,
        (chord_intervals(ChordQuality::Minor)[2] - 1) as u8,
    ));
    assert(chord_intervals(ChordQuality::Augmented) =~= chord_intervals(ChordQuality::Major).update(
        2,
        (chord_intervals(ChordQuality::Major)[2] + 1) as u8,
    ));
    assert(chord_intervals(ChordQuality::Sus4) =~= chord_intervals(ChordQuality::Major).update(
        1,
        scale_intervals(ScaleKind::Major)[3],
    ));
    assert(chord_intervals(ChordQuality::Dominant7) =~= chord_intervals(ChordQuality::Major).push(
        scale_intervals(ScaleKind::Mixolydian)[6],
    ));
    assert(chord_intervals(ChordQuality::Major7) =~= chord_intervals(ChordQuality::Major).push(
        scale_intervals(ScaleKind::Major)[6],
    ));
    assert(chord_intervals(ChordQuality::Minor7) =~= chord_intervals(ChordQuality::Minor).push(
        scale_intervals(ScaleKind::NaturalMinor)[6],
    ));
}



/// Chord qualities, described by their interval structure over the root.
#[derive(Debug, Clone, Copy, PartialEq, Eq, Structural, Hash)]
pub enum ChordQuality {
    /// Major triad.
    Major,
    /// Minor triad.
    Minor,
    /// Diminished triad.
    Diminished,
    /// Augmented triad.
    Augmented,
    /// Dominant seventh.
    Dominant7,
    /// Major seventh.
    Major7,
    /// Minor seventh.
    Minor7,
    /// Suspended fourth.
    Sus4,
}

/// Semitone offsets of a chord quality from the root.
pub open spec fn chord_intervals(q: ChordQuality) -> Seq<u8> {
    match q {
        ChordQuality::Major => seq![0u8, 4, 7],
        ChordQuality::Minor => seq![0u8, 3, 7],
        ChordQuality::Diminished => seq![0u8, 3, 6],
        ChordQuality::Augmented => seq![0u8, 4, 8],
        ChordQuality::Dominant7 => seq![0u8, 4, 7, 10],
        ChordQuality::Major7 => seq![0u8, 4, 7, 11],
        ChordQuality::Minor7 => seq![0u8, 3, 7, 10],
        ChordQuality::Sus4 => seq![0u8, 5, 7],
    }
}

impl ChordQuality {
    /// Semitone offsets from the root.
    pub fn intervals(self) -> (r: &'static [u8])
        ensures
            r@ == chord_intervals(self),
    {
        match self {
            ChordQuality::Major => &[0, 4, 7],
            ChordQuality::Minor => &[0, 3, 7],
            ChordQuality::Diminished => &[0, 3, 6],
            ChordQuality::Augmented => &[0, 4, 8],
            ChordQuality::Dominant7 => &[0, 4, 7, 10],
            ChordQuality::Major7 => &[0, 4, 7, 11],
            ChordQuality::Minor7 => &[0, 3, 7, 10],
            ChordQuality::Sus4 => &[0, 5, 7],
        }
    }
}

/// A chord symbol: root plus quality.
#[derive(Debug, Clone, Copy, PartialEq, Eq, Structural, Hash)]
pub struct Chord {
    /// The chord root.
    pub root: PitchClass,
    /// The chord quality.
    pub quality: ChordQuality,
}

impl Chord {
    /// Spells the chord as concrete pitches in close position from `octave`.
    pub fn pitches(&self, octave: i8) -> (r: Vec<Pitch>)
        ensures
            r@.len() == chord_intervals(self.quality).len(),
            forall|k: int|
                0 <= k < r@.len() ==> (#[trigger] r@[k]).note == crate::core_types::clamp_int(
                    crate::core_types::clamp_int((octave + 1) * 12 + self.root.idx(), 0, 127)
                        + chord_intervals(self.quality)[k],
                    0,
                    127,
                ) && r@[k].cents == 0,
    {
        let root = self.root.in_octave(octave);
        let iv = self.quality.intervals();
        let mut r: Vec<Pitch> = Vec::new();
        let mut i: usize = 0;
        while i < iv.len()
            invariant
                i <= iv@.len(),
                iv@ == chord_intervals(self.quality),
                root.note <= 127,
                root.note == crate::core_types::clamp_int((octave + 1) * 12 + self.root.idx(), 0, 127),
                r@.len() == i,
                forall|k: int|
                    0 <= k < i ==> (#[trigger] r@[k]).note == crate::core_types::clamp_int(
                        root.note + iv@[k],
                        0,
                        127,
                    ) && r@[k].cents == 0,
            decreases iv.len() - i,
        {
            assert(iv@[i as int] < 12);
            let sum: u8 = root.note + iv[i];
            let n: u8 = if sum > 127 {
                127
            } else {
                sum
            };
            r.push(Pitch::new(n));
            i += 1;
        }
        r
    }
}

// ---------------------------------------------------------------- parsing

/// A symbol that could not be parsed.
#[derive(Debug, Clone, PartialEq, Eq)]
pub struct ParseError(pub String);

impl ParseError {
    /// Human-readable description: `cannot parse '<text>'`.
    pub fn message(&self) -> (r: String)
        ensures
            r@ == "cannot parse '"@ + self.0@ + "'"@,
    {
        let mut v = chars_of("cannot parse '");
        let t = chars_of(self.0.as_str());
        let q = chars_of("'");
        proof {
            reveal_strlit("'");
        }
        assert(q@.len() == 1);
        let ghost a = v@;
        let mut i: usize = 0;
        while i < t.len()
            invariant
                i <= t.len(),
                v@ == a + t@.subrange(0, i as int),
            decreases t.len() - i,
        {
            v.push(t[i]);
            i += 1;
        }
        assert(t@.subrange(0, t@.len() as int) =~= t@);
        v.push(q[0]);
        assert(v@ =~= a + t@ + q@);
        let r = string_of(&v);
        assert(r@ =~= "cannot parse '"@ + self.0@ + "'"@);
        r
    }
}

/// The chromatic index of a natural note letter (upper case).
pub open spec fn letter_index(c: char) -> Option<int> {
    if c == 'C' {
        Some(0)
    } else if c == 'D' {
        Some(2)
    } else if c == 'E' {
        Some(4)
    } else if c == 'F' {
        Some(5)
    } else if c == 'G' {
        Some(7)
    } else if c == 'A' {
        Some(9)
    } else if c == 'B' {
        Some(11)
    } else {
        None
    }
}

/// The semitone shift of an accidental suffix.
pub open spec fn accidental_shift(s: Seq<char>) -> Option<int> {
    if s.len() == 0 {
        Some(0)
    } else if s == seq!['#'] {
        Some(1)
    } else if s == seq!['b'] {
        Some(-1)
    } else if s == seq!['#', '#'] {
        Some(2)
    } else if s == seq!['b', 'b'] {
        Some(-2)
    } else {
        None
    }
}

/// The pitch class index a note name denotes, if it is one.
pub open spec fn note_name_index(name: Seq<char>) -> Option<int> {
    let t = trim(name);
    if t.len() == 0 {
        None
    } else {
        match letter_index(ascii_upper_char(t[0])) {
            None => None,
            Some(b) => match accidental_shift(t.subrange(1, t.len() as int)) {
                None => None,
                Some(a) => Some((b + a) % 12),
            },
        }
    }
}

/// Parses a note name (`C`, `F#`, `Bb`, `c#`) into a pitch class.
pub fn parse_note_name(name: &str) -> (r: Result<PitchClass, ParseError>)
    ensures
        r is Ok <==> note_name_index(name@) is Some,
        r matches Ok(pc) ==> pc.idx() == note_name_index(name@)->Some_0 && pc.wf(),
        r matches Err(e) ==> e.0@ == name@,
{
    let t = trimmed(name);
    let cs = chars_of(t.as_str());
    if cs.len() == 0 {
        return Err(ParseError(String::from_str(name)));
    }
    let base: i16 = match to_ascii_upper(cs[0]) {
        'C' => 0,
        'D' => 2,
        'E' => 4,
        'F' => 5,
        'G' => 7,
        'A' => 9,
        'B' => 11,
        _ => return Err(ParseError(String::from_str(name))),
    };
    let ghost rest = cs@.subrange(1, cs@.len() as int);
    let accidental: i16 = if cs.len() == 1 {
        0
    } else if cs.len() == 2 && cs[1] == '#' {
        assert(rest =~= seq!['#']);
        1
    } else if cs.len() == 2 && cs[1] == 'b' {
        assert(rest =~= seq!['b']);
        -1
    } else if cs.len() == 3 && cs[1] == '#' && cs[2] == '#' {
        assert(rest =~= seq!['#', '#']);
        2
    } else if cs.len() == 3 && cs[1] == 'b' && cs[2] == 'b' {
        assert(rest =~= seq!['b', 'b']);
        -2
    } else {
        proof {
            if cs.len() == 2 {
                assert(rest[0] == cs@[1]);
                assert(rest != seq!['#']);
                assert(rest != seq!['b']);
            }
            if cs.len() == 3 {
                assert(rest[0] == cs@[1] && rest[1] == cs@[2]);
                assert(rest != seq!['#', '#']);
                assert(rest != seq!['b', 'b']);
            }
        }
        return Err(ParseError(String::from_str(name)));
    };
    let sum: i16 = base + accidental;
    let m: i16 = if sum < 0 {
        sum + 12
    } else if sum >= 12 {
        sum - 12
    } else {
        sum
    };
    assert(m == sum as int % 12) by (nonlinear_arith)
        requires
            -2 <= sum <= 13,
            m == (if sum < 0 {
                sum + 12
            } else if sum >= 12 {
                sum - 12
            } else {
                sum as int
            }),
    ;
    Ok(PitchClass::new(m as u8))
}

/// The scale kind a name denotes (after trimming and ASCII lower-casing).
pub open spec fn scale_kind_named(name: Seq<char>) -> Option<ScaleKind> {
    let t = ascii_lower(trim(name));
    if t == "major"@ || t == "ionian"@ {
        Some(ScaleKind::Major)
    } else if t == "minor"@ || t == "natural_minor"@ || t == "aeolian"@ {
        Some(ScaleKind::NaturalMinor)
    } else if t == "harmonic_minor"@ {
        Some(ScaleKind::HarmonicMinor)
    } else if t == "melodic_minor"@ {
        Some(ScaleKind::MelodicMinor)
    } else if t == "dorian"@ {
        Some(ScaleKind::Dorian)
    } else if t == "mixolydian"@ {
        Some(ScaleKind::Mixolydian)
    } else if t == "major_pentatonic"@ {
        Some(ScaleKind::MajorPentatonic)
    } else if t == "minor_pentatonic"@ {
        Some(ScaleKind::MinorPentatonic)
    } else {
        None
    }
}

/// Parses a scale kind name (`major`, `minor`, `dorian`, `harmonic_minor`, …).
pub fn parse_scale_kind(name: &str) -> (r: Result<ScaleKind, ParseError>)
    ensures
        r is Ok <==> scale_kind_named(name@) is Some,
        r matches Ok(k) ==> k == scale_kind_named(name@)->Some_0,
        r matches Err(e) ==> e.0@ == name@,
{
    let t = trimmed(name);
    let cs = chars_of(t.as_str());
    let v = lower_ascii_chars(&cs);
    if chars_eq(&v, "major") || chars_eq(&v, "ionian") {
        Ok(ScaleKind::Major)
    } else if chars_eq(&v, "minor") || chars_eq(&v, "natural_minor") || chars_eq(&v, "aeolian") {
        Ok(ScaleKind::NaturalMinor)
    } else if chars_eq(&v, "harmonic_minor") {
        Ok(ScaleKind::HarmonicMinor)
    } else if chars_eq(&v, "melodic_minor") {
        Ok(ScaleKind::MelodicMinor)
    } else if chars_eq(&v, "dorian") {
        Ok(ScaleKind::Dorian)
    } else if chars_eq(&v, "mixolydian") {
        Ok(ScaleKind::Mixolydian)
    } else if chars_eq(&v, "major_pentatonic") {
        Ok(ScaleKind::MajorPentatonic)
    } else if chars_eq(&v, "minor_pentatonic") {
        Ok(ScaleKind::MinorPentatonic)
    } else {
        Err(ParseError(String::from_str(name)))
    }
}

/// The chord quality a symbol suffix denotes.
pub open spec fn quality_named(s: Seq<char>) -> Option<ChordQuality> {
    if s.len() == 0 || s == seq!['m', 'a', 'j'] || s == seq!['M'] {
        Some(ChordQuality::Major)
    } else if s == seq!['m'] || s == seq!['m', 'i', 'n'] || s == seq!['-'] {
        Some(ChordQuality::Minor)
    } else if s == seq!['d', 'i', 'm'] || s == seq!['o'] {
        Some(ChordQuality::Diminished)
    } else if s == seq!['a', 'u', 'g'] || s == seq!['+'] {
        Some(ChordQuality::Augmented)
    } else if s == seq!['7'] {
        Some(ChordQuality::Dominant7)
    } else if s == seq!['m', 'a', 'j', '7'] || s == seq!['M', '7'] {
        Some(ChordQuality::Major7)
    } else if s == seq!['m', '7'] || s == seq!['m', 'i', 'n', '7'] {
        Some(ChordQuality::Minor7)
    } else if s == seq!['s', 'u', 's', '4'] || s == seq!['s', 'u', 's'] {
        Some(ChordQuality::Sus4)
    } else {
        None
    }
}

/// End of the root name in a chord symbol: the first character plus the
/// run of `#`/`b` that follows it.
pub open spec fn root_name_end(t: Seq<char>, i: int) -> int
    decreases t.len() - i,
{
    if 1 <= i < t.len() && (t[i] == '#' || t[i] == 'b') {
        root_name_end(t, i + 1)
    } else {
        i
    }
}

/// What parsing a chord symbol gives: the root index and quality, or the
/// text reported as unparsable (the root name when that is what fails).
pub open spec fn chord_parse_spec(symbol: Seq<char>) -> Result<(int, ChordQuality), Seq<char>> {
    let t = trim(symbol);
    if t.len() == 0 {
        Err(symbol)
    } else {
        let k = root_name_end(t, 1);
        match note_name_index(t.subrange(0, k)) {
            None => Err(t.subrange(0, k)),
            Some(root) => match quality_named(t.subrange(k, t.len() as int)) {
                None => Err(symbol),
                Some(q) => Ok((root, q)),
            },
        }
    }
}

/// Whether two character vectors hold the same characters.
fn same_chars(a: &Vec<char>, b: &Vec<char>) -> (r: bool)
    ensures
        r == (a@ == b@),
{
    if a.len() != b.len() {
        return false;
    }
    let mut i: usize = 0;
    while i < a.len()
        invariant
            a@.len() == b@.len(),
            i <= a.len(),
            forall|k: int| 0 <= k < i ==> a@[k] == b@[k],
        decreases a.len() - i,
    {
        if a[i] != b[i] {
            return false;
        }
        i += 1;
    }
    assert(a@ =~= b@);
    true
}

/// Whether `s` spells `lit`.
fn spells(s: &Vec<char>, lit: Vec<char>) -> (r: bool)
    ensures
        r == (s@ == lit@),
{
    same_chars(s, &lit)
}

/// Whether `s` is the single character `c`.
fn spells_char(s: &Vec<char>, c: char) -> (r: bool)
    ensures
        r == (s@ == seq![c]),
{
    if s.len() == 1 && s[0] == c {
        assert(s@ =~= seq![c]);
        true
    } else {
        false
    }
}

/// The chord quality a suffix denotes.
fn quality_of_suffix(s: &Vec<char>) -> (r: Option<ChordQuality>)
    ensures
        r == quality_named(s@),
{
    let major = s.len() == 0 || spells(s, vec!['m', 'a', 'j']) || spells_char(s, 'M');
    let minor = spells_char(s, 'm') || spells(s, vec!['m', 'i', 'n']) || spells_char(s, '-');
    let dim = spells(s, vec!['d', 'i', 'm']) || spells_char(s, 'o');
    let aug = spells(s, vec!['a', 'u', 'g']) || spells_char(s, '+');
    let dom7 = spells_char(s, '7');
    let maj7 = spells(s, vec!['m', 'a', 'j', '7']) || spells(s, vec!['M', '7']);
    let min7 = spells(s, vec!['m', '7']) || spells(s, vec!['m', 'i', 'n', '7']);
    let sus = spells(s, vec!['s', 'u', 's', '4']) || spells(s, vec!['s', 'u', 's']);
    if major {
        Some(ChordQuality::Major)
    } else if minor {
        Some(ChordQuality::Minor)
    } else if dim {
        Some(ChordQuality::Diminished)
    } else if aug {
        Some(ChordQuality::Augmented)
    } else if dom7 {
        Some(ChordQuality::Dominant7)
    } else if maj7 {
        Some(ChordQuality::Major7)
    } else if min7 {
        Some(ChordQuality::Minor7)
    } else if sus {
        Some(ChordQuality::Sus4)
    } else {
        None
    }
}

/// The characters `v[from..to]` as a vector.
fn chars_between(v: &Vec<char>, from: usize, to: usize) -> (r: Vec<char>)
    requires
        from <= to <= v@.len(),
    ensures
        r@ == v@.subrange(from as int, to as int),
{
    let mut r: Vec<char> = Vec::new();
    let mut i: usize = from;
    while i < to
        invariant
            from <= i <= to,
            to <= v@.len(),
            r@ == v@.subrange(from as int, i as int),
        decreases to - i,
    {
        r.push(v[i]);
        i += 1;
    }
    r
}

/// The canonical name of each pitch class (sharps only).
pub open spec fn root_name(i: int) -> Seq<char> {
    if i == 0 {
        seq!['C']
    } else if i == 1 {
        seq!['C', '#']
    } else if i == 2 {
        seq!['D']
    } else if i == 3 {
        seq!['D', '#']
    } else if i == 4 {
        seq!['E']
    } else if i == 5 {
        seq!['F']
    } else if i == 6 {
        seq!['F', '#']
    } else if i == 7 {
        seq!['G']
    } else if i == 8 {
        seq!['G', '#']
    } else if i == 9 {
        seq!['A']
    } else if i == 10 {
        seq!['A', '#']
    } else {
        seq!['B']
    }
}

/// The canonical suffix of each chord quality.
pub open spec fn quality_suffix(q: ChordQuality) -> Seq<char> {
    match q {
        ChordQuality::Major => Seq::empty(),
        ChordQuality::Minor => seq!['m'],
        ChordQuality::Diminished => seq!['d', 'i', 'm'],
        ChordQuality::Augmented => seq!['a', 'u', 'g'],
        ChordQuality::Dominant7 => seq!['7'],
        ChordQuality::Major7 => seq!['m', 'a', 'j', '7'],
        ChordQuality::Minor7 => seq!['m', '7'],
        ChordQuality::Sus4 => seq!['s', 'u', 's', '4'],
    }
}

/// The canonical symbol of a chord with root index `i` and quality `q`.
pub open spec fn chord_symbol(i: int, q: ChordQuality) -> Seq<char> {
    root_name(i) + quality_suffix(q)
}

fn root_name_chars(i: u8) -> (r: Vec<char>)
    requires
        i < 12,
    ensures
        r@ == root_name(i as int),
{
    match i {
        0 => vec!['C'],
        1 => vec!['C', '#'],
        2 => vec!['D'],
        3 => vec!['D', '#'],
        4 => vec!['E'],
        5 => vec!['F'],
        6 => vec!['F', '#'],
        7 => vec!['G'],
        8 => vec!['G', '#'],
        9 => vec!['A'],
        10 => vec!['A', '#'],
        _ => vec!['B'],
    }
}

fn suffix_chars(q: ChordQuality) -> (r: Vec<char>)
    ensures
        r@ == quality_suffix(q),
{
    match q {
        ChordQuality::Major => Vec::new(),
        ChordQuality::Minor => vec!['m'],
        ChordQuality::Diminished => vec!['d', 'i', 'm'],
        ChordQuality::Augmented => vec!['a', 'u', 'g'],
        ChordQuality::Dominant7 => vec!['7'],
        ChordQuality::Major7 => vec!['m', 'a', 'j', '7'],
        ChordQuality::Minor7 => vec!['m', '7'],
        ChordQuality::Sus4 => vec!['s', 'u', 's', '4'],
    }
}

impl Chord {
    /// Parses a chord symbol: `C`, `Am`, `F#m`, `Bdim`, `Gaug`, `D7`,
    /// `Cmaj7`, `Em7`, `Asus4` (root note name + quality suffix).
    pub fn parse(symbol: &str) -> (r: Result<Chord, ParseError>)
        ensures
            r is Ok <==> chord_parse_spec(symbol@) is Ok,
            r matches Ok(c) ==> chord_parse_spec(symbol@) == Ok::<(int, ChordQuality), Seq<char>>(
                (c.root.idx(), c.quality),
            ) && c.root.wf(),
            r matches Err(e) ==> chord_parse_spec(symbol@) == Err::<(int, ChordQuality), Seq<char>>(
                e.0@,
            ),
    {
        let t = trimmed(symbol);
        let cs = chars_of(t.as_str());
        if cs.len() == 0 {
            return Err(ParseError(String::from_str(symbol)));
        }
        let mut split: usize = 1;
        while split < cs.len() && (cs[split] == '#' || cs[split] == 'b')
            invariant
                1 <= split <= cs@.len(),
                root_name_end(cs@, split as int) == root_name_end(cs@, 1),
            decreases cs.len() - split,
        {
            split += 1;
        }
        let prefix = string_of(&chars_between(&cs, 0, split));
        let root = match parse_note_name(prefix.as_str()) {
            Ok(pc) => pc,
            Err(e) => return Err(e),
        };
        let suffix = chars_between(&cs, split, cs.len());
        match quality_of_suffix(&suffix) {
            Some(quality) => Ok(Chord { root, quality }),
            None => Err(ParseError(String::from_str(symbol))),
        }
    }

    /// The canonical symbol for this chord (`Am`, `F#dim`, `G7`, …).
    pub fn symbol(&self) -> (r: String)
        ensures
            r@ == chord_symbol(self.root.idx(), self.quality),
            self.root.wf(),
    {
        let mut v = root_name_chars(self.root.index());
        let s = suffix_chars(self.quality);
        let ghost a = v@;
        let mut i: usize = 0;
        while i < s.len()
            invariant
                i <= s.len(),
                v@ == a + s@.subrange(0, i as int),
            decreases s.len() - i,
        {
            v.push(s[i]);
            i += 1;
        }
        assert(s@.subrange(0, s@.len() as int) =~= s@);
        string_of(&v)
    }
}

proof fn lemma_trim_plain(s: Seq<char>)
    requires
        s.len() > 0,
        !is_ws(s[0]),
        !is_ws(s[s.len() - 1]),
    ensures
        trim(s) == s,
{
    assert(crate::text::lead_from(s, 0) == 0);
    assert(crate::text::trail_from(s, s.len() as int, 0) == s.len());
    assert(s.subrange(0, s.len() as int) =~= s);
}

proof fn lemma_root_name(i: int)
    requires
        0 <= i < 12,
    ensures
        1 <= root_name(i).len() <= 2,
        !is_ws(root_name(i)[0]),
        !is_ws(root_name(i)[root_name(i).len() - 1]),
        root_name(i).len() == 2 ==> root_name(i)[1] == '#',
        note_name_index(root_name(i)) == Some(i),
{
    let n = root_name(i);
    lemma_trim_plain(n);
    assert(ascii_upper_char(n[0]) == n[0]);
    if n.len() == 1 {
        assert(n.subrange(1, 1).len() == 0);
    } else {
        assert(n.subrange(1, 2) =~= seq!['#']);
    }
}

proof fn lemma_quality_suffix(q: ChordQuality)
    ensures
        ({
            let x = quality_suffix(q);
            &&& x.len() > 0 ==> !is_ws(x[0]) && !is_ws(x[x.len() - 1]) && x[0] != '#' && x[0] != 'b'
            &&& quality_named(x) == Some(q)
        }),
{
    let x = quality_suffix(q);
    match q {
        ChordQuality::Major => {},
        ChordQuality::Minor => {
            assert(x[0] == 'm');
            assert(x != seq!['M']);
        },
        ChordQuality::Diminished => {
            assert(x[0] == 'd');
            assert(x != seq!['m', 'a', 'j'] && x != seq!['m', 'i', 'n']);
        },
        ChordQuality::Augmented => {
            assert(x[0] == 'a');
            assert(x != seq!['m', 'a', 'j'] && x != seq!['m', 'i', 'n'] && x != seq!['d', 'i', 'm']);
        },
        ChordQuality::Dominant7 => {
            assert(x[0] == '7');
            assert(x != seq!['M'] && x != seq!['m'] && x != seq!['-'] && x != seq!['o'] && x != seq!['+']);
        },
        ChordQuality::Major7 => {
            assert(x[3] == '7');
            assert(x != seq!['m', 'i', 'n', '7'] && x != seq!['s', 'u', 's', '4']);
        },
        ChordQuality::Minor7 => {
            assert(x[0] == 'm' && x[1] == '7');
            assert(x != seq!['M', '7']);
        },
        ChordQuality::Sus4 => {
            assert(x[0] == 's');
            assert(x != seq!['m', 'a', 'j', '7'] && x != seq!['m', 'i', 'n', '7']);
        },
    }
}

/// Chord symbols round-trip: parsing the canonical symbol of any chord gives
/// back that chord.
pub proof fn law_chord_symbol_round_trip(i: int, q: ChordQuality)
    requires
        0 <= i < 12,
    ensures
        chord_parse_spec(chord_symbol(i, q)) == Ok::<(int, ChordQuality), Seq<char>>((i, q)),
{
    let n = root_name(i);
    let x = quality_suffix(q);
    let s = chord_symbol(i, q);
    lemma_root_name(i);
    lemma_quality_suffix(q);
    assert(s[0] == n[0]);
    if x.len() > 0 {
        assert(s[s.len() - 1] == x[x.len() - 1]);
    } else {
        assert(s[s.len() - 1] == n[n.len() - 1]);
    }
    lemma_trim_plain(s);
    reveal_with_fuel(root_name_end, 3);
    if n.len() == 1 {
        if s.len() > 1 {
            assert(s[1] == x[0]);
        }
        assert(root_name_end(s, 1) == 1);
    } else {
        assert(s[1] == '#');
        if s.len() > 2 {
            assert(s[2] == x[0]);
        }
        assert(root_name_end(s, 1) == 2);
    }
    assert(s.subrange(0, n.len() as int) =~= n);
    assert(s.subrange(n.len() as int, s.len() as int) =~= x);
}

} // verus!
