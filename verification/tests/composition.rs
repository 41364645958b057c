use musicos::composition::{
    chords_to_pattern, diatonic_triads, generate_bass, generate_chords, generate_drums, generate_melody, DrumStyle,
    BAR, SNARE,
};
use musicos::core_types::{Seed, Tick, PPQ};
use musicos::harmony::{PitchClass, Scale, ScaleKind};

fn c_major() -> Scale {
    Scale {
        tonic: PitchClass::new(0),
        kind: ScaleKind::Major,
    }
}

fn a_minor() -> Scale {
    Scale {
        tonic: PitchClass::new(9),
        kind: ScaleKind::NaturalMinor,
    }
}

#[test]
fn progressions_are_deterministic_and_structured() {
    let a = generate_chords(c_major(), 8, Seed(7));
    let b = generate_chords(c_major(), 8, Seed(7));
    let c = generate_chords(c_major(), 8, Seed(8));
    assert_eq!(a, b, "same seed, same progression");
    assert_ne!(a, c, "different seed should differ");
    assert_eq!(a.len(), 8);
    assert_eq!(a[0].symbol(), "C");
    assert_eq!(a[6].symbol(), "G", "second-to-last bar must be the dominant");
    assert_eq!(a[7].symbol(), "C");
}

#[test]
fn minor_keys_get_a_major_dominant() {
    let prog = generate_chords(a_minor(), 4, Seed(1));
    assert_eq!(prog[2].symbol(), "E", "harmonic-practice V in A minor is E major");
    assert_eq!(prog[3].symbol(), "Am");
}

#[test]
fn all_progression_chords_are_diatonic_triads() {
    let triads = diatonic_triads(c_major());
    let prog = generate_chords(c_major(), 16, Seed(42));
    for chord in &prog {
        assert!(triads.contains(chord), "{} is not diatonic in C major", chord.symbol());
    }
}

#[test]
fn melody_targets_chord_tones_on_strong_beats() {
    let prog = generate_chords(c_major(), 8, Seed(3));
    let melody = generate_melody(&prog, c_major(), Seed(3));
    for note in melody.notes() {
        let bar = usize::try_from(note.start.0 / BAR).unwrap();
        let offset = note.start.0 % BAR;
        if offset == 0 {
            let chord = &prog[bar];
            let tones: Vec<u8> = chord
                .quality
                .intervals()
                .iter()
                .map(|&i| (chord.root.index() + i) % 12)
                .collect();
            assert!(
                tones.contains(&(note.pitch.note % 12)),
                "bar {bar}: melody note {} not in {}",
                note.pitch.note,
                chord.symbol()
            );
        }
        assert!((60..=84).contains(&note.pitch.note), "melody range");
    }
}

#[test]
fn bass_starts_every_bar_on_the_root() {
    let prog = generate_chords(a_minor(), 8, Seed(9));
    let bass = generate_bass(&prog, Seed(9));
    for (bar, chord) in prog.iter().enumerate() {
        let downbeat = bass
            .notes()
            .iter()
            .find(|n| n.start.0 == i64::try_from(bar).unwrap() * BAR)
            .expect("bass downbeat every bar");
        assert_eq!(downbeat.pitch.note % 12, chord.root.index(), "bar {bar} root");
    }
}

#[test]
fn drums_are_deterministic_and_land_on_the_grid() {
    for style in [DrumStyle::Basic, DrumStyle::FourOnFloor, DrumStyle::LoFi] {
        let a = generate_drums(4, style, Seed(5));
        let b = generate_drums(4, style, Seed(5));
        assert_eq!(a, b);
        assert!(!a.notes().is_empty());
        assert!(a.notes().iter().any(|n| n.pitch.note == SNARE && n.start.0 == PPQ));
    }
}

#[test]
fn chord_pattern_covers_the_whole_progression() {
    let prog = generate_chords(c_major(), 4, Seed(2));
    let pattern = chords_to_pattern(&prog, 3, 80);
    assert_eq!(pattern.length(), Tick(4 * BAR));
    assert_eq!(pattern.notes().len(), 12);
}

#[test]
fn progressions_have_at_least_one_bar_and_short_cadences() {
    assert_eq!(generate_chords(c_major(), 0, Seed(1)).len(), 1);
    let two = generate_chords(c_major(), 2, Seed(1));
    assert_eq!(two.iter().map(|c| c.symbol()).collect::<Vec<_>>(), vec!["C", "C"]);
    let three = generate_chords(c_major(), 3, Seed(1));
    assert_eq!(three.iter().map(|c| c.symbol()).collect::<Vec<_>>(), vec!["C", "G", "C"]);
}

#[test]
fn diatonic_triads_of_c_major_and_a_minor() {
    let c: Vec<String> = diatonic_triads(c_major()).iter().map(|t| t.symbol()).collect();
    assert_eq!(c, vec!["C", "Dm", "Em", "F", "G", "Am", "Bdim"]);
    let a: Vec<String> = diatonic_triads(a_minor()).iter().map(|t| t.symbol()).collect();
    assert_eq!(a, vec!["Am", "Bdim", "C", "Dm", "E", "F", "G"]);
    let pent = Scale { tonic: PitchClass::new(0), kind: ScaleKind::MajorPentatonic };
    assert_eq!(diatonic_triads(pent)[1].symbol(), "Dm");
}

#[test]
fn every_drum_bar_has_a_backbeat_and_bars_fill_the_length() {
    for style in [DrumStyle::Basic, DrumStyle::FourOnFloor, DrumStyle::LoFi] {
        let p = generate_drums(3, style, Seed(11));
        assert_eq!(p.length(), Tick(3 * BAR));
        for bar in 0..3i64 {
            assert!(p.notes().iter().any(|n| n.pitch.note == SNARE && n.start.0 == bar * BAR + PPQ));
        }
    }
    assert_eq!(generate_drums(0, DrumStyle::Basic, Seed(1)).length(), Tick(BAR));
    assert_eq!(generate_drums(1, DrumStyle::Basic, Seed(1)).notes().len(), 12);
    assert_eq!(generate_drums(1, DrumStyle::FourOnFloor, Seed(1)).notes().len(), 10);
}

#[test]
fn drum_style_names_parse() {
    assert_eq!(DrumStyle::parse("Rock"), Ok(DrumStyle::Basic));
    assert_eq!(DrumStyle::parse(" house "), Ok(DrumStyle::FourOnFloor));
    assert_eq!(DrumStyle::parse("LO-FI"), Ok(DrumStyle::LoFi));
    assert_eq!(DrumStyle::parse(" Polka "), Err("polka".to_string()));
}

#[test]
fn bass_stays_in_register_and_melody_is_seeded() {
    let prog = generate_chords(c_major(), 6, Seed(4));
    let bass = generate_bass(&prog, Seed(4));
    assert_eq!(bass.length(), Tick(6 * BAR));
    assert!(bass.notes().iter().all(|n| (24..=60).contains(&n.pitch.note)));
    let m1 = generate_melody(&prog, c_major(), Seed(4));
    let m2 = generate_melody(&prog, c_major(), Seed(4));
    assert_eq!(m1, m2);
    assert_eq!(m1.length(), Tick(6 * BAR));
}

#[test]
fn melody_beat_three_is_a_chord_tone_and_drums_back_beat_four() {
    let prog = generate_chords(c_major(), 8, Seed(9));
    let melody = generate_melody(&prog, c_major(), Seed(9));
    for note in melody.notes() {
        let bar = usize::try_from(note.start.0 / BAR).unwrap();
        if note.start.0 % BAR == 2 * PPQ {
            let chord = &prog[bar];
            let tones: Vec<u8> = chord.quality.intervals().iter().map(|&i| (chord.root.index() + i) % 12).collect();
            assert!(tones.contains(&(note.pitch.note % 12)));
        }
    }
    for style in [DrumStyle::Basic, DrumStyle::FourOnFloor, DrumStyle::LoFi] {
        let p = generate_drums(4, style, Seed(21));
        for bar in 0..4i64 {
            assert!(p.notes().iter().any(|n| n.pitch.note == SNARE && n.start.0 == bar * BAR + 3 * PPQ));
        }
        assert!(p.notes().iter().all(|n| n.duration == Tick(PPQ / 4)));
    }
}
