use musicos::harmony::{parse_note_name, parse_scale_kind, Chord, ChordQuality, ParseError, PitchClass, Scale, ScaleKind};

#[test]
fn note_names_parse_with_accidentals() {
    assert_eq!(parse_note_name("C").unwrap().index(), 0);
    assert_eq!(parse_note_name("F#").unwrap().index(), 6);
    assert_eq!(parse_note_name("Bb").unwrap().index(), 10);
    assert_eq!(parse_note_name("Cb").unwrap().index(), 11);
    assert!(parse_note_name("H").is_err());
}

#[test]
fn chord_symbols_round_trip() {
    for sym in ["C", "Am", "F#m", "Bdim", "Gaug", "D7", "Cmaj7", "Em7", "Asus4"] {
        let chord = Chord::parse(sym).unwrap();
        assert_eq!(chord.symbol(), *sym, "{sym}");
        assert_eq!(Chord::parse(&chord.symbol()).unwrap(), chord);
    }
    assert!(Chord::parse("Xyz").is_err());
    assert!(Chord::parse("").is_err());
}

#[test]
fn scale_kind_aliases() {
    assert_eq!(parse_scale_kind("major").unwrap(), ScaleKind::Major);
    assert_eq!(parse_scale_kind("MINOR").unwrap(), ScaleKind::NaturalMinor);
    assert_eq!(parse_scale_kind("dorian").unwrap(), ScaleKind::Dorian);
    assert!(parse_scale_kind("phrygian-dominant-9").is_err());
}

#[test]
fn c_major_scale_membership() {
    let c_major = Scale {
        tonic: PitchClass::new(0),
        kind: ScaleKind::Major,
    };
    assert!(c_major.contains(PitchClass::new(4)));
    assert!(!c_major.contains(PitchClass::new(6)));
    assert_eq!(c_major.pitch_classes().len(), 7);
}

#[test]
fn scale_membership_is_transposition_invariant() {
    for tonic in 0..12u8 {
        let scale = Scale {
            tonic: PitchClass::new(tonic),
            kind: ScaleKind::Dorian,
        };
        assert!(scale.contains(PitchClass::new(tonic)));
        assert!(scale.contains(PitchClass::new(tonic).transposed(7)));
    }
}

#[test]
fn chord_spelling_from_octave() {
    let am = Chord {
        root: PitchClass::new(9),
        quality: ChordQuality::Minor,
    };
    let notes: Vec<u8> = am.pitches(3).iter().map(|p| p.note).collect();
    assert_eq!(notes, vec![57, 60, 64]);
}

#[test]
fn middle_c_octave_convention() {
    assert_eq!(PitchClass::new(0).in_octave(4).note, 60);
}

#[test]
fn membership_agrees_for_every_transposition() {
    for kind in [ScaleKind::Major, ScaleKind::HarmonicMinor, ScaleKind::MinorPentatonic] {
        for pc in 0..12u8 {
            let base = Scale { tonic: PitchClass::new(0), kind }.contains(PitchClass::new(pc));
            for shift in 0..12u8 {
                let moved = Scale { tonic: PitchClass::new(shift), kind }.contains(PitchClass::new(pc + shift));
                assert_eq!(base, moved);
            }
        }
    }
}

#[test]
fn parse_errors_name_their_input() {
    assert_eq!(parse_note_name("H").unwrap_err(), ParseError("H".to_string()));
    assert_eq!(ParseError("Xyz".to_string()).message(), "cannot parse 'Xyz'");
    assert_eq!(parse_scale_kind("minor_pentatonic").unwrap(), ScaleKind::MinorPentatonic);
    assert_eq!(Chord::parse(" Ebm7 ").unwrap().symbol(), "D#m7");
    assert_eq!(PitchClass::new(11).transposed(-12).index(), 11);
    assert_eq!(PitchClass::new(14).index(), 2);
    assert_eq!(PitchClass::new(9).in_octave(9).note, 127);
    assert_eq!(ChordQuality::Dominant7.intervals(), &[0, 4, 7, 10]);
}

#[test]
fn non_ascii_chord_roots_are_errors() {
    assert_eq!(Chord::parse("é"), Err(ParseError("é".to_string())));
    assert_eq!(Chord::parse(" ém7 "), Err(ParseError("é".to_string())));
    assert_eq!(Chord::parse("é#"), Err(ParseError("é#".to_string())));
}

#[test]
fn transposing_back_gives_the_same_pitch_class() {
    for i in 0..12u8 {
        let pc = PitchClass::new(i);
        for s in [-12i8, -7, -1, 0, 1, 5, 11, 127] {
            assert_eq!(pc.transposed(s).transposed(-s), pc);
        }
        assert_eq!(PitchClass::new(i + 12), pc);
    }
}
