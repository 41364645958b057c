use musicos::core_types::{Pitch, Tempo, Tick, Velocity};
use musicos::midi::{export_smf, import_smf, MidiError, SmfSong};
use musicos::pattern::{Note, Pattern};
use musicos::timeline::TempoMap;

fn song_with(notes: Vec<Note>) -> SmfSong {
    SmfSong {
        tempo_map: TempoMap::constant(Tempo::default_tempo()),
        tracks: vec![(Some("test".to_string()), Pattern::new(notes, Tick::zero()).unwrap())],
    }
}

#[test]
fn export_import_round_trip_preserves_notes_and_tempo() {
    let song = song_with(vec![
        Note {
            pitch: Pitch::new(60),
            velocity: Velocity::new(100).unwrap(),
            start: Tick(0),
            duration: Tick(480),
        },
        Note {
            pitch: Pitch::new(64),
            velocity: Velocity::new(90).unwrap(),
            start: Tick(480),
            duration: Tick(960),
        },
    ]);
    let round = import_smf(&export_smf(&song)).unwrap();
    assert_eq!(round, song);
}

#[test]
fn overlapping_same_pitch_notes_survive() {
    let song = song_with(vec![
        Note {
            pitch: Pitch::new(60),
            velocity: Velocity::mf(),
            start: Tick(0),
            duration: Tick(960),
        },
        Note {
            pitch: Pitch::new(60),
            velocity: Velocity::mf(),
            start: Tick(240),
            duration: Tick(240),
        },
    ]);
    let round = import_smf(&export_smf(&song)).unwrap();
    assert_eq!(round.tracks[0].1.notes().len(), 2);
}

#[test]
fn velocity_zero_note_on_acts_as_note_off() {
    let song = song_with(vec![Note {
        pitch: Pitch::new(72),
        velocity: Velocity::mf(),
        start: Tick(0),
        duration: Tick(120),
    }]);
    let bytes = export_smf(&song);
    assert!(import_smf(&bytes).is_ok());
}

#[test]
fn round_trip_without_same_pitch_overlap_is_lossless() {
    let mut notes = Vec::new();
    for i in 0..40i64 {
        let pitch = 21 + (i * 7 % 80) as u8;
        notes.push(Note {
            pitch: Pitch::new(pitch),
            velocity: Velocity::new(1 + (i * 13 % 127) as u8).unwrap(),
            start: Tick(i * 500),
            duration: Tick(1 + i * 11 % 499),
        });
    }
    let mut song = song_with(notes);
    song.tempo_map = TempoMap::new(vec![
        (Tick(0), Tempo { micros_per_quarter: 400_000 }),
        (Tick(3_000), Tempo { micros_per_quarter: 700_000 }),
    ])
    .unwrap();
    let round = import_smf(&export_smf(&song)).unwrap();
    assert_eq!(round, song);
}

#[test]
fn garbage_is_a_parse_error_and_unnamed_tracks_stay_unnamed() {
    assert!(matches!(import_smf(b"not a midi file"), Err(MidiError::Parse(_))));
    let song = SmfSong {
        tempo_map: TempoMap::constant(Tempo::default_tempo()),
        tracks: vec![(
            None,
            Pattern::new(
                vec![Note { pitch: Pitch::new(50), velocity: Velocity::mf(), start: Tick(10), duration: Tick(20) }],
                Tick::zero(),
            )
            .unwrap(),
        )],
    };
    let round = import_smf(&export_smf(&song)).unwrap();
    assert_eq!(round, song);
}

#[test]
fn tracks_without_notes_are_dropped_on_import() {
    let song = SmfSong {
        tempo_map: TempoMap::constant(Tempo::default_tempo()),
        tracks: vec![(Some("empty".to_string()), Pattern::empty(Tick(0)))],
    };
    let round = import_smf(&export_smf(&song)).unwrap();
    assert!(round.tracks.is_empty());
    assert_eq!(round.tempo_map, song.tempo_map);
}
