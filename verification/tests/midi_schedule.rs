use musicos::core_types::{Pitch, ProjectId, Tick, TrackId, Velocity, PPQ};
use musicos::midi_schedule::{schedule, Event, NOTE_OFF, NOTE_ON};
use musicos::pattern::{Note, Pattern};
use musicos::project_plan::Command;
use musicos::project_types::{ProjectState, TrackKind};

fn project() -> ProjectState {
    let mut s = ProjectState::new(ProjectId(1), "Stream");
    for name in ["Keys", "Bass"] {
        s.dispatch(Command::CreateTrack { name: name.into(), kind: TrackKind::Midi }).unwrap();
    }
    for (track, pitch) in [(0u64, 60u8), (1u64, 36u8)] {
        let notes = vec![
            Note {
                pitch: Pitch::new(pitch),
                velocity: Velocity::clamped(100),
                start: Tick(0),
                duration: Tick(PPQ),
            },
            Note {
                pitch: Pitch::new(pitch + 7),
                velocity: Velocity::clamped(90),
                start: Tick(PPQ),
                duration: Tick(PPQ),
            },
        ];
        s.dispatch(Command::InsertClip {
            track: TrackId(track),
            name: format!("c{track}"),
            pattern: Pattern::new(notes, Tick(PPQ * 2)).unwrap(),
            at: Tick(0),
        })
        .unwrap();
    }
    s
}

fn seconds(e: &Event) -> f64 {
    e.at_micros as f64 / 1_000_000.0
}

#[test]
fn schedule_is_ordered_paired_and_channel_assigned() {
    let state = project();
    let events = schedule(&state, 0);
    // 2 tracks x 2 notes x (on + off)
    assert_eq!(events.len(), 8);
    assert!(events.windows(2).all(|w| seconds(&w[0]) <= seconds(&w[1])));
    // Channels 0 and 1 both appear; ons and offs balance per channel.
    for channel in [0u8, 1] {
        let ons = events.iter().filter(|e| e.bytes[0] == NOTE_ON | channel).count();
        let offs = events.iter().filter(|e| e.bytes[0] == NOTE_OFF | channel).count();
        assert_eq!(ons, 2, "channel {channel} note-ons");
        assert_eq!(ons, offs, "channel {channel} balance");
    }
    // At 120 bpm one beat is 0.5 s: second note starts at 0.5.
    let second_on = events.iter().find(|e| e.bytes[0] == NOTE_ON && e.bytes[1] == 67).unwrap();
    assert!((seconds(second_on) - 0.5).abs() < 1e-6);
}

#[test]
fn schedule_seeks_and_clips_by_start_bar() {
    let state = project();
    // Bar 1 starts after both notes (which span 2 beats): nothing left.
    let events = schedule(&state, 1);
    assert!(events.is_empty());
    // Seeking to bar 0 keeps everything; a stop mid-note keeps its off.
    let all = schedule(&state, 0);
    assert_eq!(all.len(), 8);
}

#[test]
fn muted_tracks_are_skipped() {
    let mut state = project();
    state.dispatch(Command::SetTrackMute { track: TrackId(1), muted: true }).unwrap();
    let events = schedule(&state, 0);
    assert_eq!(events.len(), 4);
    assert!(events.iter().all(|e| e.bytes[0].trailing_zeros() >= 4), "only channel 0");
}

#[test]
fn a_track_keeps_its_channel_when_an_earlier_one_is_muted() {
    let mut state = project();
    state.dispatch(Command::SetTrackMute { track: TrackId(0), muted: true }).unwrap();
    let events = schedule(&state, 0);
    assert_eq!(events.len(), 4);
    assert!(events.iter().all(|e| e.bytes[0] & 0x0F == 1), "only channel 1");
}

#[test]
fn simultaneous_offs_precede_ons_and_times_are_exact() {
    let state = project();
    let events = schedule(&state, 0);
    // At 0.5 s the first notes end and the second notes begin: offs first.
    let at_half: Vec<u8> = events
        .iter()
        .filter(|e| e.at_micros == 500_000)
        .map(|e| e.bytes[0] & 0xF0)
        .collect();
    assert_eq!(at_half, vec![NOTE_OFF, NOTE_OFF, NOTE_ON, NOTE_ON]);
    assert_eq!(events[0], Event { at_micros: 0, bytes: [NOTE_ON, 60, 100] });
    assert_eq!(events[7].at_micros, 1_000_000);
}

#[test]
fn a_mid_note_start_keeps_only_the_note_off() {
    let mut state = ProjectState::new(ProjectId(2), "Long");
    state.dispatch(Command::CreateTrack { name: "Pad".into(), kind: TrackKind::Midi }).unwrap();
    let note = Note {
        pitch: Pitch::new(48),
        velocity: Velocity::clamped(64),
        start: Tick(0),
        duration: Tick(PPQ * 8),
    };
    state
        .dispatch(Command::InsertClip {
            track: TrackId(0),
            name: "pad".into(),
            pattern: Pattern::new(vec![note], Tick(PPQ * 8)).unwrap(),
            at: Tick(0),
        })
        .unwrap();
    let events = schedule(&state, 1);
    // The note sounds through bar 1's start: only its off remains, 2 s later.
    assert_eq!(events, vec![Event { at_micros: 2_000_000, bytes: [NOTE_OFF, 48, 0] }]);
}
