use musicos::core_types::{ClipId, Pitch, ProjectId, Tempo, Tick, TrackId, Velocity, PPQ};
use musicos::float::Float32;
use musicos::pattern::{Note, Pattern};
use musicos::project_event::Event;
use musicos::project_plan::Command;
use musicos::project_types::{DomainError, ProjectState, TrackKind};

fn pattern() -> Pattern {
    Pattern::new(
        vec![Note {
            pitch: Pitch::new(60),
            velocity: Velocity::mf(),
            start: Tick::zero(),
            duration: Tick(PPQ),
        }],
        Tick(PPQ * 4),
    )
    .unwrap()
}

fn f32_bits(v: f32) -> Float32 {
    Float32 { bits: v.to_bits() }
}

fn scripted_commands() -> Vec<Command> {
    vec![
        Command::CreateTrack { name: "Drums".into(), kind: TrackKind::Midi },
        Command::CreateTrack { name: "Bass".into(), kind: TrackKind::Midi },
        Command::InsertClip { track: TrackId(0), name: "beat".into(), pattern: pattern(), at: Tick::zero() },
        Command::InsertClip { track: TrackId(1), name: "groove".into(), pattern: pattern(), at: Tick(PPQ * 4) },
        Command::SetTempo { at: Tick::zero(), tempo: Tempo { micros_per_quarter: 428_571 } },
        Command::MoveClip { clip: ClipId(0), at: Tick(PPQ * 8) },
        Command::RenameTrack { track: TrackId(1), name: "Sub Bass".into() },
        Command::RemoveTrack { track: TrackId(0) },
        Command::RenameProject { name: "Banger".into() },
        Command::SetTrackGain { track: TrackId(1), gain_db: f32_bits(-6.0) },
        Command::SetTrackPan { track: TrackId(1), pan: f32_bits(0.25) },
        Command::SetTrackMute { track: TrackId(1), muted: true },
    ]
}

#[test]
fn dispatch_validates_before_mutating() {
    let mut s = ProjectState::new(ProjectId(1), "P");
    let before = s.clone();
    assert_eq!(
        s.dispatch(Command::RenameTrack { track: TrackId(9), name: "x".into() }),
        Err(DomainError::UnknownTrack(TrackId(9)))
    );
    assert_eq!(
        s.dispatch(Command::CreateTrack { name: "  ".into(), kind: TrackKind::Midi }),
        Err(DomainError::EmptyName)
    );
    assert_eq!(s, before);
}

#[test]
fn bus_tracks_reject_clips() {
    let mut s = ProjectState::new(ProjectId(1), "P");
    s.dispatch(Command::CreateTrack { name: "Bus".into(), kind: TrackKind::Bus }).unwrap();
    assert_eq!(
        s.dispatch(Command::InsertClip { track: TrackId(0), name: "c".into(), pattern: pattern(), at: Tick::zero() }),
        Err(DomainError::BusHoldsNoClips(TrackId(0)))
    );
}

#[test]
fn undo_of_every_transaction_restores_prior_state() {
    let mut s = ProjectState::new(ProjectId(1), "P");
    let mut snapshots = vec![s.clone()];
    let mut txns = Vec::new();
    for cmd in scripted_commands() {
        txns.push(s.dispatch(cmd).unwrap());
        snapshots.push(s.clone());
    }
    for (txn, expected) in txns.iter().rev().zip(snapshots.iter().rev().skip(1)) {
        for ev in Event::inverse_transaction(txn) {
            s.apply_event(&ev).unwrap();
        }
        let mut normalized = s.clone();
        normalized.next_track = expected.next_track;
        normalized.next_clip = expected.next_clip;
        assert_eq!(&normalized, expected);
    }
}

#[test]
fn replaying_the_event_log_reproduces_the_final_state() {
    let mut live = ProjectState::new(ProjectId(1), "P");
    let mut log: Vec<Event> = Vec::new();
    for cmd in scripted_commands() {
        log.extend(live.dispatch(cmd).unwrap());
    }
    let mut replayed = ProjectState::new(ProjectId(1), "P");
    for ev in &log {
        replayed.apply_event(ev).unwrap();
    }
    assert_eq!(replayed, live);
}

#[test]
fn track_removal_undo_restores_clips() {
    let mut s = ProjectState::new(ProjectId(1), "P");
    s.dispatch(Command::CreateTrack { name: "T".into(), kind: TrackKind::Midi }).unwrap();
    s.dispatch(Command::InsertClip { track: TrackId(0), name: "c".into(), pattern: pattern(), at: Tick(7) })
        .unwrap();
    let before = s.clone();
    let txn = s.dispatch(Command::RemoveTrack { track: TrackId(0) }).unwrap();
    assert!(s.clips.is_empty());
    for ev in Event::inverse_transaction(&txn) {
        s.apply_event(&ev).unwrap();
    }
    assert_eq!(s, before);
}

#[test]
fn out_of_range_mix_values_and_bad_ticks_are_refused() {
    let mut s = ProjectState::new(ProjectId(1), "P");
    s.dispatch(Command::CreateTrack { name: "T".into(), kind: TrackKind::Midi }).unwrap();
    let before = s.clone();
    assert!(s.dispatch(Command::SetTrackGain { track: TrackId(0), gain_db: f32_bits(20.0) }).is_err());
    assert!(s.dispatch(Command::SetTrackPan { track: TrackId(0), pan: f32_bits(f32::NAN) }).is_err());
    assert_eq!(
        s.dispatch(Command::InsertClip { track: TrackId(0), name: "c".into(), pattern: pattern(), at: Tick(-1) }),
        Err(DomainError::NegativeTick(Tick(-1)))
    );
    assert_eq!(s, before);
    assert_eq!(
        s.dispatch(Command::RemoveClip { clip: ClipId(4) }),
        Err(DomainError::UnknownClip(ClipId(4)))
    );
}

#[test]
fn placements_and_markers_round_trip_through_undo() {
    let mut s = ProjectState::new(ProjectId(1), "P");
    s.dispatch(Command::CreateTrack { name: "T".into(), kind: TrackKind::Midi }).unwrap();
    s.dispatch(Command::InsertClip { track: TrackId(0), name: "c".into(), pattern: pattern(), at: Tick(0) })
        .unwrap();
    let before = s.clone();
    let t1 = s.dispatch(Command::PlaceClip { clip: ClipId(0), at: Tick(PPQ * 4) }).unwrap();
    let t2 = s.dispatch(Command::AddMarker { at: Tick(PPQ), name: "drop".into() }).unwrap();
    assert_eq!(s.tracks[0].placements.len(), 2);
    assert_eq!(s.markers.len(), 1);
    assert_eq!(
        s.dispatch(Command::UnplaceClip { clip: ClipId(0), at: Tick(5) }),
        Err(DomainError::NoSuchPlacement(ClipId(0), Tick(5)))
    );
    for txn in [t2, t1] {
        for ev in Event::inverse_transaction(&txn) {
            s.apply_event(&ev).unwrap();
        }
    }
    assert_eq!(s, before);
}

#[test]
fn undo_puts_removed_and_unplaced_placements_back_where_they_were() {
    let mut s = ProjectState::new(ProjectId(1), "P");
    s.dispatch(Command::CreateTrack { name: "T".into(), kind: TrackKind::Midi }).unwrap();
    s.dispatch(Command::InsertClip { track: TrackId(0), name: "a".into(), pattern: pattern(), at: Tick(0) })
        .unwrap();
    s.dispatch(Command::InsertClip { track: TrackId(0), name: "b".into(), pattern: pattern(), at: Tick(100) })
        .unwrap();
    s.dispatch(Command::PlaceClip { clip: ClipId(0), at: Tick(200) }).unwrap();
    s.dispatch(Command::PlaceClip { clip: ClipId(0), at: Tick(300) }).unwrap();
    let before = s.clone();

    let txn = s.dispatch(Command::UnplaceClip { clip: ClipId(0), at: Tick(0) }).unwrap();
    assert_eq!(s.tracks[0].placements.len(), 3);
    for ev in Event::inverse_transaction(&txn) {
        s.apply_event(&ev).unwrap();
    }
    assert_eq!(s, before);

    let txn = s.dispatch(Command::RemoveClip { clip: ClipId(0) }).unwrap();
    assert_eq!(s.tracks[0].placements.len(), 1);
    assert_eq!(s.tracks[0].placements[0].clip, ClipId(1));
    for ev in Event::inverse_transaction(&txn) {
        s.apply_event(&ev).unwrap();
    }
    assert_eq!(s, before);
}

#[test]
fn insert_clip_checks_come_in_order_and_ids_count_up() {
    let mut s = ProjectState::new(ProjectId(1), "P");
    s.dispatch(Command::CreateTrack { name: "Bus".into(), kind: TrackKind::Bus }).unwrap();
    s.dispatch(Command::CreateTrack { name: "T".into(), kind: TrackKind::Midi }).unwrap();
    let before = s.clone();
    assert_eq!(
        s.dispatch(Command::InsertClip { track: TrackId(9), name: "  ".into(), pattern: pattern(), at: Tick(-1) }),
        Err(DomainError::EmptyName)
    );
    assert_eq!(
        s.dispatch(Command::InsertClip { track: TrackId(9), name: "c".into(), pattern: pattern(), at: Tick(-1) }),
        Err(DomainError::NegativeTick(Tick(-1)))
    );
    assert_eq!(
        s.dispatch(Command::InsertClip { track: TrackId(9), name: "c".into(), pattern: pattern(), at: Tick(0) }),
        Err(DomainError::UnknownTrack(TrackId(9)))
    );
    assert_eq!(
        s.dispatch(Command::InsertClip { track: TrackId(0), name: "c".into(), pattern: pattern(), at: Tick(0) }),
        Err(DomainError::BusHoldsNoClips(TrackId(0)))
    );
    assert_eq!(s, before);
    let evs = s.dispatch(Command::InsertClip { track: TrackId(1), name: " c ".into(), pattern: pattern(), at: Tick(5) }).unwrap();
    assert_eq!(evs.len(), 1);
    match &evs[0] {
        Event::ClipInserted { track, clip_id, clip, at, .. } => {
            assert_eq!(*track, TrackId(1));
            assert_eq!(*clip_id, ClipId(0));
            assert_eq!(clip.name, "c");
            assert_eq!(*at, Tick(5));
        }
        other => panic!("unexpected event {other:?}"),
    }
}
