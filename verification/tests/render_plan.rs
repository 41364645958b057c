use musicos::core_types::{Pitch, ProjectId, Tick, TrackId, Velocity, PPQ};
use musicos::pattern::{Note, Pattern};
use musicos::project_plan::Command;
use musicos::project_types::{ProjectState, TrackKind};
use musicos::render_plan::{check_renderable, compile_render_topology, plan_render, playback_start_frame, NoteSpan, RenderError};

fn demo_project() -> ProjectState {
    let mut s = ProjectState::new(ProjectId(1), "Render");
    s.dispatch(Command::CreateTrack { name: "Lead".into(), kind: TrackKind::Midi }).unwrap();
    let notes = vec![
        Note { pitch: Pitch::new(60), velocity: Velocity::mf(), start: Tick::zero(), duration: Tick(PPQ) },
        Note { pitch: Pitch::new(64), velocity: Velocity::mf(), start: Tick(PPQ), duration: Tick(PPQ) },
    ];
    let pattern = Pattern::new(notes, Tick(PPQ * 2)).unwrap();
    let id = s.tracks[0].id;
    s.dispatch(Command::InsertClip { track: id, name: "melody".into(), pattern, at: Tick::zero() })
        .unwrap();
    s
}

#[test]
fn empty_projects_are_rejected() {
    let s = ProjectState::new(ProjectId(1), "Empty");
    assert_eq!(plan_render(&s, 48_000, 12_000), Err(RenderError::EmptyProject));
    assert_eq!(RenderError::EmptyProject.message(), "project has no notes to render");
}

#[test]
fn tracks_without_notes_or_midi_are_left_out() {
    let mut s = demo_project();
    s.dispatch(Command::CreateTrack { name: "Bus".into(), kind: TrackKind::Bus }).unwrap();
    s.dispatch(Command::CreateTrack { name: "Empty".into(), kind: TrackKind::Midi }).unwrap();
    let plan = plan_render(&s, 48_000, 0).unwrap();
    assert_eq!(plan.tracks.len(), 1);
    assert_eq!(plan.tracks[0].track, 0);
}

#[test]
fn note_spans_follow_the_tempo_map() {
    let s = demo_project();
    let plan = plan_render(&s, 48_000, 1_000).unwrap();
    let t = &plan.tracks[0];
    // 120 bpm: one quarter is half a second, 24000 frames at 48 kHz.
    assert_eq!(
        t.notes,
        vec![
            NoteSpan { start: 0, held: 24_000, pitch: Pitch::new(60), velocity: Velocity::mf() },
            NoteSpan { start: 24_000, held: 24_000, pitch: Pitch::new(64), velocity: Velocity::mf() },
        ]
    );
    assert_eq!(t.frames, 49_000);
    assert_eq!(plan.last_end, 49_000);
}

#[test]
fn muted_tracks_still_plan_their_notes() {
    let mut s = demo_project();
    s.dispatch(Command::SetTrackMute { track: TrackId(0), muted: true }).unwrap();
    let plan = plan_render(&s, 44_100, 0).unwrap();
    assert_eq!(plan.tracks.len(), 1);
    assert_eq!(plan.last_end, 44_100);
}

#[test]
fn playback_starts_at_the_bar_and_never_past_the_end() {
    let s = demo_project();
    // Bar 1 starts 2 s in.
    assert_eq!(playback_start_frame(&s.tempo_map, 1, 48_000, 200_000), 96_000);
    assert_eq!(playback_start_frame(&s.tempo_map, 0, 48_000, 200_000), 0);
    assert_eq!(playback_start_frame(&s.tempo_map, 3, 48_000, 100_000), 100_000);
}

#[test]
fn render_graph_chains_tracks_into_the_master() {
    // Track 0: no inserts; track 1: two inserts.
    let (topology, schedule, starts) = compile_render_topology(&vec![0, 2]).unwrap();
    assert_eq!(topology.len(), 7);
    assert_eq!(starts, vec![1, 3]);
    assert_eq!(schedule.tasks.len(), 7);
    let order: Vec<usize> = schedule.tasks.iter().map(|t| t.node).collect();
    assert_eq!(*order.last().unwrap(), 0, "the master runs last");
    let pos = |n: usize| order.iter().position(|&x| x == n).unwrap();
    // Each chain runs source, inserts, strip in order.
    assert!(pos(3) < pos(4) && pos(4) < pos(5) && pos(5) < pos(6));
    assert!(pos(1) < pos(2));
    // The master reads both strips.
    assert_eq!(schedule.tasks[6].input_buffers.len(), 2);
    assert_eq!(schedule.sink_buffer, schedule.tasks[6].output_buffer);
}

#[test]
fn renderability_is_checked_exactly() {
    let s = demo_project();
    assert!(check_renderable(&s, 48_000, 12_000));
    assert!(!check_renderable(&s, 48_000, usize::MAX));
    let mut far = demo_project();
    let id = far.tracks[0].id;
    let notes = vec![Note { pitch: Pitch::new(60), velocity: Velocity::mf(), start: Tick::zero(), duration: Tick(PPQ) }];
    let pattern = Pattern::new(notes, Tick(PPQ)).unwrap();
    far.dispatch(Command::InsertClip { track: id, name: "far".into(), pattern, at: Tick(i64::MAX - 10) }).unwrap();
    assert!(!check_renderable(&far, 48_000, 0));
}
