use musicos::core_types::{Pitch, Tick, PPQ};
use musicos::pattern::{Note, Pattern};
use musicos::core_types::Velocity;
use musicos::rhythm::{euclidean, euclidean_pattern, off_eighth_count};

const T: bool = true;
const F: bool = false;

#[test]
fn tresillo() {
    assert_eq!(euclidean(8, 3, 0), vec![T, F, F, T, F, F, T, F]);
}

#[test]
fn four_on_eight_alternates() {
    assert_eq!(euclidean(8, 4, 0), vec![T, F, T, F, T, F, T, F]);
}

#[test]
fn twelve_five() {
    assert_eq!(euclidean(12, 5, 0), vec![T, F, F, T, F, T, F, F, T, F, T, F]);
}

#[test]
fn cinquillo() {
    assert_eq!(euclidean(8, 5, 0), vec![T, F, T, T, F, T, T, F]);
}

#[test]
fn edge_cases() {
    assert_eq!(euclidean(4, 0, 0), vec![F, F, F, F]);
    assert_eq!(euclidean(4, 4, 0), vec![T, T, T, T]);
    assert_eq!(euclidean(4, 9, 0), vec![T, T, T, T]);
    assert!(euclidean(0, 3, 0).is_empty());
}

#[test]
fn rotation_rotates_left() {
    let base = euclidean(8, 3, 0);
    let rotated = euclidean(8, 3, 3);
    for i in 0..8 {
        assert_eq!(rotated[i], base[(i + 3) % 8]);
    }
    assert_eq!(euclidean(8, 3, 8), base);
}

#[test]
fn pattern_renders_notes() {
    let step = Tick(PPQ / 2);
    let p = euclidean_pattern(8, 3, 0, Pitch::new(36), step, 100);
    assert_eq!(p.length(), Tick(8 * step.0));
    assert_eq!(p.notes().len(), 3);
    let starts: Vec<i64> = p.notes().iter().map(|n| n.start.0).collect();
    assert_eq!(starts, vec![0, 3 * step.0, 6 * step.0]);
    for n in p.notes() {
        assert_eq!(n.pitch, Pitch::new(36));
        assert_eq!(n.duration, Tick(step.0 / 2));
    }
}

#[test]
fn pattern_velocity_is_clamped() {
    let p = euclidean_pattern(4, 1, 0, Pitch::new(60), Tick(PPQ), 0);
    assert_eq!(p.notes().len(), 1);
    assert_eq!(p.notes()[0].velocity.get(), 1);
}

#[test]
fn every_rhythm_has_its_pulses_and_length() {
    for steps in 0..20usize {
        for pulses in 0..24usize {
            for rotation in [0usize, 1, 5, 19] {
                let r = euclidean(steps, pulses, rotation);
                assert_eq!(r.len(), steps);
                assert_eq!(r.iter().filter(|b| **b).count(), pulses.min(steps));
            }
        }
    }
}

#[test]
fn one_tick_steps_keep_a_playable_duration() {
    let p = euclidean_pattern(4, 2, 1, Pitch::new(40), Tick(1), 90);
    assert_eq!(p.notes().len(), 2);
    for n in p.notes() {
        assert_eq!(n.duration, Tick(1));
    }
    assert_eq!(p.length(), Tick(4));
}

fn note_at(start: i64, duration: i64) -> Note {
    Note { pitch: Pitch::new(36), velocity: Velocity::mf(), start: Tick(start), duration: Tick(duration) }
}

#[test]
fn off_grid_notes_are_counted() {
    // Two on-grid notes, two off-grid (sixteenth offsets).
    let notes = vec![
        note_at(0, 100),
        note_at(PPQ / 2, 100),
        note_at(PPQ / 4, 100),
        note_at(PPQ + PPQ / 4, 100),
    ];
    let p = Pattern::new(notes, Tick(2 * PPQ)).unwrap();
    assert_eq!(off_eighth_count(&p), 2);
    assert_eq!(off_eighth_count(&Pattern::empty(Tick(PPQ))), 0);
    let on_grid = (0..4).map(|i| note_at(i * PPQ / 2, 100)).collect();
    assert_eq!(off_eighth_count(&Pattern::new(on_grid, Tick(2 * PPQ)).unwrap()), 0);
}
