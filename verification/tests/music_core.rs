use musicos::core_types::{Pitch, Seed, Tick, Velocity, PPQ};
use musicos::pattern::{Note, Pattern, PatternError};

fn note(start: i64, dur: i64, pitch: u8) -> Note {
    Note {
        pitch: Pitch::new(pitch),
        velocity: Velocity::mf(),
        start: Tick(start),
        duration: Tick(dur),
    }
}

#[test]
fn construction_sorts_and_grows_length() {
    let p = Pattern::new(vec![note(960, 480, 64), note(0, 480, 60)], Tick::zero()).unwrap();
    assert_eq!(p.notes()[0].start, Tick(0));
    assert_eq!(p.length(), Tick(1440));
}

#[test]
fn construction_rejects_invalid_notes() {
    assert!(Pattern::new(vec![note(-1, 10, 60)], Tick::zero()).is_err());
    assert!(Pattern::new(vec![note(0, 0, 60)], Tick::zero()).is_err());
}

#[test]
fn full_quantize_snaps_to_grid() {
    let p = Pattern::new(vec![note(1000, 100, 60), note(430, 100, 62)], Tick(PPQ * 4)).unwrap();
    let q = p.quantized(Tick(PPQ / 2), 100);
    assert_eq!(q.notes()[0].start, Tick(480));
    assert_eq!(q.notes()[1].start, Tick(960));
}

#[test]
fn humanize_is_deterministic_per_seed() {
    let p = Pattern::new(vec![note(0, 480, 60), note(960, 480, 64)], Tick(PPQ * 2)).unwrap();
    let a = p.humanized(Seed(42), Tick(30), 10);
    let b = p.humanized(Seed(42), Tick(30), 10);
    let c = p.humanized(Seed(43), Tick(30), 10);
    assert_eq!(a, b);
    assert_ne!(a, c);
}

#[test]
fn first_invalid_note_is_reported() {
    assert_eq!(
        Pattern::new(vec![note(0, 0, 60), note(-5, 10, 60)], Tick::zero()).unwrap_err(),
        PatternError::NonPositiveDuration(Tick(0))
    );
    assert_eq!(
        Pattern::new(vec![note(-5, 10, 60), note(0, 0, 60)], Tick::zero()).unwrap_err(),
        PatternError::NegativeStart(Tick(-5))
    );
}

#[test]
fn equal_starts_sort_by_pitch_and_keep_order() {
    let p = Pattern::new(vec![note(0, 10, 64), note(0, 20, 60), note(0, 30, 64)], Tick(5)).unwrap();
    let keys: Vec<(u8, i64)> = p.notes().iter().map(|n| (n.pitch.note, n.duration.0)).collect();
    assert_eq!(keys, vec![(60, 20), (64, 10), (64, 30)]);
    assert_eq!(p.length(), Tick(30));
    assert_eq!(Pattern::empty(Tick(7)).length(), Tick(7));
    assert_eq!(note(5, 7, 60).end(), Tick(12));
}

#[test]
fn transposing_up_then_down_is_the_identity_away_from_the_clamp() {
    let starts = [0i64, 17, 480, 480, 9_000];
    let notes: Vec<Note> = starts.iter().map(|&s| note(s, 240, 60)).collect();
    let p = Pattern::new(notes, Tick(20_000)).unwrap();
    for semis in 1i8..=12 {
        assert_eq!(p.transposed(semis).transposed(-semis), p);
    }
    // At the edge of the MIDI range the clamp loses information.
    let high = Pattern::new(vec![note(0, 10, 125)], Tick(10)).unwrap();
    assert_eq!(high.transposed(5).transposed(-5).notes()[0].pitch.note, 122);
}

#[test]
fn full_strength_quantize_is_idempotent() {
    let starts = [0i64, 13, 119, 121, 777, 5_000, 7_999];
    let notes: Vec<Note> = starts.iter().map(|&s| note(s, 120, 60)).collect();
    let p = Pattern::new(notes, Tick(10_000)).unwrap();
    let q = p.quantized(Tick(240), 100);
    assert_eq!(q.quantized(Tick(240), 100), q);
    for n in q.notes() {
        assert_eq!(n.start.0 % 240, 0);
    }
}

#[test]
fn partial_quantize_moves_part_of_the_way_and_clamps() {
    let p = Pattern::new(vec![note(100, 10, 60), note(1000, 10, 62)], Tick(1000)).unwrap();
    let q = p.quantized(Tick(480), 50);
    assert_eq!(q.notes()[0].start, Tick(50));
    assert_eq!(q.notes()[1].start, Tick(980));
    let over = p.quantized(Tick(480), 255);
    assert_eq!(over.notes()[0].start, Tick(0));
}

#[test]
fn humanize_keeps_notes_in_range() {
    let p = Pattern::new(vec![note(0, 480, 60), note(960, 480, 64)], Tick(PPQ * 2)).unwrap();
    let h = p.humanized(Seed(7), Tick(30), 10);
    assert_eq!(h.notes().len(), 2);
    for n in h.notes() {
        assert!(n.start.0 >= 0 && n.start.0 <= PPQ * 2);
        assert!(n.velocity.get() >= 70 && n.velocity.get() <= 90);
    }
}
