use musicos::core_types::{Pitch, Tempo, Tick, TimeSignature, Velocity, PPQ};

#[test]
fn ppq_is_divisible_by_common_grids() {
    for grid in [2, 3, 4, 5, 6, 8, 12, 16, 32, 64] {
        assert_eq!(PPQ % grid, 0, "PPQ must be divisible by {grid}");
    }
}

#[test]
fn quarters_rounds_toward_negative_infinity() {
    assert_eq!(Tick(PPQ * 3 + 1).quarters(), 3);
    assert_eq!(Tick(-1).quarters(), -1);
}

#[test]
fn pitch_transposition_clamps_to_midi_range() {
    assert_eq!(Pitch::new(60).transposed(7).note, 67);
    assert_eq!(Pitch::new(126).transposed(5).note, 127);
    assert_eq!(Pitch::new(2).transposed(-5).note, 0);
}

#[test]
fn velocity_is_validated() {
    assert!(Velocity::new(0).is_none());
    assert!(Velocity::new(128).is_none());
    assert_eq!(Velocity::clamped(999).get(), 127);
}

#[test]
fn bar_ticks_for_common_meters() {
    assert_eq!(TimeSignature::common().bar_ticks(), Tick(PPQ * 4));
    let seven_eight = TimeSignature {
        numerator: 7,
        denominator: 8,
    };
    assert_eq!(seven_eight.bar_ticks(), Tick(PPQ * 7 / 2));
}

#[test]
fn tick_constants_and_saturation() {
    assert_eq!(Tick::zero(), Tick(0));
    assert_eq!(Tick::quarter(), Tick(PPQ));
    assert_eq!(Tick(i64::MAX).saturating_add(Tick(5)), Tick(i64::MAX));
    assert_eq!(Tick(i64::MIN).saturating_add(Tick(-5)), Tick(i64::MIN));
    assert_eq!(Tick(-PPQ * 2 - 1).quarters(), -3);
}

#[test]
fn velocity_clamps_low_and_keeps_in_range() {
    assert_eq!(Velocity::clamped(-7).get(), 1);
    assert_eq!(Velocity::clamped(64).get(), 64);
    assert_eq!(Velocity::new(1).unwrap().get(), 1);
    assert_eq!(Velocity::mf().get(), 80);
    assert_eq!(Tempo::default_tempo().micros_per_quarter, 500_000);
}
