use musicos::core_types::{Tempo, Tick, TimeSignature, PPQ};
use musicos::timeline::{default_signature_map, default_tempo_map, TempoMap, TimelineError};

#[test]
fn constant_tempo_conversion_is_exact() {
    let map = TempoMap::constant(Tempo::default_tempo());
    assert_eq!(map.tick_to_micros(Tick(PPQ)), 500_000);
    assert_eq!(map.tick_to_micros(Tick(PPQ * 4)), 2_000_000);
    assert_eq!(map.tick_to_samples(Tick(PPQ), 48_000), 24_000);
}

#[test]
fn tempo_changes_accumulate_per_segment() {
    let map = TempoMap::new(vec![
        (Tick::zero(), Tempo::default_tempo()),
        (
            Tick(PPQ),
            Tempo {
                micros_per_quarter: 1_000_000,
            },
        ),
    ])
    .unwrap();
    assert_eq!(map.tick_to_micros(Tick(PPQ)), 500_000);
    assert_eq!(map.tick_to_micros(Tick(PPQ * 2)), 1_500_000);
    assert_eq!(map.tempo_at(Tick(PPQ - 1)), Tempo::default_tempo());
    assert_eq!(map.tempo_at(Tick(PPQ)).micros_per_quarter, 1_000_000);
}

#[test]
fn invariants_are_enforced() {
    assert_eq!(TempoMap::new(vec![]).unwrap_err(), TimelineError::Empty);
    assert_eq!(
        TempoMap::new(vec![(Tick(10), Tempo::default_tempo())]).unwrap_err(),
        TimelineError::NoOrigin
    );
    assert_eq!(
        TempoMap::new(vec![
            (Tick::zero(), Tempo::default_tempo()),
            (Tick::zero(), Tempo::default_tempo())
        ])
        .unwrap_err(),
        TimelineError::DuplicateTick
    );
}

#[test]
fn set_and_remove_preserve_invariants() {
    let mut map = default_tempo_map();
    let slow = Tempo {
        micros_per_quarter: 1_000_000,
    };
    assert_eq!(map.set(Tick(PPQ), slow).unwrap(), None);
    assert_eq!(map.set(Tick(PPQ), Tempo::default_tempo()).unwrap(), Some(slow));
    assert_eq!(map.remove(Tick(PPQ)).unwrap(), Some(Tempo::default_tempo()));
    assert_eq!(map.remove(Tick(PPQ)).unwrap(), None);
    assert_eq!(map.remove(Tick::zero()).unwrap_err(), TimelineError::NoOrigin);
    assert_eq!(map.set(Tick(-1), slow).unwrap_err(), TimelineError::NegativeTick);
    assert_eq!(map.entries().len(), 1);
}

#[test]
fn unsorted_entries_are_sorted_and_negative_ticks_rejected() {
    let slow = Tempo {
        micros_per_quarter: 1_000_000,
    };
    let map = TempoMap::new(vec![(Tick(PPQ), slow), (Tick::zero(), Tempo::default_tempo())]).unwrap();
    assert_eq!(map.entries()[0].0, Tick(0));
    assert_eq!(map.entries()[1].0, Tick(PPQ));
    assert_eq!(
        TempoMap::new(vec![(Tick::zero(), slow), (Tick(-3), slow)]).unwrap_err(),
        TimelineError::NoOrigin
    );
    assert_eq!(map.tick_to_samples(Tick(PPQ * 2), 48_000), 72_000);
}

#[test]
fn default_signature_is_common_time() {
    let sig = default_signature_map();
    assert_eq!(sig.signature_at(Tick(123_456)), TimeSignature::common());
    assert_eq!(sig.entries().len(), 1);
    assert_eq!(TimelineError::Empty.message(), "map must have at least one entry");
}
