use musicos::arrangement::{default_sections, ArrangementError, Section, SectionPlan, BAR};
use musicos::core_types::{ProjectId, Tick, TrackId, PPQ};
use musicos::pattern::Pattern;
use musicos::project_plan::Command;
use musicos::project_types::{ProjectState, TrackKind};

fn plan() -> SectionPlan {
    SectionPlan::new(
        vec![
            Section { name: "intro".into(), bars: 4 },
            Section { name: "verse".into(), bars: 8 },
            Section { name: "chorus".into(), bars: 8 },
        ],
        0,
    )
    .unwrap()
}

#[test]
fn offsets_are_cumulative() {
    let placed = plan().offsets();
    assert_eq!(placed[0].at, Tick(0));
    assert_eq!(placed[1].at, Tick(4 * BAR));
    assert_eq!(placed[2].at, Tick(12 * BAR));
    assert_eq!(plan().total_bars(), 20);
}

#[test]
fn start_bar_shifts_everything() {
    let mut p = plan();
    p.start_bar = 2;
    assert_eq!(p.offsets()[0].at, Tick(2 * BAR));
}

#[test]
fn invalid_plans_are_rejected() {
    assert_eq!(SectionPlan::new(vec![], 0).unwrap_err(), ArrangementError::Empty);
    assert!(SectionPlan::new(vec![Section { name: "x".into(), bars: 0 }], 0).is_err());
    assert!(SectionPlan::new(vec![Section { name: "  ".into(), bars: 4 }], 0).is_err());
}

#[test]
fn the_first_invalid_section_is_named() {
    let err = SectionPlan::new(
        vec![
            Section { name: "ok".into(), bars: 2 },
            Section { name: "bad".into(), bars: 0 },
            Section { name: "".into(), bars: 3 },
        ],
        0,
    )
    .unwrap_err();
    assert_eq!(err, ArrangementError::InvalidSection("bad".into()));
    assert_eq!(err.message(), "invalid section 'bad': needs a name and at least one bar");
    assert_eq!(ArrangementError::Empty.message(), "a section plan needs at least one section");
}

#[test]
fn placed_sections_carry_their_start_bars() {
    let mut p = plan();
    p.start_bar = 1;
    let placed = p.offsets();
    let bars: Vec<usize> = placed.iter().map(|s| s.start_bar).collect();
    assert_eq!(bars, vec![1, 5, 13]);
    assert_eq!(placed[2].section.name, "chorus");
    assert_eq!(p.total_bars(), 20);
}

#[test]
fn default_structure_quarters_the_song() {
    let mut s = ProjectState::new(ProjectId(1), "Song");
    let names: Vec<String> = default_sections(&s).iter().map(|x| x.name.clone()).collect();
    assert_eq!(names, vec!["intro", "A", "B", "outro"]);
    assert!(default_sections(&s).iter().all(|x| x.bars == 1), "an empty song is four bars");
    s.dispatch(Command::CreateTrack { name: "Keys".into(), kind: TrackKind::Midi }).unwrap();
    s.dispatch(Command::InsertClip {
        track: TrackId(0),
        name: "long".into(),
        pattern: Pattern::empty(Tick(PPQ * 4 * 10 - 1)),
        at: Tick(PPQ * 4 * 2),
    })
    .unwrap();
    // The clip ends just before bar 12: twelve bars, three per section.
    assert!(default_sections(&s).iter().all(|x| x.bars == 3));
}
