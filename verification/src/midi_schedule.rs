//! Flattening a project into a time-ordered, channel-assigned list of MIDI
//! messages for live streaming.
//!
//! Times are microseconds from the stream start (the wall-clock player turns
//! them into seconds). Only MIDI tracks that are not muted are streamed,
//! and track *i* of the project plays on channel `i % 16`; a stream that starts at a bar drops notes that
//! ended before it and keeps the note-off of notes that are still sounding.

use vstd::prelude::*;
use crate::core_types::{Tick, PPQ};
use crate::pattern::{note_end, Note};
use crate::project_types::{ClipView, ProjectState, ProjectView, TrackKind, TrackView};
use crate::project_store::clips_get;
use crate::sorting::{is_stable_sort_of, stable_sort, SortKey};
use crate::core_types::Tempo;
use crate::timeline::{lemma_micros_mono, lemma_micros_nonneg, map_wf, tick_micros, TempoMap};
use crate::project_types::Placement;

verus! {

broadcast use vstd::seq_lib::group_seq_properties;

/// Note-on status nibble.
pub const NOTE_ON: u8 = 0x90;
/// Note-off status nibble.
pub const NOTE_OFF: u8 = 0x80;
/// Ticks per 4/4 bar.
pub const BAR_TICKS: i64 = 3840;

/// One scheduled MIDI message.
#[derive(Debug, Clone, Copy, PartialEq, Eq)]
pub struct Event {
    /// When to send, in microseconds from the stream start.
    pub at_micros: i64,
    /// Raw 3-byte channel message (status, data1, data2).
    pub bytes: [u8; 3],
}

/// The event at `at` carrying the three message bytes.
pub open spec fn ev(at: int, status: int, data1: int, data2: int) -> Event {
    Event { at_micros: at as i64, bytes: [status as u8, data1 as u8, data2 as u8] }
}

impl SortKey for Event {
    /// Time first; at equal times note-offs (status `0x8_`) precede note-ons.
    open spec fn key(&self) -> int {
        self.at_micros * 16 + self.bytes[0] / 16
    }

    fn sort_key(&self) -> (k: i128) {
        (self.at_micros as i128) * 16 + (self.bytes[0] / 16) as i128
    }
}

/// A track is streamed when it holds MIDI and is not muted.
pub open spec fn streamed(t: TrackView) -> bool {
    t.kind == TrackKind::Midi && !t.mix.muted
}

/// The messages of one note placed at `at`, for a stream starting at tick
/// `from` whose time origin lies `offset` microseconds into the song.
pub open spec fn note_events(
    tempo: Seq<(Tick, Tempo)>,
    from: int,
    offset: int,
    channel: int,
    at: int,
    n: Note,
) -> Seq<Event> {
    let on = at + n.start.0;
    let off = at + note_end(n);
    let off_event = seq![ev(tick_micros(tempo, off) - offset, 0x80 + channel, n.pitch.note as int, 0)];
    if off <= from {
        Seq::empty()
    } else if on >= from {
        seq![
            ev(
                tick_micros(tempo, on) - offset,
                0x90 + channel,
                n.pitch.note as int,
                n.velocity.value() as int,
            ),
        ] + off_event
    } else {
        off_event
    }
}

/// The messages of a run of notes placed at `at`, note by note.
pub open spec fn notes_events(
    tempo: Seq<(Tick, Tempo)>,
    from: int,
    offset: int,
    channel: int,
    at: int,
    notes: Seq<Note>,
) -> Seq<Event>
    decreases notes.len(),
{
    if notes.len() == 0 {
        Seq::empty()
    } else {
        notes_events(tempo, from, offset, channel, at, notes.drop_last()) + note_events(
            tempo,
            from,
            offset,
            channel,
            at,
            notes.last(),
        )
    }
}

/// The messages of a track's placements, placement by placement.
pub open spec fn placements_events(
    s: ProjectView,
    from: int,
    offset: int,
    channel: int,
    ps: Seq<crate::project_types::Placement>,
) -> Seq<Event>
    decreases ps.len(),
{
    if ps.len() == 0 {
        Seq::empty()
    } else {
        placements_events(s, from, offset, channel, ps.drop_last()) + notes_events(
            s.tempo,
            from,
            offset,
            channel,
            ps.last().at.0 as int,
            s.clips[ps.last().clip.0].pattern.notes,
        )
    }
}

/// The messages of the tracks `ts` that are streamed; the `i`-th track of
/// `ts` plays on channel `i % 16`.
pub open spec fn tracks_events(s: ProjectView, from: int, offset: int, ts: Seq<TrackView>) -> Seq<
    Event,
>
    decreases ts.len(),
{
    if ts.len() == 0 {
        Seq::empty()
    } else if streamed(ts.last()) {
        tracks_events(s, from, offset, ts.drop_last()) + placements_events(
            s,
            from,
            offset,
            (ts.len() - 1) % 16,
            ts.last().placements,
        )
    } else {
        tracks_events(s, from, offset, ts.drop_last())
    }
}

/// The first tick of bar `start_bar` (4/4).
pub open spec fn bar_start_tick(start_bar: int) -> int {
    start_bar * BAR_TICKS
}

/// Every message of a stream from `start_bar`, in project order (unsorted).
pub open spec fn raw_schedule(s: ProjectView, start_bar: int) -> Seq<Event> {
    let from = bar_start_tick(start_bar);
    tracks_events(s, from, tick_micros(s.tempo, from), s.tracks)
}

/// A note placed at `at` has representable on/off ticks and times.
pub open spec fn note_fits(tempo: Seq<(Tick, Tempo)>, at: int, n: Note) -> bool {
    &&& i64::MIN <= note_end(n) <= i64::MAX
    &&& i64::MIN <= at + n.start.0 <= i64::MAX
    &&& i64::MIN <= at + note_end(n) <= i64::MAX
    &&& tick_micros(tempo, at + n.start.0) <= i64::MAX
    &&& tick_micros(tempo, at + note_end(n)) <= i64::MAX
}

/// A placement names an existing clip whose notes all fit.
pub open spec fn placement_fits(s: ProjectView, p: crate::project_types::Placement) -> bool {
    &&& s.clips.dom().contains(p.clip.0)
    &&& forall|k: int|
        0 <= k < s.clips[p.clip.0].pattern.notes.len() ==> #[trigger] note_fits(
            s.tempo,
            p.at.0 as int,
            s.clips[p.clip.0].pattern.notes[k],
        )
}

/// The stream from `start_bar` can be computed without overflow, and every
/// placement of a streamed track names an existing clip.
pub open spec fn schedulable(s: ProjectView, start_bar: int) -> bool {
    &&& bar_start_tick(start_bar) <= i64::MAX
    &&& tick_micros(s.tempo, bar_start_tick(start_bar)) <= i64::MAX
    &&& forall|i: int, j: int|
        0 <= i < s.tracks.len() && streamed(s.tracks[i]) && 0 <= j
            < s.tracks[i].placements.len() ==> #[trigger] placement_fits(
            s,
            s.tracks[i].placements[j],
        )
}

/// Appends the messages of `notes` placed at `at` on `channel`.
fn push_notes(
    events: &mut Vec<Event>,
    tempo: &TempoMap,
    from: i64,
    offset: i64,
    channel: u8,
    at: i64,
    notes: &[Note],
)
    requires
        tempo.wf(),
        channel < 16,
        offset == tick_micros(tempo@, from as int),
        forall|k: int| 0 <= k < notes@.len() ==> #[trigger] note_fits(tempo@, at as int, notes@[k]),
    ensures
        final(events)@ == old(events)@ + notes_events(
            tempo@,
            from as int,
            offset as int,
            channel as int,
            at as int,
            notes@,
        ),
{
    let ghost start = events@;
    proof {
        lemma_micros_nonneg(tempo@, from as int);
    }
    let mut k: usize = 0;
    assert(notes@.subrange(0, 0) =~= Seq::<Note>::empty());
    while k < notes.len()
        invariant
            tempo.wf(),
            channel < 16,
            offset == tick_micros(tempo@, from as int),
            0 <= offset,
            forall|j: int| 0 <= j < notes@.len() ==> #[trigger] note_fits(tempo@, at as int, notes@[j]),
            k <= notes@.len(),
            events@ == start + notes_events(
                tempo@,
                from as int,
                offset as int,
                channel as int,
                at as int,
                notes@.subrange(0, k as int),
            ),
        decreases notes@.len() - k,
    {
        let n = notes[k];
        assert(note_fits(tempo@, at as int, notes@[k as int]));
        let ghost before = events@;
        let on: i64 = at + n.start.0;
        let off: i64 = at + n.end().0;
        if off > from {
            let key = n.pitch.note;
            if on >= from {
                proof {
                    lemma_micros_nonneg(tempo@, on as int);
                }
                let t = tempo.tick_to_micros(Tick(on)) - offset;
                events.push(Event { at_micros: t, bytes: [NOTE_ON + channel, key, n.velocity.get()] });
            }
            proof {
                lemma_micros_nonneg(tempo@, off as int);
            }
            let t = tempo.tick_to_micros(Tick(off)) - offset;
            events.push(Event { at_micros: t, bytes: [NOTE_OFF + channel, key, 0] });
        }
        proof {
            let pre = notes@.subrange(0, k as int);
            let next = notes@.subrange(0, k + 1);
            assert(next.drop_last() =~= pre);
            assert(next.last() == n);
            let evs = note_events(tempo@, from as int, offset as int, channel as int, at as int, n);
            assert(events@ =~= before + evs);
            assert(start + notes_events(tempo@, from as int, offset as int, channel as int, at as int, next)
                =~= start + notes_events(tempo@, from as int, offset as int, channel as int, at as int, pre) + evs);
        }
        k += 1;
    }
    assert(notes@.subrange(0, notes@.len() as int) =~= notes@);
}

/// Appends the messages of a track's placements on `channel`.
fn push_placements(
    events: &mut Vec<Event>,
    state: &ProjectState,
    from: i64,
    offset: i64,
    channel: u8,
    ps: &Vec<Placement>,
)
    requires
        state.wf(),
        channel < 16,
        offset == tick_micros(state@.tempo, from as int),
        forall|j: int| 0 <= j < ps@.len() ==> #[trigger] placement_fits(state@, ps@[j]),
    ensures
        final(events)@ == old(events)@ + placements_events(
            state@,
            from as int,
            offset as int,
            channel as int,
            ps@,
        ),
{
    let ghost start = events@;
    let mut j: usize = 0;
    assert(ps@.subrange(0, 0) =~= Seq::<Placement>::empty());
    while j < ps.len()
        invariant
            state.wf(),
            channel < 16,
            offset == tick_micros(state@.tempo, from as int),
            forall|q: int| 0 <= q < ps@.len() ==> #[trigger] placement_fits(state@, ps@[q]),
            j <= ps@.len(),
            events@ == start + placements_events(
                state@,
                from as int,
                offset as int,
                channel as int,
                ps@.subrange(0, j as int),
            ),
        decreases ps@.len() - j,
    {
        let p = ps[j];
        assert(placement_fits(state@, ps@[j as int]));
        let ghost before = events@;
        match clips_get(&state.clips, p.clip) {
            Some(clip) => {
                let notes = clip.pattern.notes();
                assert forall|k: int| 0 <= k < notes@.len() implies #[trigger] note_fits(
                    state.tempo_map@,
                    p.at.0 as int,
                    notes@[k],
                ) by {
                    assert(note_fits(
                        state@.tempo,
                        p.at.0 as int,
                        state@.clips[p.clip.0].pattern.notes[k],
                    ));
                }
                push_notes(events, &state.tempo_map, from, offset, channel, p.at.0, notes);
            },
            None => {
                assert(false);
            },
        }
        proof {
            let pre = ps@.subrange(0, j as int);
            let next = ps@.subrange(0, j + 1);
            assert(next.drop_last() =~= pre);
            assert(next.last() == p);
        }
        j += 1;
    }
    assert(ps@.subrange(0, ps@.len() as int) =~= ps@);
}

/// Flattens a project into time-ordered MIDI messages starting at bar
/// `start_bar` (4/4): the stable sort, by time and then note-offs before
/// note-ons, of every message of the streamed tracks in project order, with
/// track `i` of the project on channel `i % 16`.
pub fn schedule(state: &ProjectState, start_bar: u64) -> (r: Vec<Event>)
    requires
        state.wf(),
        schedulable(state@, start_bar as int),
    ensures
        is_stable_sort_of(r@, raw_schedule(state@, start_bar as int)),
{
    let from: i64 = (start_bar as i64) * BAR_TICKS;
    let offset = state.tempo_map.tick_to_micros(Tick(from));
    let ghost tv = state@.tracks;
    let mut events: Vec<Event> = Vec::new();
    let mut i: usize = 0;
    assert(tv.subrange(0, 0) =~= Seq::<TrackView>::empty());
    while i < state.tracks.len()
        invariant
            state.wf(),
            schedulable(state@, start_bar as int),
            tv == state@.tracks,
            from == bar_start_tick(start_bar as int),
            offset == tick_micros(state@.tempo, from as int),
            i <= tv.len(),
            events@ == tracks_events(state@, from as int, offset as int, tv.subrange(0, i as int)),
        decreases tv.len() - i,
    {
        let t = &state.tracks[i];
        let ghost pre = tv.subrange(0, i as int);
        let ghost next = tv.subrange(0, i + 1);
        proof {
            assert(next.drop_last() =~= pre);
            assert(next.last() == t@);
        }
        if t.kind == TrackKind::Midi && !t.mix.muted {
            let channel = (i % 16) as u8;
            assert forall|j: int| 0 <= j < t.placements@.len() implies #[trigger] placement_fits(
                state@,
                t.placements@[j],
            ) by {
                assert(state@.tracks[i as int].placements[j] == t.placements@[j]);
                assert(placement_fits(state@, state@.tracks[i as int].placements[j]));
            }
            push_placements(&mut events, state, from, offset, channel, &t.placements);
        }
        i += 1;
    }
    assert(tv.subrange(0, tv.len() as int) =~= tv);
    stable_sort(&events)
}

// ---------------------------------------------------------------- pairing

/// A note-on message.
pub open spec fn is_note_on(e: Event) -> bool {
    e.bytes[0] / 16 == 9
}

/// Every note-on of `es` is followed at once by a note-off on the same
/// channel for the same key, no earlier than it.
pub open spec fn ons_paired(es: Seq<Event>) -> bool {
    forall|i: int|
        0 <= i < es.len() && is_note_on(#[trigger] es[i]) ==> {
            &&& i + 1 < es.len()
            &&& es[i + 1].bytes[0] == es[i].bytes[0] - 16
            &&& es[i + 1].bytes[1] == es[i].bytes[1]
            &&& es[i + 1].at_micros >= es[i].at_micros
        }
}

/// Every note of every clip has a positive duration (true of every pattern).
pub open spec fn durations_positive(s: ProjectView) -> bool {
    forall|c: u64, k: int|
        s.clips.dom().contains(c) && 0 <= k < s.clips[c].pattern.notes.len() ==> (#[trigger] s.clips[c].pattern.notes[k]).duration.0 > 0
}

proof fn lemma_paired_concat(a: Seq<Event>, b: Seq<Event>)
    requires
        ons_paired(a),
        ons_paired(b),
    ensures
        ons_paired(a + b),
{
    let c = a + b;
    assert forall|i: int| 0 <= i < c.len() && is_note_on(#[trigger] c[i]) implies {
        &&& i + 1 < c.len()
        &&& c[i + 1].bytes[0] == c[i].bytes[0] - 16
        &&& c[i + 1].bytes[1] == c[i].bytes[1]
        &&& c[i + 1].at_micros >= c[i].at_micros
    } by {
        if i < a.len() {
            assert(c[i] == a[i]);
            assert(is_note_on(a[i]));
            assert(c[i + 1] == a[i + 1]);
        } else {
            assert(c[i] == b[i - a.len()]);
            assert(is_note_on(b[i - a.len()]));
            assert(c[i + 1] == b[i - a.len() + 1]);
        }
    }
}

proof fn lemma_note_paired(
    tempo: Seq<(Tick, Tempo)>,
    from: int,
    offset: int,
    channel: int,
    at: int,
    n: Note,
)
    requires
        map_wf(tempo),
        note_fits(tempo, at, n),
        n.duration.0 > 0,
        0 <= offset <= i64::MAX,
        0 <= channel < 16,
    ensures
        ons_paired(note_events(tempo, from, offset, channel, at, n)),
{
    let on = at + n.start.0;
    let off = at + note_end(n);
    lemma_micros_nonneg(tempo, on);
    lemma_micros_nonneg(tempo, off);
    lemma_micros_mono(tempo, on, off);
    let es = note_events(tempo, from, offset, channel, at, n);
    let off_event = ev(tick_micros(tempo, off) - offset, 0x80 + channel, n.pitch.note as int, 0);
    assert(off_event.bytes[0] == (0x80 + channel) as u8);
    assert(!is_note_on(off_event));
    if off > from && on >= from {
        let on_event = ev(
            tick_micros(tempo, on) - offset,
            0x90 + channel,
            n.pitch.note as int,
            n.velocity.value() as int,
        );
        assert(on_event.bytes[0] == (0x90 + channel) as u8);
        assert(on_event.bytes[1] == n.pitch.note);
        assert(off_event.bytes[1] == n.pitch.note);
        assert(es =~= seq![on_event, off_event]);
    }
}

proof fn lemma_notes_paired(
    tempo: Seq<(Tick, Tempo)>,
    from: int,
    offset: int,
    channel: int,
    at: int,
    notes: Seq<Note>,
)
    requires
        map_wf(tempo),
        forall|k: int| 0 <= k < notes.len() ==> #[trigger] note_fits(tempo, at, notes[k]),
        forall|k: int| 0 <= k < notes.len() ==> (#[trigger] notes[k]).duration.0 > 0,
        0 <= offset <= i64::MAX,
        0 <= channel < 16,
    ensures
        ons_paired(notes_events(tempo, from, offset, channel, at, notes)),
    decreases notes.len(),
{
    if notes.len() > 0 {
        let rest = notes.drop_last();
        assert forall|k: int| 0 <= k < rest.len() implies #[trigger] note_fits(tempo, at, rest[k]) by {
            assert(rest[k] == notes[k]);
        }
        assert forall|k: int| 0 <= k < rest.len() implies (#[trigger] rest[k]).duration.0 > 0 by {
            assert(rest[k] == notes[k]);
        }
        lemma_notes_paired(tempo, from, offset, channel, at, rest);
        assert(note_fits(tempo, at, notes[notes.len() - 1]));
        lemma_note_paired(tempo, from, offset, channel, at, notes.last());
        lemma_paired_concat(
            notes_events(tempo, from, offset, channel, at, rest),
            note_events(tempo, from, offset, channel, at, notes.last()),
        );
    }
}

proof fn lemma_placements_paired(
    s: ProjectView,
    from: int,
    offset: int,
    channel: int,
    ps: Seq<crate::project_types::Placement>,
)
    requires
        map_wf(s.tempo),
        durations_positive(s),
        forall|j: int| 0 <= j < ps.len() ==> #[trigger] placement_fits(s, ps[j]),
        0 <= offset <= i64::MAX,
        0 <= channel < 16,
    ensures
        ons_paired(placements_events(s, from, offset, channel, ps)),
    decreases ps.len(),
{
    if ps.len() > 0 {
        let rest = ps.drop_last();
        assert forall|j: int| 0 <= j < rest.len() implies #[trigger] placement_fits(s, rest[j]) by {
            assert(rest[j] == ps[j]);
        }
        lemma_placements_paired(s, from, offset, channel, rest);
        let p = ps.last();
        assert(placement_fits(s, ps[ps.len() - 1]));
        let notes = s.clips[p.clip.0].pattern.notes;
        assert forall|k: int| 0 <= k < notes.len() implies (#[trigger] notes[k]).duration.0 > 0 by {
            assert(s.clips[p.clip.0].pattern.notes[k].duration.0 > 0);
        }
        lemma_notes_paired(s.tempo, from, offset, channel, p.at.0 as int, notes);
        lemma_paired_concat(
            placements_events(s, from, offset, channel, rest),
            notes_events(s.tempo, from, offset, channel, p.at.0 as int, notes),
        );
    }
}

proof fn lemma_tracks_paired(s: ProjectView, from: int, offset: int, ts: Seq<TrackView>)
    requires
        map_wf(s.tempo),
        durations_positive(s),
        forall|i: int, j: int|
            0 <= i < ts.len() && streamed(ts[i]) && 0 <= j < ts[i].placements.len()
                ==> #[trigger] placement_fits(s, ts[i].placements[j]),
        0 <= offset <= i64::MAX,
    ensures
        ons_paired(tracks_events(s, from, offset, ts)),
    decreases ts.len(),
{
    if ts.len() > 0 {
        let rest = ts.drop_last();
        assert forall|i: int, j: int|
            0 <= i < rest.len() && streamed(rest[i]) && 0 <= j < rest[i].placements.len()
                implies #[trigger] placement_fits(s, rest[i].placements[j]) by {
            assert(rest[i] == ts[i]);
        }
        lemma_tracks_paired(s, from, offset, rest);
        let t = ts.last();
        if streamed(t) {
            assert forall|j: int| 0 <= j < t.placements.len() implies #[trigger] placement_fits(
                s,
                t.placements[j],
            ) by {
                assert(placement_fits(s, ts[ts.len() - 1].placements[j]));
            }
            lemma_placements_paired(s, from, offset, (ts.len() - 1) % 16, t.placements);
            lemma_paired_concat(
                tracks_events(s, from, offset, rest),
                placements_events(s, from, offset, (ts.len() - 1) % 16, t.placements),
            );
        }
    }
}

/// In project order, every note-on of a stream is followed at once by the
/// note-off of the same note (same channel, same key), never earlier; the
/// scheduled stream is the time-ordered rearrangement of these messages, so
/// note-ons and note-offs balance on every channel when no note is cut by
/// the start bar.
pub proof fn law_every_note_on_has_its_note_off(s: ProjectView, start_bar: int)
    requires
        map_wf(s.tempo),
        schedulable(s, start_bar),
        durations_positive(s),
    ensures
        ons_paired(raw_schedule(s, start_bar)),
{
    let from = bar_start_tick(start_bar);
    lemma_micros_nonneg(s.tempo, from);
    lemma_tracks_paired(s, from, tick_micros(s.tempo, from), s.tracks);
}

} // verus!
