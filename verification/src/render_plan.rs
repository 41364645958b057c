//! The frame-level plan of an offline render or a playback: which tracks
//! sound, where each note starts and how long it is held in sample frames,
//! how long each track rings, and where a playback that starts at a bar
//! begins. The synthesis and the effects run on this plan elsewhere.

use vstd::prelude::*;
use crate::core_types::{Pitch, Tempo, Tick, Velocity};
use crate::graph::{feeds_forward, law_feeds_forward_acyclic, GraphError, NodeId, Schedule, Topology, acyclic, schedule_valid};
use crate::pattern::{note_end, Note};
use crate::project_store::clips_get;
use crate::project_types::{Placement, ProjectState, ProjectView, TrackKind, TrackView};
use crate::timeline::{lemma_micros_nonneg, tick_micros, tick_samples, TempoMap};

verus! {

broadcast use vstd::seq_lib::group_seq_properties;

/// Errors from planning a render.
#[derive(Debug, Clone, Copy, PartialEq, Eq)]
pub enum RenderError {
    /// The project has no MIDI notes to render.
    EmptyProject,
    /// Graph construction failed.
    Graph(GraphError),
}

impl RenderError {
    /// Human-readable description (graph errors carry their own text).
    pub fn message(&self) -> (r: &'static str)
        ensures
            *self == RenderError::EmptyProject ==> r@ == "project has no notes to render"@,
    {
        match self {
            RenderError::EmptyProject => "project has no notes to render",
            RenderError::Graph(e) => e.message(),
        }
    }
}

/// One note of a track, in sample frames.
#[derive(Debug, Clone, Copy, PartialEq, Eq)]
pub struct NoteSpan {
    /// First frame of the note.
    pub start: usize,
    /// Frames the note is held (at least one).
    pub held: usize,
    /// The note's pitch.
    pub pitch: Pitch,
    /// The note's velocity.
    pub velocity: Velocity,
}

/// The plan of one sounding track.
#[derive(Debug, Clone, PartialEq, Eq)]
pub struct TrackPlan {
    /// Index of the track in the project.
    pub track: usize,
    /// Frames from the song start until the track's last release ends.
    pub frames: usize,
    /// Every note of the track, placement by placement.
    pub notes: Vec<NoteSpan>,
}

/// The plan of a whole render.
#[derive(Debug, Clone, PartialEq, Eq)]
pub struct RenderPlan {
    /// The sounding MIDI tracks, in project order.
    pub tracks: Vec<TrackPlan>,
    /// The latest end over all planned tracks.
    pub last_end: usize,
}

/// The frame at which tick `t` sounds.
pub open spec fn frame_at(tempo: Seq<(Tick, Tempo)>, t: int, rate: int) -> int {
    tick_samples(tempo, t, rate)
}

/// The frames of a note placed at `at`: start, and held length (at least one).
pub open spec fn span_of(tempo: Seq<(Tick, Tempo)>, rate: int, at: int, n: Note) -> NoteSpan {
    let s = frame_at(tempo, at + n.start.0, rate);
    let e = frame_at(tempo, at + note_end(n), rate);
    NoteSpan {
        start: s as usize,
        held: (if e - s > 1 {
            e - s
        } else {
            1
        }) as usize,
        pitch: n.pitch,
        velocity: n.velocity,
    }
}

/// The spans of a run of notes placed at `at`.
pub open spec fn notes_spans(tempo: Seq<(Tick, Tempo)>, rate: int, at: int, notes: Seq<Note>) -> Seq<
    NoteSpan,
>
    decreases notes.len(),
{
    if notes.len() == 0 {
        Seq::empty()
    } else {
        notes_spans(tempo, rate, at, notes.drop_last()).push(span_of(tempo, rate, at, notes.last()))
    }
}

/// The latest release end of a run of notes placed at `at` (0 when empty).
pub open spec fn notes_end(
    tempo: Seq<(Tick, Tempo)>,
    rate: int,
    release: int,
    at: int,
    notes: Seq<Note>,
) -> int
    decreases notes.len(),
{
    if notes.len() == 0 {
        0
    } else {
        let m = notes_end(tempo, rate, release, at, notes.drop_last());
        let e = frame_at(tempo, at + note_end(notes.last()), rate) + release;
        if e > m {
            e
        } else {
            m
        }
    }
}

/// The notes of the clip a placement names.
pub open spec fn placed_notes(s: ProjectView, p: Placement) -> Seq<Note> {
    s.clips[p.clip.0].pattern.notes
}

/// The spans of a track's placements, in order.
pub open spec fn track_spans(s: ProjectView, rate: int, ps: Seq<Placement>) -> Seq<NoteSpan>
    decreases ps.len(),
{
    if ps.len() == 0 {
        Seq::empty()
    } else {
        track_spans(s, rate, ps.drop_last()) + notes_spans(
            s.tempo,
            rate,
            ps.last().at.0 as int,
            placed_notes(s, ps.last()),
        )
    }
}

/// The latest release end over a track's placements (0 when silent).
pub open spec fn track_end(s: ProjectView, rate: int, release: int, ps: Seq<Placement>) -> int
    decreases ps.len(),
{
    if ps.len() == 0 {
        0
    } else {
        let m = track_end(s, rate, release, ps.drop_last());
        let e = notes_end(s.tempo, rate, release, ps.last().at.0 as int, placed_notes(s, ps.last()));
        if e > m {
            e
        } else {
            m
        }
    }
}

/// A track sounds in a render when it holds MIDI and some note ends after
/// frame zero once its release is counted.
pub open spec fn sounds(s: ProjectView, rate: int, release: int, t: TrackView) -> bool {
    t.kind == TrackKind::Midi && track_end(s, rate, release, t.placements) > 0
}

/// Indexes of the sounding tracks among the first `n`.
pub open spec fn sounding(s: ProjectView, rate: int, release: int, n: int) -> Seq<usize>
    decreases n,
{
    if n <= 0 {
        Seq::empty()
    } else if sounds(s, rate, release, s.tracks[n - 1]) {
        sounding(s, rate, release, n - 1).push((n - 1) as usize)
    } else {
        sounding(s, rate, release, n - 1)
    }
}

/// The latest end among the first `n` tracks that sound.
pub open spec fn song_end(s: ProjectView, rate: int, release: int, n: int) -> int
    decreases n,
{
    if n <= 0 {
        0
    } else {
        let m = song_end(s, rate, release, n - 1);
        let t = s.tracks[n - 1];
        let e = if t.kind == TrackKind::Midi {
            track_end(s, rate, release, t.placements)
        } else {
            0
        };
        if e > m {
            e
        } else {
            m
        }
    }
}

/// A note placed at `at` has representable ticks, times and frames.
pub open spec fn note_renderable(tempo: Seq<(Tick, Tempo)>, rate: int, release: int, at: int, n: Note) -> bool {
    &&& i64::MIN <= note_end(n) <= i64::MAX
    &&& i64::MIN <= at + n.start.0 <= i64::MAX
    &&& i64::MIN <= at + note_end(n) <= i64::MAX
    &&& tick_micros(tempo, at + n.start.0) <= i64::MAX
    &&& tick_micros(tempo, at + note_end(n)) <= i64::MAX
    &&& frame_at(tempo, at + n.start.0, rate) <= i64::MAX
    &&& frame_at(tempo, at + n.start.0, rate) <= usize::MAX
    &&& frame_at(tempo, at + note_end(n), rate) + release <= i64::MAX
    &&& frame_at(tempo, at + note_end(n), rate) + release <= usize::MAX
}

/// A placement names an existing clip whose notes are all renderable.
pub open spec fn placement_renderable(s: ProjectView, rate: int, release: int, p: Placement) -> bool {
    &&& s.clips.dom().contains(p.clip.0)
    &&& forall|k: int|
        0 <= k < placed_notes(s, p).len() ==> #[trigger] note_renderable(
            s.tempo,
            rate,
            release,
            p.at.0 as int,
            placed_notes(s, p)[k],
        )
}

/// Every placement of every MIDI track can be planned at `rate` with a
/// release of `release` frames.
pub open spec fn renderable(s: ProjectView, rate: int, release: int) -> bool {
    forall|i: int, j: int|
        0 <= i < s.tracks.len() && s.tracks[i].kind == TrackKind::Midi && 0 <= j
            < s.tracks[i].placements.len() ==> #[trigger] placement_renderable(
            s,
            rate,
            release,
            s.tracks[i].placements[j],
        )
}

/// `plans` is the plan of the sounding tracks among the first `n`.
pub open spec fn plans_match(s: ProjectView, rate: int, release: int, plans: Seq<TrackPlan>, n: int) -> bool {
    let idx = sounding(s, rate, release, n);
    &&& plans.len() == idx.len()
    &&& forall|k: int|
        0 <= k < idx.len() ==> {
            let t = s.tracks[idx[k] as int];
            &&& 0 <= idx[k] < n
            &&& (#[trigger] plans[k]).track == idx[k]
            &&& plans[k].frames == track_end(s, rate, release, t.placements)
            &&& plans[k].notes@ == track_spans(s, rate, t.placements)
        }
}

proof fn lemma_sounding_bound(s: ProjectView, rate: int, release: int, n: int)
    requires
        n <= usize::MAX,
    ensures
        forall|k: int| 0 <= k < sounding(s, rate, release, n).len() ==> 0 <= #[trigger] sounding(s, rate, release, n)[k] < n,
    decreases n,
{
    if n > 0 {
        lemma_sounding_bound(s, rate, release, n - 1);
        let prev = sounding(s, rate, release, n - 1);
        let cur = sounding(s, rate, release, n);
        assert forall|k: int| 0 <= k < cur.len() implies 0 <= #[trigger] cur[k] < n by {
            if k < prev.len() {
                assert(cur[k] == prev[k]);
            }
        }
    }
}

/// The larger of two integers.
pub open spec fn imax(a: int, b: int) -> int {
    if a > b {
        a
    } else {
        b
    }
}

/// Frames are never negative.
proof fn lemma_frame_nonneg(tempo: Seq<(Tick, Tempo)>, t: int, rate: int)
    requires
        crate::timeline::map_wf(tempo),
        rate >= 0,
    ensures
        frame_at(tempo, t, rate) >= 0,
{
    lemma_micros_nonneg(tempo, t);
    let m = tick_micros(tempo, t);
    assert(m * rate >= 0) by (nonlinear_arith)
        requires
            m >= 0,
            rate >= 0,
    ;
}

/// Appends the spans of `notes` placed at `at`; returns the larger of `end`
/// and their latest release end.
fn plan_notes(
    spans: &mut Vec<NoteSpan>,
    tempo: &TempoMap,
    rate: u32,
    release: usize,
    at: i64,
    notes: &[Note],
    end: usize,
) -> (r: usize)
    requires
        tempo.wf(),
        forall|k: int|
            0 <= k < notes@.len() ==> #[trigger] note_renderable(
                tempo@,
                rate as int,
                release as int,
                at as int,
                notes@[k],
            ),
    ensures
        final(spans)@ == old(spans)@ + notes_spans(tempo@, rate as int, at as int, notes@),
        r == imax(end as int, notes_end(tempo@, rate as int, release as int, at as int, notes@)),
{
    let ghost start = spans@;
    let mut best = end;
    let mut k: usize = 0;
    assert(notes@.subrange(0, 0) =~= Seq::<Note>::empty());
    while k < notes.len()
        invariant
            tempo.wf(),
            forall|j: int|
                0 <= j < notes@.len() ==> #[trigger] note_renderable(
                    tempo@,
                    rate as int,
                    release as int,
                    at as int,
                    notes@[j],
                ),
            k <= notes@.len(),
            spans@ == start + notes_spans(
                tempo@,
                rate as int,
                at as int,
                notes@.subrange(0, k as int),
            ),
            best == imax(
                end as int,
                notes_end(tempo@, rate as int, release as int, at as int, notes@.subrange(0, k as int)),
            ),
        decreases notes@.len() - k,
    {
        let n = notes[k];
        assert(note_renderable(tempo@, rate as int, release as int, at as int, notes@[k as int]));
        let on: i64 = at + n.start.0;
        let off: i64 = at + n.end().0;
        proof {
            lemma_frame_nonneg(tempo@, on as int, rate as int);
            lemma_frame_nonneg(tempo@, off as int, rate as int);
        }
        let s = tempo.tick_to_samples(Tick(on), rate);
        let e = tempo.tick_to_samples(Tick(off), rate);
        let held: i64 = if e - s > 1 {
            e - s
        } else {
            1
        };
        spans.push(
            NoteSpan {
                start: s as usize,
                held: held as usize,
                pitch: n.pitch,
                velocity: n.velocity,
            },
        );
        let fe: usize = (e as usize) + release;
        if fe > best {
            best = fe;
        }
        proof {
            let pre = notes@.subrange(0, k as int);
            let next = notes@.subrange(0, k + 1);
            assert(next.drop_last() =~= pre);
            assert(next.last() == n);
        }
        k += 1;
    }
    assert(notes@.subrange(0, notes@.len() as int) =~= notes@);
    best
}

/// The spans and latest release end of a track's placements.
fn plan_track(state: &ProjectState, rate: u32, release: usize, ps: &Vec<Placement>) -> (r: (
    usize,
    Vec<NoteSpan>,
))
    requires
        state.wf(),
        forall|j: int|
            0 <= j < ps@.len() ==> #[trigger] placement_renderable(
                state@,
                rate as int,
                release as int,
                ps@[j],
            ),
    ensures
        r.0 == track_end(state@, rate as int, release as int, ps@),
        r.1@ == track_spans(state@, rate as int, ps@),
{
    let mut spans: Vec<NoteSpan> = Vec::new();
    let mut end: usize = 0;
    let mut j: usize = 0;
    assert(ps@.subrange(0, 0) =~= Seq::<Placement>::empty());
    while j < ps.len()
        invariant
            state.wf(),
            forall|q: int|
                0 <= q < ps@.len() ==> #[trigger] placement_renderable(
                    state@,
                    rate as int,
                    release as int,
                    ps@[q],
                ),
            j <= ps@.len(),
            spans@ == track_spans(state@, rate as int, ps@.subrange(0, j as int)),
            end == track_end(state@, rate as int, release as int, ps@.subrange(0, j as int)),
        decreases ps@.len() - j,
    {
        let p = ps[j];
        assert(placement_renderable(state@, rate as int, release as int, ps@[j as int]));
        match clips_get(&state.clips, p.clip) {
            Some(clip) => {
                let notes = clip.pattern.notes();
                assert forall|k: int| 0 <= k < notes@.len() implies #[trigger] note_renderable(
                    state.tempo_map@,
                    rate as int,
                    release as int,
                    p.at.0 as int,
                    notes@[k],
                ) by {
                    assert(note_renderable(
                        state@.tempo,
                        rate as int,
                        release as int,
                        p.at.0 as int,
                        placed_notes(state@, p)[k],
                    ));
                }
                end = plan_notes(&mut spans, &state.tempo_map, rate, release, p.at.0, notes, end);
            },
            None => {
                assert(false);
            },
        }
        proof {
            let pre = ps@.subrange(0, j as int);
            let next = ps@.subrange(0, j + 1);
            assert(next.drop_last() =~= pre);
            assert(next.last() == p);
        }
        j += 1;
    }
    assert(ps@.subrange(0, ps@.len() as int) =~= ps@);
    (end, spans)
}

/// Samples from the origin to tick `t` at `rate` Hz, given the microseconds
/// up to `t`, when they fit `i64`.
fn frames_of(micros: i128, rate: u32) -> (r: i128)
    requires
        0 <= micros <= i64::MAX,
    ensures
        r == micros * rate / 1_000_000,
        0 <= r <= 0x8000_0000_0000_0000 * 0x1_0000_0000,
{
    assert(0 <= micros * (rate as int) <= 0x8000_0000_0000_0000 * 0x1_0000_0000) by (nonlinear_arith)
        requires
            0 <= micros <= i64::MAX,
            rate < 0x1_0000_0000,
    ;
    assert(micros * (rate as int) / 1_000_000 <= micros * (rate as int)) by (nonlinear_arith)
        requires
            0 <= micros * (rate as int),
    ;
    micros * (rate as i128) / 1_000_000
}

/// Whether a note placed at `at` can be planned (see [`note_renderable`]).
fn note_fits_plan(tempo: &TempoMap, rate: u32, release: usize, at: i64, n: Note) -> (r: bool)
    requires
        tempo.wf(),
    ensures
        r == note_renderable(tempo@, rate as int, release as int, at as int, n),
{
    let end: i128 = n.start.0 as i128 + n.duration.0 as i128;
    if end < i64::MIN as i128 || end > i64::MAX as i128 {
        return false;
    }
    let on: i128 = at as i128 + n.start.0 as i128;
    if on < i64::MIN as i128 || on > i64::MAX as i128 {
        return false;
    }
    let off: i128 = at as i128 + end;
    if off < i64::MIN as i128 || off > i64::MAX as i128 {
        return false;
    }
    let on_micros = tempo.tick_to_micros_wide(Tick(on as i64));
    if on_micros > i64::MAX as i128 {
        return false;
    }
    let off_micros = tempo.tick_to_micros_wide(Tick(off as i64));
    if off_micros > i64::MAX as i128 {
        return false;
    }
    proof {
        lemma_micros_nonneg(tempo@, on as int);
        lemma_micros_nonneg(tempo@, off as int);
    }
    let on_frame = frames_of(on_micros, rate);
    let off_frame = frames_of(off_micros, rate);
    assert(on_frame == frame_at(tempo@, at + n.start.0, rate as int));
    assert(off_frame == frame_at(tempo@, at + note_end(n), rate as int));
    on_frame <= i64::MAX as i128 && on_frame <= usize::MAX as i128 && off_frame + release as i128 <= i64::MAX as i128
        && off_frame + release as i128 <= usize::MAX as i128
}

/// Whether a project can be planned at `rate` Hz with a release of `release`
/// frames: exactly the condition [`plan_render`] asks of its input.
pub fn check_renderable(state: &ProjectState, rate: u32, release: usize) -> (r: bool)
    requires
        state.wf(),
    ensures
        r == renderable(state@, rate as int, release as int),
{
    let ghost s = state@;
    let mut i: usize = 0;
    while i < state.tracks.len()
        invariant
            state.wf(),
            s == state@,
            i <= s.tracks.len(),
            forall|a: int, j: int|
                0 <= a < i && s.tracks[a].kind == TrackKind::Midi && 0 <= j < s.tracks[a].placements.len()
                    ==> #[trigger] placement_renderable(s, rate as int, release as int, s.tracks[a].placements[j]),
        decreases s.tracks.len() - i,
    {
        let t = &state.tracks[i];
        assert(s.tracks[i as int] == t@);
        if t.kind == TrackKind::Midi {
            let mut j: usize = 0;
            while j < t.placements.len()
                invariant
                    state.wf(),
                    s == state@,
                    i < s.tracks.len(),
                    s.tracks[i as int] == t@,
                    t.kind == TrackKind::Midi,
                    j <= t.placements@.len(),
                    forall|a: int, jj: int|
                        0 <= a < i && s.tracks[a].kind == TrackKind::Midi && 0 <= jj < s.tracks[a].placements.len()
                            ==> #[trigger] placement_renderable(s, rate as int, release as int, s.tracks[a].placements[jj]),
                    forall|jj: int|
                        0 <= jj < j ==> #[trigger] placement_renderable(s, rate as int, release as int, t.placements@[jj]),
                decreases t.placements.len() - j,
            {
                let p = t.placements[j];
                assert(s.tracks[i as int].placements[j as int] == p);
                match clips_get(&state.clips, p.clip) {
                    None => {
                        assert(!placement_renderable(s, rate as int, release as int, s.tracks[i as int].placements[j as int]));
                        return false;
                    },
                    Some(clip) => {
                        let notes = clip.pattern.notes();
                        assert(notes@ == placed_notes(s, p));
                        let mut k: usize = 0;
                        while k < notes.len()
                            invariant
                                state.wf(),
                                s == state@,
                                i < s.tracks.len(),
                                s.tracks[i as int].kind == TrackKind::Midi,
                                j < s.tracks[i as int].placements.len(),
                                s.tracks[i as int].placements[j as int] == p,
                                notes@ == placed_notes(s, p),
                                k <= notes@.len(),
                                forall|kk: int|
                                    0 <= kk < k ==> #[trigger] note_renderable(
                                        s.tempo,
                                        rate as int,
                                        release as int,
                                        p.at.0 as int,
                                        notes@[kk],
                                    ),
                            decreases notes.len() - k,
                        {
                            if !note_fits_plan(&state.tempo_map, rate, release, p.at.0, notes[k]) {
                                assert(state.tempo_map@ == s.tempo);
                                assert(placed_notes(s, p)[k as int] == notes@[k as int]);
                                assert(!note_renderable(s.tempo, rate as int, release as int, p.at.0 as int, placed_notes(s, p)[k as int]));
                                assert(!placement_renderable(s, rate as int, release as int, s.tracks[i as int].placements[j as int]));
                                return false;
                            }
                            proof {
                                assert(state.tempo_map@ == s.tempo);
                            }
                            k += 1;
                        }
                        assert(placement_renderable(s, rate as int, release as int, p));
                    },
                }
                j += 1;
            }
        }
        proof {
            assert forall|a: int, j: int|
                0 <= a < i + 1 && s.tracks[a].kind == TrackKind::Midi && 0 <= j < s.tracks[a].placements.len()
                    implies #[trigger] placement_renderable(s, rate as int, release as int, s.tracks[a].placements[j]) by {
                if a == i {
                    assert(s.tracks[a].placements[j] == t.placements@[j]);
                }
            }
        }
        i += 1;
    }
    true
}

/// Plans a render at `rate` Hz where every note rings `release` frames past
/// its end: the sounding MIDI tracks in project order with their frame
/// lengths and note spans, and the song's last end. A project in which no
/// MIDI track sounds is refused.
pub fn plan_render(state: &ProjectState, rate: u32, release: usize) -> (r: Result<
    RenderPlan,
    RenderError,
>)
    requires
        state.wf(),
        renderable(state@, rate as int, release as int),
    ensures
        r is Err <==> sounding(state@, rate as int, release as int, state@.tracks.len() as int).len()
            == 0,
        r is Err ==> r == Err::<RenderPlan, RenderError>(RenderError::EmptyProject),
        r matches Ok(p) ==> plans_match(
            state@,
            rate as int,
            release as int,
            p.tracks@,
            state@.tracks.len() as int,
        ) && p.last_end == song_end(state@, rate as int, release as int, state@.tracks.len() as int),
{
    let ghost tv = state@.tracks;
    let mut tracks: Vec<TrackPlan> = Vec::new();
    let mut last_end: usize = 0;
    let mut i: usize = 0;
    while i < state.tracks.len()
        invariant
            state.wf(),
            renderable(state@, rate as int, release as int),
            tv == state@.tracks,
            i <= tv.len(),
            plans_match(state@, rate as int, release as int, tracks@, i as int),
            last_end == song_end(state@, rate as int, release as int, i as int),
        decreases tv.len() - i,
    {
        let t = &state.tracks[i];
        assert(t@ == tv[i as int]);
        let ghost before = tracks@;
        let ghost prev = sounding(state@, rate as int, release as int, i as int);
        if t.kind == TrackKind::Midi {
            assert forall|j: int| 0 <= j < t.placements@.len() implies #[trigger] placement_renderable(
                state@,
                rate as int,
                release as int,
                t.placements@[j],
            ) by {
                assert(tv[i as int].placements[j] == t.placements@[j]);
                assert(placement_renderable(state@, rate as int, release as int, tv[i as int].placements[j]));
            }
            let (frames, notes) = plan_track(state, rate, release, &t.placements);
            if frames > 0 {
                tracks.push(TrackPlan { track: i, frames, notes });
            }
            if frames > last_end {
                last_end = frames;
            }
        }
        proof {
            let nxt = sounding(state@, rate as int, release as int, i + 1);
            if sounds(state@, rate as int, release as int, tv[i as int]) {
                assert(nxt == prev.push(i as usize));
            } else {
                assert(nxt == prev);
            }
            assert forall|k: int| 0 <= k < nxt.len() implies {
                let t = tv[nxt[k] as int];
                &&& 0 <= nxt[k] < i + 1
                &&& (#[trigger] tracks@[k]).track == nxt[k]
                &&& tracks@[k].frames == track_end(state@, rate as int, release as int, t.placements)
                &&& tracks@[k].notes@ == track_spans(state@, rate as int, t.placements)
            } by {
                if k < prev.len() {
                    assert(nxt[k] == prev[k]);
                    assert(tracks@[k] == before[k]);
                }
            }
            assert(tracks@.len() == nxt.len());
            lemma_sounding_bound(state@, rate as int, release as int, i + 1);
            assert(plans_match(state@, rate as int, release as int, tracks@, i + 1));
        }
        i += 1;
    }
    if tracks.len() == 0 {
        Err(RenderError::EmptyProject)
    } else {
        Ok(RenderPlan { tracks, last_end })
    }
}

/// The frame at which a playback that starts at bar `start_bar` (4/4)
/// begins, never past the end of the song (`total_frames`).
pub fn playback_start_frame(tempo: &TempoMap, start_bar: u64, rate: u32, total_frames: usize) -> (r:
    usize)
    requires
        tempo.wf(),
        start_bar * 3840 <= i64::MAX,
        tick_micros(tempo@, start_bar * 3840) <= i64::MAX,
        frame_at(tempo@, start_bar * 3840, rate as int) <= i64::MAX,
    ensures
        r == if frame_at(tempo@, start_bar * 3840, rate as int) < total_frames {
            frame_at(tempo@, start_bar * 3840, rate as int)
        } else {
            total_frames as int
        },
{
    let start_tick: i64 = (start_bar as i64) * 3840;
    proof {
        lemma_frame_nonneg(tempo@, start_tick as int, rate as int);
    }
    let f = tempo.tick_to_samples(Tick(start_tick), rate);
    if (f as u64) < (total_frames as u64) {
        f as usize
    } else {
        total_frames
    }
}

/// Errors from playback.
#[derive(Debug, Clone, PartialEq, Eq)]
pub enum PlaybackError {
    /// No default output device.
    NoDevice,
    /// Device or stream failure, described.
    Device(String),
    /// The project could not be compiled for playback.
    Compile(String),
}

/// Appends the characters of `s`.
fn push_text(v: &mut Vec<char>, s: &str)
    ensures
        final(v)@ == old(v)@ + s@,
{
    let c = crate::text::chars_of(s);
    let ghost start = v@;
    let mut i: usize = 0;
    while i < c.len()
        invariant
            i <= c@.len(),
            c@ == s@,
            v@ == start + c@.subrange(0, i as int),
        decreases c@.len() - i,
    {
        v.push(c[i]);
        i += 1;
    }
    assert(c@.subrange(0, c@.len() as int) =~= c@);
}

impl PlaybackError {
    /// Human-readable description.
    pub fn message(&self) -> (r: String)
        ensures
            self is NoDevice ==> r@ == "no audio output device available"@,
            self matches PlaybackError::Device(m) ==> r@ == "audio device: "@ + m@,
            self matches PlaybackError::Compile(m) ==> r@ == "compile: "@ + m@,
    {
        let mut v: Vec<char> = Vec::new();
        match self {
            PlaybackError::NoDevice => {
                push_text(&mut v, "no audio output device available");
            },
            PlaybackError::Device(m) => {
                push_text(&mut v, "audio device: ");
                push_text(&mut v, m.as_str());
            },
            PlaybackError::Compile(m) => {
                push_text(&mut v, "compile: ");
                push_text(&mut v, m.as_str());
            },
        }
        crate::text::string_of(&v)
    }
}

// ---------------------------------------------------------------- topology

/// Nodes used by the chains of the tracks with `counts` inserts: a source,
/// the inserts, and a strip each.
pub open spec fn chain_nodes(counts: Seq<usize>) -> int
    decreases counts.len(),
{
    if counts.len() == 0 {
        0
    } else {
        chain_nodes(counts.drop_last()) + counts.last() + 2
    }
}

/// The node of track `k`'s source (node 0 is the master).
pub open spec fn chain_start(counts: Seq<usize>, k: int) -> int {
    1 + chain_nodes(counts.subrange(0, k))
}

/// The node of track `k`'s strip.
pub open spec fn strip_of(counts: Seq<usize>, k: int) -> int {
    chain_start(counts, k) + counts[k] + 1
}

/// The master's inputs: every strip, in track order.
pub open spec fn strips(counts: Seq<usize>) -> Seq<usize> {
    Seq::new(counts.len(), |k: int| strip_of(counts, k) as usize)
}

/// The render graph of tracks with `counts` inserts: node 0 sums every
/// strip; each track chains source, inserts in order, and strip.
pub open spec fn render_wired(ins: Seq<Seq<usize>>, counts: Seq<usize>) -> bool {
    &&& ins.len() == 1 + chain_nodes(counts)
    &&& ins[0] == strips(counts)
    &&& forall|k: int, o: int|
        0 <= k < counts.len() && 0 <= o < counts[k] + 2 ==> #[trigger] ins[chain_start(counts, k) + o]
            == if o == 0 {
            Seq::<usize>::empty()
        } else {
            seq![(chain_start(counts, k) + o - 1) as usize]
        }
}

proof fn lemma_chain_nodes_nonneg(counts: Seq<usize>)
    ensures
        chain_nodes(counts) >= 0,
    decreases counts.len(),
{
    if counts.len() > 0 {
        lemma_chain_nodes_nonneg(counts.drop_last());
    }
}

proof fn lemma_chain_nodes_prefix(counts: Seq<usize>, k: int)
    requires
        0 <= k < counts.len(),
    ensures
        chain_nodes(counts.subrange(0, k + 1)) == chain_nodes(counts.subrange(0, k)) + counts[k] + 2,
{
    assert(counts.subrange(0, k + 1).drop_last() =~= counts.subrange(0, k));
}

proof fn lemma_chain_nodes_mono(counts: Seq<usize>, a: int, b: int)
    requires
        0 <= a <= b <= counts.len(),
    ensures
        chain_nodes(counts.subrange(0, a)) <= chain_nodes(counts.subrange(0, b)),
        a < b ==> chain_nodes(counts.subrange(0, a)) + counts[a] + 2 <= chain_nodes(counts.subrange(0, b)),
    decreases b - a,
{
    if a < b {
        lemma_chain_nodes_prefix(counts, b - 1);
        lemma_chain_nodes_mono(counts, a, b - 1);
        if a < b - 1 {
        } else {
            assert(a == b - 1);
        }
    }
}

/// Builds the render graph for tracks with `insert_counts` inserts: the
/// master first, then each track's source, inserts and strip, each fed by
/// the one before, every strip feeding the master. Returns the topology,
/// the master's id, and the first node of each track.
pub fn render_topology(insert_counts: &Vec<usize>) -> (r: (Topology, NodeId, Vec<usize>))
    requires
        1 + chain_nodes(insert_counts@) <= usize::MAX,
    ensures
        r.1.index() == 0,
        render_wired(r.0@, insert_counts@),
        feeds_forward(r.0@),
        r.2@.len() == insert_counts@.len(),
        forall|k: int| 0 <= k < r.2@.len() ==> #[trigger] r.2@[k] == chain_start(insert_counts@, k),
{
    let ghost counts = insert_counts@;
    let mut t = Topology::new();
    let master = t.add();
    let mut starts: Vec<usize> = Vec::new();
    let mut k: usize = 0;
    proof {
        assert(counts.subrange(0, 0) =~= Seq::<usize>::empty());
        assert(strips(counts.subrange(0, 0)) =~= Seq::<usize>::empty());
    }
    while k < insert_counts.len()
        invariant
            counts == insert_counts@,
            1 + chain_nodes(counts) <= usize::MAX,
            master.index() == 0,
            k <= counts.len(),
            render_wired(t@, counts.subrange(0, k as int)),
            feeds_forward(t@),
            starts@.len() == k,
            forall|q: int| 0 <= q < k ==> #[trigger] starts@[q] == chain_start(counts, q),
        decreases counts.len() - k,
    {
        let ghost pre = counts.subrange(0, k as int);
        let ghost before = t@;
        proof {
            lemma_chain_nodes_mono(counts, k as int, counts.len() as int);
            lemma_chain_nodes_nonneg(pre);
            assert(counts.subrange(0, counts.len() as int) =~= counts);
        }
        let source = t.add();
        let s: usize = source.get();
        starts.push(s);
        let mut prev = source;
        let mut j: usize = 0;
        while j < insert_counts[k]
            invariant
                counts == insert_counts@,
                k < counts.len(),
                pre == counts.subrange(0, k as int),
                s == 1 + chain_nodes(pre),
                s >= 1,
                s + counts[k as int] + 2 <= 1 + chain_nodes(counts),
                1 + chain_nodes(counts) <= usize::MAX,
                master.index() == 0,
                j <= counts[k as int],
                t@.len() == s + 1 + j,
                prev.index() == s + j,
                t@.subrange(0, s as int) == before,
                t@[s as int] == Seq::<usize>::empty(),
                forall|o: int| 1 <= o <= j ==> #[trigger] t@[s + o] == seq![(s + o - 1) as usize],
                feeds_forward(t@),
            decreases counts[k as int] - j,
        {
            let ghost t0 = t@;
            let n = t.add();
            let res = t.connect(prev, n);
            proof {
                assert(t@ == t0.push(Seq::<usize>::empty()).update(
                    n.index() as int,
                    seq![prev.index()],
                ));
                assert(t@.subrange(0, s as int) =~= t0.subrange(0, s as int));
                assert forall|c: int, q: int|
                    0 <= c < t@.len() && 0 <= q < t@[c].len() implies 1 <= #[trigger] t@[c][q] < t@.len()
                        && (c > 0 ==> t@[c][q] < c) by {
                    if c < t0.len() {
                        assert(t@[c] == t0[c]);
                    }
                }
            }
            prev = n;
            j += 1;
        }
        let ghost t_in = t@;
        let strip = t.add();
        let ghost t1 = t@;
        let r1 = t.connect(prev, strip);
        let ghost t2 = t@;
        let r2 = t.connect(strip, master);
        proof {
            let next = counts.subrange(0, k + 1);
            lemma_chain_nodes_prefix(counts, k as int);
            assert(next.subrange(0, k as int) =~= pre);
            assert(next.drop_last() =~= pre);
            let st = strip.index() as int;
            assert(st == s + counts[k as int] + 1);
            assert(t2 == t1.update(st, seq![prev.index()]));
            assert(t@ == t2.update(0, t2[0].push(strip.index())));
            // Prefix nodes other than the master are untouched.
            assert forall|c: int| 1 <= c < s implies #[trigger] t@[c] == before[c] by {
                assert(t@.subrange(0, s as int)[c] == before[c]) by {
                    assert(t1.subrange(0, s as int) == before);
                }
            }
            // Earlier chains keep their start and shape.
            assert forall|q: int| 0 <= q < k implies chain_start(next, q) == chain_start(pre, q) by {
                assert(next.subrange(0, q) =~= pre.subrange(0, q));
            }
            assert(chain_start(next, k as int) == s);
            assert(strips(next) =~= strips(pre).push(strip.index())) by {
                assert forall|q: int| 0 <= q < k implies strip_of(next, q) == strip_of(pre, q) by {
                    assert(next.subrange(0, q) =~= pre.subrange(0, q));
                }
            }
            assert forall|q: int, o: int|
                0 <= q < next.len() && 0 <= o < next[q] + 2 implies #[trigger] t@[chain_start(next, q) + o]
                    == if o == 0 {
                    Seq::<usize>::empty()
                } else {
                    seq![(chain_start(next, q) + o - 1) as usize]
                } by {
                if q < k {
                    assert(next.subrange(0, q) =~= pre.subrange(0, q));
                    assert(next[q] == pre[q]);
                    lemma_chain_nodes_nonneg(pre.subrange(0, q));
                    lemma_chain_nodes_mono(pre, q, k as int);
                    assert(pre.subrange(0, k as int) =~= pre);
                    assert(before[chain_start(pre, q) + o] == if o == 0 {
                        Seq::<usize>::empty()
                    } else {
                        seq![(chain_start(pre, q) + o - 1) as usize]
                    });
                } else {
                    assert(q == k);
                    assert(chain_start(next, q) == s);
                    let c = s + o;
                    if o <= counts[k as int] {
                        assert(t@[c] == t_in[c]);
                        if o > 0 {
                            assert(t_in[s + o] == seq![(s + o - 1) as usize]);
                        }
                    } else {
                        assert(c == st);
                    }
                }
            }
            assert forall|c: int, q: int|
                0 <= c < t@.len() && 0 <= q < t@[c].len() implies 1 <= #[trigger] t@[c][q] < t@.len()
                    && (c > 0 ==> t@[c][q] < c) by {
                if c == 0 {
                    if q < t1[0].len() {
                        assert(t@[0][q] == t1[0][q]);
                    }
                } else if c < t1.len() - 1 {
                    assert(t@[c] == t1[c]);
                }
            }
            assert(render_wired(t@, next));
        }
        k += 1;
    }
    proof {
        assert(counts.subrange(0, counts.len() as int) =~= counts);
    }
    (t, master, starts)
}

/// Compiles the render graph of tracks with `insert_counts` inserts. The
/// graph feeds forward into the master, so it has no cycle and compiling
/// it always succeeds.
pub fn compile_render_topology(insert_counts: &Vec<usize>) -> (r: Result<
    (Topology, Schedule, Vec<usize>),
    GraphError,
>)
    requires
        1 + chain_nodes(insert_counts@) <= usize::MAX,
    ensures
        r matches Ok(x) && render_wired(x.0@, insert_counts@) && schedule_valid(x.0@, 0, x.1)
            && x.2@.len() == insert_counts@.len() && forall|k: int|
            0 <= k < x.2@.len() ==> #[trigger] x.2@[k] == chain_start(insert_counts@, k),
{
    let (t, master, starts) = render_topology(insert_counts);
    proof {
        law_feeds_forward_acyclic(t@);
        lemma_chain_nodes_nonneg(insert_counts@);
    }
    match t.compile(master) {
        Ok(s) => Ok((t, s, starts)),
        Err(e) => Err(e),
    }
}

} // verus!
