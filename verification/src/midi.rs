//! Standard MIDI File import and the mapping between SMF events and the
//! internal pattern model.
//!
//! Decoding the byte format is delegated to `midly`; everything it hands
//! back is converted at once into plain values ([`SmfData`]), and the
//! musical interpretation (note pairing, tick rescaling, tempo map) is done
//! here.

use vstd::prelude::*;
use midly::{MetaMessage as Meta, MidiMessage as Msg, Timing, TrackEventKind as K};
use crate::core_types::{Pitch, Tempo, Tick, Velocity, PPQ};
use crate::pattern::{lemma_max_end_le, lemma_note_error_none, max_end, max_int, note_end, note_valid, Note, Pattern, PatternError};
use crate::sorting::{is_stable_sort_of, lemma_stable_sort_same_elements, sorted_by_key, stable_sort, SortKey};
use crate::timeline::{has_duplicate_tick, has_origin_and_no_negative, TempoMap, TimelineError};

verus! {

/// A `midly` decoding error.
#[verifier::external_type_specification]
#[verifier::external_body]
pub struct ExMidlyError(midly::Error);

/// One SMF event message, as far as the importer distinguishes them.
#[derive(Debug)]
pub enum SmfMessage {
    /// Set tempo, in microseconds per quarter note.
    Tempo(u32),
    /// Track name, as raw bytes.
    TrackName(Vec<u8>),
    /// Note-on: channel, key, velocity.
    NoteOn(u8, u8, u8),
    /// Note-off: channel, key, velocity.
    NoteOff(u8, u8, u8),
    /// End of track.
    EndOfTrack,
    /// Any other event.
    Other,
}

/// A track event: delta time in file ticks and its message.
#[derive(Debug)]
pub struct SmfEvent {
    /// Ticks since the previous event of the track.
    pub delta: u32,
    /// The message.
    pub message: SmfMessage,
}

/// A decoded SMF file: its timing division and tracks.
#[derive(Debug)]
pub struct SmfData {
    /// Ticks per quarter note, or `None` for SMPTE (timecode) timing.
    pub ppq: Option<u16>,
    /// Tracks in file order.
    pub tracks: Vec<Vec<SmfEvent>>,
}

/// An SMF message as a mathematical value.
pub enum SmfMessageView {
    Tempo(u32),
    TrackName(Seq<u8>),
    NoteOn(u8, u8, u8),
    NoteOff(u8, u8, u8),
    EndOfTrack,
    Other,
}

/// An SMF event as a mathematical value.
pub struct SmfEventView {
    pub delta: u32,
    pub message: SmfMessageView,
}

/// A decoded SMF file as a mathematical value.
pub struct SmfDataView {
    pub ppq: Option<u16>,
    pub tracks: Seq<Seq<SmfEventView>>,
}

impl View for SmfMessage {
    type V = SmfMessageView;

    open spec fn view(&self) -> SmfMessageView {
        match self {
            SmfMessage::Tempo(m) => SmfMessageView::Tempo(*m),
            SmfMessage::TrackName(n) => SmfMessageView::TrackName(n@),
            SmfMessage::NoteOn(c, k, v) => SmfMessageView::NoteOn(*c, *k, *v),
            SmfMessage::NoteOff(c, k, v) => SmfMessageView::NoteOff(*c, *k, *v),
            SmfMessage::EndOfTrack => SmfMessageView::EndOfTrack,
            SmfMessage::Other => SmfMessageView::Other,
        }
    }
}

impl View for SmfEvent {
    type V = SmfEventView;

    open spec fn view(&self) -> SmfEventView {
        SmfEventView { delta: self.delta, message: self.message@ }
    }
}

/// The views of a track's events.
pub open spec fn track_view(t: Seq<SmfEvent>) -> Seq<SmfEventView> {
    t.map_values(|e: SmfEvent| e@)
}

impl View for SmfData {
    type V = SmfDataView;

    open spec fn view(&self) -> SmfDataView {
        SmfDataView { ppq: self.ppq, tracks: self.tracks@.map_values(|t: Vec<SmfEvent>| track_view(t@)) }
    }
}

/// Value ranges of a decoded event: a 28-bit delta time, a 24-bit tempo,
/// a 4-bit channel, and 7-bit keys and velocities.
pub open spec fn event_in_range(e: SmfEventView) -> bool {
    e.delta < 0x1000_0000 && message_in_range(e.message)
}

/// Value ranges of a message: a 24-bit tempo, a 4-bit channel, and 7-bit
/// keys and velocities.
pub open spec fn message_in_range(m: SmfMessageView) -> bool {
    match m {
        SmfMessageView::Tempo(t) => t < 0x100_0000,
        SmfMessageView::NoteOn(c, k, v) => c < 16 && k < 128 && v < 128,
        SmfMessageView::NoteOff(c, k, v) => c < 16 && k < 128 && v < 128,
        _ => true,
    }
}

/// Every event of `d` lies in the value ranges of decoded events.
pub open spec fn smf_in_range(d: SmfDataView) -> bool {
    forall|t: int, i: int| 0 <= t < d.tracks.len() && 0 <= i < d.tracks[t].len() ==> event_in_range(#[trigger] d.tracks[t][i])
}

/// A decoded (or to-be-encoded) `midly` file.
#[verifier::external_type_specification]
#[verifier::external_body]
pub struct ExSmf<'a>(midly::Smf<'a>);

/// An SMF file as a mathematical value: its format (0 single track,
/// 1 parallel, 2 sequential) and content.
pub struct SmfFileView {
    pub format: u8,
    pub data: SmfDataView,
}

/// The content of a `midly` file value: format, timing division and track
/// events.
pub uninterp spec fn smf_content(s: midly::Smf) -> SmfFileView;

/// What `midly` decodes from `bytes`, or `None` when it rejects them.
pub uninterp spec fn smf_decoded(bytes: Seq<u8>) -> Option<SmfDataView>;

/// `midly::Smf::parse`. Trusted: it fails exactly when the decoding named
/// [`smf_decoded`] is absent, and otherwise yields a file whose content is
/// that decoding.
#[verifier::external_body]
fn parse_smf<'a>(bytes: &'a [u8]) -> (r: Result<midly::Smf<'a>, midly::Error>)
    ensures
        r is Err <==> smf_decoded(bytes@) is None,
        r matches Ok(s) ==> smf_decoded(bytes@) == Some(smf_content(s).data),
{
    midly::Smf::parse(bytes)
}

/// The timing division of a file (`header.timing`): ticks per quarter for
/// metrical timing, `None` for timecode. Trusted: it is the content's.
#[verifier::external_body]
fn smf_timing(s: &midly::Smf) -> (r: Option<u16>)
    ensures
        r == smf_content(*s).data.ppq,
{
    match s.header.timing {
        Timing::Metrical(t) => Some(t.as_int()),
        Timing::Timecode(..) => None,
    }
}

/// The number of tracks (`tracks.len()`). Trusted: it is the content's.
#[verifier::external_body]
fn smf_track_count(s: &midly::Smf) -> (r: usize)
    ensures
        r == smf_content(*s).data.tracks.len(),
{
    s.tracks.len()
}

/// The number of events of track `t`. Trusted: it is the content's.
#[verifier::external_body]
fn smf_track_len(s: &midly::Smf, t: usize) -> (r: usize)
    requires
        t < smf_content(*s).data.tracks.len(),
    ensures
        r == smf_content(*s).data.tracks[t as int].len(),
{
    s.tracks[t].len()
}

/// Event `i` of track `t`, converted to plain values. Trusted: it is the
/// content's, and its values lie in the ranges of `midly`'s `u28` (delta),
/// `u24` (tempo), `u4` (channel) and `u7` (key, velocity) types.
#[verifier::external_body]
fn smf_event(s: &midly::Smf, t: usize, i: usize) -> (r: SmfEvent)
    requires
        t < smf_content(*s).data.tracks.len(),
        i < smf_content(*s).data.tracks[t as int].len(),
    ensures
        r@ == smf_content(*s).data.tracks[t as int][i as int],
        event_in_range(r@),
{
    let e = &s.tracks[t][i];
    SmfEvent { delta: e.delta.as_int(), message: match e.kind {
        K::Meta(Meta::Tempo(m)) => SmfMessage::Tempo(m.as_int()),
        K::Meta(Meta::TrackName(n)) => SmfMessage::TrackName(n.to_vec()),
        K::Meta(Meta::EndOfTrack) => SmfMessage::EndOfTrack,
        K::Midi { channel, message: Msg::NoteOn { key, vel } } => SmfMessage::NoteOn(channel.as_int(), key.as_int(), vel.as_int()),
        K::Midi { channel, message: Msg::NoteOff { key, vel } } => SmfMessage::NoteOff(channel.as_int(), key.as_int(), vel.as_int()),
        _ => SmfMessage::Other,
    } }
}

/// Decodes an SMF file into plain values.
fn decode_smf(bytes: &[u8]) -> (r: Result<SmfData, midly::Error>)
    ensures
        r is Err <==> smf_decoded(bytes@) is None,
        r matches Ok(d) ==> smf_decoded(bytes@) == Some(d@) && smf_in_range(d@),
{
    let smf = parse_smf(bytes)?;
    let ghost c = smf_content(smf).data;
    let ppq = smf_timing(&smf);
    let n = smf_track_count(&smf);
    let mut tracks: Vec<Vec<SmfEvent>> = Vec::new();
    let mut t: usize = 0;
    while t < n
        invariant
            c == smf_content(smf).data,
            n == c.tracks.len(),
            t <= n,
            tracks@.len() == t,
            forall|u: int| 0 <= u < t ==> track_view((#[trigger] tracks@[u])@) == c.tracks[u],
            forall|u: int, i: int|
                0 <= u < t && 0 <= i < tracks@[u]@.len() ==> event_in_range(#[trigger] tracks@[u]@[i]@),
        decreases n - t,
    {
        let len = smf_track_len(&smf, t);
        let mut events: Vec<SmfEvent> = Vec::new();
        let mut i: usize = 0;
        while i < len
            invariant
                c == smf_content(smf).data,
                n == c.tracks.len(),
                t < n,
                len == c.tracks[t as int].len(),
                i <= len,
                track_view(events@) == c.tracks[t as int].subrange(0, i as int),
                forall|j: int| 0 <= j < events@.len() ==> event_in_range(#[trigger] events@[j]@),
            decreases len - i,
        {
            let e = smf_event(&smf, t, i);
            let ghost before = events@;
            events.push(e);
            proof {
                assert(track_view(events@) =~= track_view(before).push(e@));
                assert(track_view(events@) =~= c.tracks[t as int].subrange(0, i + 1));
            }
            i += 1;
        }
        proof {
            assert(c.tracks[t as int].subrange(0, len as int) =~= c.tracks[t as int]);
        }
        tracks.push(events);
        t += 1;
    }
    let d = SmfData { ppq, tracks };
    proof {
        assert(d@.tracks =~= c.tracks);
        assert forall|u: int, i: int| 0 <= u < d@.tracks.len() && 0 <= i < d@.tracks[u].len() implies event_in_range(
            #[trigger] d@.tracks[u][i],
        ) by {
            assert(d@.tracks[u] == track_view(tracks@[u]@));
            assert(d@.tracks[u][i] == tracks@[u]@[i]@);
        }
    }
    Ok(d)
}

/// The text `String::from_utf8_lossy` makes of `bytes`.
pub uninterp spec fn utf8_lossy_text(bytes: Seq<u8>) -> Seq<char>;

/// `String::from_utf8_lossy`: decodes UTF-8, replacing invalid sequences.
/// Trusted: the result is the function of `bytes` named [`utf8_lossy_text`].
#[verifier::external_body]
fn utf8_lossy(bytes: &Vec<u8>) -> (r: String)
    ensures
        r@ == utf8_lossy_text(bytes@),
{
    String::from_utf8_lossy(bytes.as_slice()).into_owned()
}


// ---------------------------------------------------------------- import

/// A song's symbolic content as read from an SMF file.
#[derive(Debug, Clone, PartialEq, Eq)]
pub struct SmfSong {
    /// Tempo changes.
    pub tempo_map: TempoMap,
    /// One pattern per MIDI track that contains notes, with its name if any.
    pub tracks: Vec<(Option<String>, Pattern)>,
}

/// Errors from SMF import.
#[derive(Debug)]
pub enum MidiError {
    /// The file could not be decoded as SMF.
    Parse(midly::Error),
    /// SMPTE (timecode) timing division is not supported.
    SmpteTiming,
    /// The file's timing cannot be represented: a timing division of zero
    /// ticks per quarter, or tick positions beyond the 64-bit range.
    InvalidTiming,
    /// Imported notes violated pattern invariants.
    Pattern(PatternError),
    /// Imported tempo events violated tempo-map invariants.
    Timeline(TimelineError),
}

/// A tick count in a file's resolution `ppq`, rescaled to the internal
/// resolution and rounded to nearest (halves up).
pub open spec fn rescale_spec(t: int, ppq: int) -> int {
    (t * PPQ + ppq / 2) / ppq
}

/// The position, in file ticks, of the end of a track's events.
pub open spec fn track_ticks(evs: Seq<SmfEventView>) -> int
    decreases evs.len(),
{
    if evs.len() == 0 {
        0
    } else {
        track_ticks(evs.drop_last()) + evs.last().delta
    }
}

/// The file's timing is representable: every non-empty track has a
/// positive timing division and ends within the 64-bit tick range, before
/// and after rescaling.
pub open spec fn timing_ok(d: SmfDataView, ppq: u16) -> bool {
    forall|t: int|
        0 <= t < d.tracks.len() && (#[trigger] d.tracks[t]).len() > 0 ==> ppq > 0 && track_ticks(d.tracks[t])
            <= i64::MAX && rescale_spec(track_ticks(d.tracks[t]), ppq as int) <= i64::MAX
}

/// The state of reading one track: position in file ticks, name, sounding
/// notes `(channel, key, onset, velocity)`, finished notes, and the tempo
/// changes read so far (of this and earlier tracks).
pub struct TrackScan {
    pub at: int,
    pub name: Option<Seq<char>>,
    pub open: Seq<(u8, u8, i64, Velocity)>,
    pub notes: Seq<Note>,
    pub tempos: Seq<(Tick, Tempo)>,
}

/// The index of the most recent sounding note on `(c, k)`, if any.
pub open spec fn last_open(open: Seq<(u8, u8, i64, Velocity)>, c: u8, k: u8) -> Option<int>
    decreases open.len(),
{
    if open.len() == 0 {
        None
    } else if open.last().0 == c && open.last().1 == k {
        Some(open.len() - 1)
    } else {
        last_open(open.drop_last(), c, k)
    }
}

/// Ends the most recent sounding note on `(c, k)` at `tick` (internal
/// ticks): it becomes a note when it has a positive length; a note-off with
/// nothing sounding is ignored.
pub open spec fn close_note(s: TrackScan, at: int, tick: int, c: u8, k: u8, ppq: int) -> TrackScan {
    match last_open(s.open, c, k) {
        None => TrackScan { at, ..s },
        Some(i) => {
            let start = rescale_spec(s.open[i].2 as int, ppq);
            let notes = if tick > start {
                s.notes.push(
                    Note {
                        pitch: Pitch { note: k, cents: 0 },
                        velocity: s.open[i].3,
                        start: Tick(start as i64),
                        duration: Tick((tick - start) as i64),
                    },
                )
            } else {
                s.notes
            };
            TrackScan { at, open: s.open.remove(i), notes, ..s }
        },
    }
}

/// Reads one event: tempo changes are recorded at their rescaled position,
/// the last track name wins, a note-on with positive velocity starts a
/// note, and a note-off (or note-on with velocity 0) ends one.
pub open spec fn scan_event(s: TrackScan, e: SmfEventView, ppq: int) -> TrackScan {
    let at = s.at + e.delta;
    let tick = rescale_spec(at, ppq);
    match e.message {
        SmfMessageView::Tempo(m) => TrackScan {
            at,
            tempos: s.tempos.push((Tick(tick as i64), Tempo { micros_per_quarter: m })),
            ..s
        },
        SmfMessageView::TrackName(n) => TrackScan { at, name: Some(utf8_lossy_text(n)), ..s },
        SmfMessageView::NoteOn(c, k, v) => if v > 0 {
            TrackScan { at, open: s.open.push((c, k, at as i64, Velocity::of(v as int))), ..s }
        } else {
            close_note(s, at, tick, c, k, ppq)
        },
        SmfMessageView::NoteOff(c, k, _v) => close_note(s, at, tick, c, k, ppq),
        _ => TrackScan { at, ..s },
    }
}

/// Reads a sequence of events.
pub open spec fn scan_events(evs: Seq<SmfEventView>, ppq: int, s0: TrackScan) -> TrackScan
    decreases evs.len(),
{
    if evs.len() == 0 {
        s0
    } else {
        scan_event(scan_events(evs.drop_last(), ppq, s0), evs.last(), ppq)
    }
}

/// Reading a note: a note-on of positive velocity followed, `gap` file ticks
/// later, by the note-off of the same channel and key gives one note of that
/// key and velocity, starting at the rescaled onset and lasting until the
/// rescaled release (when that is later).
pub proof fn law_import_reads_a_note(
    ppq: int,
    c: u8,
    k: u8,
    v: u8,
    onset: u32,
    gap: u32,
    off_vel: u8,
    tempos: Seq<(Tick, Tempo)>,
)
    requires
        ppq > 0,
        v > 0,
        onset as int + gap as int <= i64::MAX,
        rescale_spec(onset as int + gap as int, ppq) <= i64::MAX,
    ensures
        ({
            let evs = seq![
                SmfEventView { delta: onset, message: SmfMessageView::NoteOn(c, k, v) },
                SmfEventView { delta: gap, message: SmfMessageView::NoteOff(c, k, off_vel) },
            ];
            let s = scan_events(evs, ppq, fresh_scan(tempos));
            let start = rescale_spec(onset as int, ppq);
            let end = rescale_spec(onset as int + gap as int, ppq);
            &&& s.open.len() == 0
            &&& s.tempos == tempos
            &&& end > start ==> s.notes == seq![
                Note {
                    pitch: Pitch { note: k, cents: 0 },
                    velocity: Velocity::of(v as int),
                    start: Tick(start as i64),
                    duration: Tick((end - start) as i64),
                },
            ]
            &&& end <= start ==> s.notes.len() == 0
        }),
{
    let on = SmfEventView { delta: onset, message: SmfMessageView::NoteOn(c, k, v) };
    let off = SmfEventView { delta: gap, message: SmfMessageView::NoteOff(c, k, off_vel) };
    let evs = seq![on, off];
    let s0 = fresh_scan(tempos);
    assert(evs.drop_last() =~= seq![on]);
    assert(seq![on].drop_last() =~= Seq::<SmfEventView>::empty());
    assert(scan_events(Seq::<SmfEventView>::empty(), ppq, s0) == s0);
    let s1 = scan_events(seq![on], ppq, s0);
    assert(s1 == scan_event(s0, on, ppq));
    assert(s1.open == seq![(c, k, onset as i64, Velocity::of(v as int))]);
    assert(s1.at == onset);
    reveal_with_fuel(last_open, 2);
    assert(s1.open.drop_last() =~= Seq::<(u8, u8, i64, Velocity)>::empty());
    assert(last_open(s1.open, c, k) == Some(0int));
    lemma_rescale_mono(onset as int, onset as int + gap as int, ppq);
    assert(s1.open.remove(0) =~= Seq::<(u8, u8, i64, Velocity)>::empty());
    assert(s1.notes.push(
        Note {
            pitch: Pitch { note: k, cents: 0 },
            velocity: Velocity::of(v as int),
            start: Tick(rescale_spec(onset as int, ppq) as i64),
            duration: Tick((rescale_spec(onset as int + gap as int, ppq) - rescale_spec(onset as int, ppq)) as i64),
        },
    ) =~= seq![
        Note {
            pitch: Pitch { note: k, cents: 0 },
            velocity: Velocity::of(v as int),
            start: Tick(rescale_spec(onset as int, ppq) as i64),
            duration: Tick((rescale_spec(onset as int + gap as int, ppq) - rescale_spec(onset as int, ppq)) as i64),
        },
    ]);
}

/// The state at the start of a track.
pub open spec fn fresh_scan(tempos: Seq<(Tick, Tempo)>) -> TrackScan {
    TrackScan { at: 0, name: None, open: Seq::empty(), notes: Seq::empty(), tempos }
}

/// Reads all tracks: the `(name, notes)` of every track with notes, and all
/// tempo changes in reading order.
pub open spec fn import_fold(tracks: Seq<Seq<SmfEventView>>, ppq: int) -> (Seq<(Option<Seq<char>>, Seq<Note>)>, Seq<(Tick, Tempo)>)
    decreases tracks.len(),
{
    if tracks.len() == 0 {
        (Seq::empty(), Seq::empty())
    } else {
        let (outs, tempos) = import_fold(tracks.drop_last(), ppq);
        let s = scan_events(tracks.last(), ppq, fresh_scan(tempos));
        (if s.notes.len() > 0 {
            outs.push((s.name, s.notes))
        } else {
            outs
        }, s.tempos)
    }
}

/// The tempo changes with a default 120 BPM entry at tick 0 added in front
/// when there is none.
pub open spec fn with_origin(t: Seq<(Tick, Tempo)>) -> Seq<(Tick, Tempo)> {
    if exists|i: int| 0 <= i < t.len() && t[i].0.0 == 0 {
        t
    } else {
        seq![(Tick(0), Tempo { micros_per_quarter: 500_000 })] + t
    }
}

/// Drops every entry whose tick equals the previous entry's (the first of a
/// run is kept).
pub open spec fn dedup_ticks(s: Seq<(Tick, Tempo)>) -> Seq<(Tick, Tempo)>
    decreases s.len(),
{
    if s.len() <= 1 {
        s
    } else if s.last().0 == s[s.len() - 2].0 {
        dedup_ticks(s.drop_last())
    } else {
        dedup_ticks(s.drop_last()).push(s.last())
    }
}

/// `n` is the text `v` (both absent, or both present and equal).
pub open spec fn name_is(n: Option<String>, v: Option<Seq<char>>) -> bool {
    match n {
        Some(s) => v == Some(s@),
        None => v is None,
    }
}

/// `song` is what importing `tracks` at timing division `ppq` yields: one
/// sorted pattern per track with notes (length grown to fit from zero), and
/// the tempo changes sorted by tick with the first of each tick kept.
pub open spec fn song_imported(song: SmfSong, tracks: Seq<Seq<SmfEventView>>, ppq: int) -> bool {
    let (outs, tempos) = import_fold(tracks, ppq);
    &&& song.tracks@.len() == outs.len()
    &&& forall|i: int|
        0 <= i < outs.len() ==> name_is((#[trigger] song.tracks@[i]).0, outs[i].0) && song.tracks@[i].1.wf()
            && is_stable_sort_of(song.tracks@[i].1@.notes, outs[i].1) && song.tracks@[i].1@.length.0 == max_int(
            0,
            max_end(outs[i].1),
        )
    &&& song.tempo_map.wf()
    &&& forall|s: Seq<(Tick, Tempo)>| #[trigger] is_stable_sort_of(s, with_origin(tempos)) ==> song.tempo_map@ == dedup_ticks(s)
}

/// Rescaling is monotone and keeps non-negative ticks non-negative.
proof fn lemma_rescale_mono(a: int, b: int, ppq: int)
    requires
        0 <= a <= b,
        ppq > 0,
    ensures
        0 <= rescale_spec(a, ppq) <= rescale_spec(b, ppq),
{
    assert(PPQ == 960);
    assert(0 <= (a * 960 + ppq / 2) / ppq <= (b * 960 + ppq / 2) / ppq) by (nonlinear_arith)
        requires
            0 <= a <= b,
            ppq > 0,
    {
        vstd::arithmetic::div_mod::lemma_div_is_ordered(a * 960 + ppq / 2, b * 960 + ppq / 2, ppq);
    }
}

/// Importing keeps a file's speed: a position of `t` file ticks at a
/// division of `ppq` ticks per quarter lands on the internal tick nearest to
/// `t * PPQ / ppq` (halves rounding up), exactly on it when that is whole, so
/// a quarter note of a 480-PPQ file lasts 960 internal ticks.
pub proof fn law_rescale_rounds_to_nearest(t: int, ppq: int)
    requires
        0 <= t,
        0 < ppq,
    ensures
        -(ppq / 2) <= t * PPQ - rescale_spec(t, ppq) * ppq < ppq - ppq / 2,
        (t * PPQ) % ppq == 0 ==> rescale_spec(t, ppq) * ppq == t * PPQ,
{
    let n = t * PPQ + ppq / 2;
    let r = rescale_spec(t, ppq);
    vstd::arithmetic::div_mod::lemma_fundamental_div_mod(n, ppq);
    assert(n == ppq * r + n % ppq);
    assert(0 <= n % ppq < ppq) by {
        vstd::arithmetic::div_mod::lemma_mod_bound(n, ppq);
    }
    if (t * PPQ) % ppq == 0 {
        let q = (t * PPQ) / ppq;
        vstd::arithmetic::div_mod::lemma_fundamental_div_mod(t * PPQ, ppq);
        assert(t * PPQ == ppq * q);
        assert(t * PPQ - r * ppq == (q - r) * ppq) by (nonlinear_arith)
            requires
                t * PPQ == ppq * q,
        ;
        assert(q == r) by (nonlinear_arith)
            requires
                -(ppq / 2) <= (q - r) * ppq < ppq - ppq / 2,
                0 < ppq,
        ;
        assert(r * ppq == ppq * q) by (nonlinear_arith)
            requires
                q == r,
        ;
    }
}

/// Rescales `file_ticks` from `file_ppq` to the internal resolution,
/// rounding to nearest.
fn rescale(file_ticks: i64, file_ppq: u16) -> (r: Tick)
    requires
        file_ppq > 0,
        0 <= file_ticks,
        rescale_spec(file_ticks as int, file_ppq as int) <= i64::MAX,
    ensures
        r.0 == rescale_spec(file_ticks as int, file_ppq as int),
        r.0 >= 0,
{
    proof {
        lemma_rescale_mono(0, file_ticks as int, file_ppq as int);
        assert(0 <= file_ticks * 960 <= 960 * 0x7fff_ffff_ffff_ffff) by (nonlinear_arith)
            requires
                0 <= file_ticks <= 0x7fff_ffff_ffff_ffff,
        ;
    }
    let n: i128 = file_ticks as i128 * PPQ as i128;
    let d: i128 = file_ppq as i128;
    let rounded: i128 = (n + d / 2) / d;
    Tick(rounded as i64)
}

/// Track positions only grow along a track.
proof fn lemma_track_ticks_prefix(evs: Seq<SmfEventView>, i: int)
    requires
        0 <= i <= evs.len(),
    ensures
        0 <= track_ticks(evs.subrange(0, i)) <= track_ticks(evs),
    decreases evs.len() - i,
{
    if i < evs.len() {
        lemma_track_ticks_prefix(evs, i + 1);
        assert(evs.subrange(0, i + 1).drop_last() =~= evs.subrange(0, i));
        lemma_track_ticks_nonneg(evs.subrange(0, i));
    } else {
        assert(evs.subrange(0, i) =~= evs);
        lemma_track_ticks_nonneg(evs);
    }
}

proof fn lemma_track_ticks_nonneg(evs: Seq<SmfEventView>)
    ensures
        track_ticks(evs) >= 0,
    decreases evs.len(),
{
    if evs.len() > 0 {
        lemma_track_ticks_nonneg(evs.drop_last());
    }
}

/// Whether every non-empty track's timing is representable.
fn timing_fits(data: &SmfData, ppq: u16) -> (r: bool)
    ensures
        r == timing_ok(data@, ppq),
{
    let ghost d = data@;
    let mut t: usize = 0;
    while t < data.tracks.len()
        invariant
            d == data@,
            t <= data.tracks@.len(),
            forall|u: int| 0 <= u < t && (#[trigger] d.tracks[u]).len() > 0 ==> ppq > 0 && track_ticks(d.tracks[u]) <= i64::MAX
                && rescale_spec(track_ticks(d.tracks[u]), ppq as int) <= i64::MAX,
        decreases data.tracks.len() - t,
    {
        let track = &data.tracks[t];
        let ghost evs = d.tracks[t as int];
        proof {
            assert(evs == track_view(track@));
        }
        if track.len() > 0 {
            if ppq == 0 {
                return false;
            }
            let mut total: u64 = 0;
            let mut i: usize = 0;
            while i < track.len()
                invariant
                    d == data@,
                    t < data.tracks@.len(),
                    evs == d.tracks[t as int],
                    evs.len() > 0,
                    evs == track_view(track@),
                    i <= track@.len(),
                    total == track_ticks(evs.subrange(0, i as int)),
                    total <= 0x7fff_ffff_ffff_ffff,
                decreases track.len() - i,
            {
                proof {
                    assert(evs.subrange(0, i + 1).drop_last() =~= evs.subrange(0, i as int));
                    assert(evs[i as int].delta == track@[i as int].delta);
                }
                total = total + track[i].delta as u64;
                if total > 0x7fff_ffff_ffff_ffff {
                    proof {
                        lemma_track_ticks_prefix(evs, i + 1);
                        assert(total == track_ticks(evs.subrange(0, i + 1)));
                        assert(d.tracks[t as int].len() > 0);
                        assert(track_ticks(d.tracks[t as int]) > i64::MAX);
                    }
                    return false;
                }
                i += 1;
            }
            proof {
                assert(evs.subrange(0, i as int) =~= evs);
                assert(total * 960 <= 960 * 0x7fff_ffff_ffff_ffff) by (nonlinear_arith)
                    requires
                        total <= 0x7fff_ffff_ffff_ffff,
                ;
            }
            let scaled: u128 = (total as u128 * 960 + ppq as u128 / 2) / ppq as u128;
            if scaled > 0x7fff_ffff_ffff_ffff {
                return false;
            }
        }
        t += 1;
    }
    true
}

proof fn lemma_last_open(open: Seq<(u8, u8, i64, Velocity)>, c: u8, k: u8)
    ensures
        last_open(open, c, k) matches Some(i) ==> 0 <= i < open.len() && open[i].0 == c && open[i].1 == k,
    decreases open.len(),
{
    if open.len() > 0 {
        lemma_last_open(open.drop_last(), c, k);
    }
}

/// The index of the most recent sounding note on `(c, k)`.
fn find_open(open: &Vec<(u8, u8, i64, Velocity)>, c: u8, k: u8) -> (r: Option<usize>)
    ensures
        r matches Some(i) ==> last_open(open@, c, k) == Some(i as int),
        r is None ==> last_open(open@, c, k) is None,
{
    let mut i: usize = open.len();
    assert(open@.subrange(0, i as int) =~= open@);
    while i > 0
        invariant
            i <= open@.len(),
            last_open(open@, c, k) == last_open(open@.subrange(0, i as int), c, k),
        decreases i,
    {
        let ghost pre = open@.subrange(0, i as int);
        proof {
            assert(pre.drop_last() =~= open@.subrange(0, i - 1));
            assert(pre.last() == open@[i - 1]);
        }
        if open[i - 1].0 == c && open[i - 1].1 == k {
            return Some(i - 1);
        }
        i -= 1;
    }
    proof {
        assert(open@.subrange(0, 0) =~= Seq::<(u8, u8, i64, Velocity)>::empty());
    }
    None
}

/// Ends the most recent sounding note on `(c, k)` at `tick`; see
/// [`close_note`].
fn end_note(open: &mut Vec<(u8, u8, i64, Velocity)>, notes: &mut Vec<Note>, c: u8, k: u8, tick: Tick, ppq: u16)
    requires
        ppq > 0,
        tick.0 >= 0,
        forall|j: int|
            0 <= j < old(open)@.len() ==> 0 <= (#[trigger] old(open)@[j]).2 && rescale_spec(old(open)@[j].2 as int, ppq as int)
                <= tick.0,
    ensures
        ({
            let s0 = TrackScan { at: 0, name: None, open: old(open)@, notes: old(notes)@, tempos: Seq::empty() };
            let s1 = close_note(s0, 0, tick.0 as int, c, k, ppq as int);
            final(open)@ == s1.open && final(notes)@ == s1.notes
        }),
        forall|j: int| 0 <= j < final(open)@.len() ==> old(open)@.contains(#[trigger] final(open)@[j]),
        forall|j: int| 0 <= j < old(notes)@.len() ==> final(notes)@[j] == old(notes)@[j],
        final(notes)@.len() >= old(notes)@.len(),
        forall|j: int| old(notes)@.len() <= j < final(notes)@.len() ==> #[trigger] note_valid(final(notes)@[j]) && note_end(final(notes)@[j]) == tick.0,
{
    match find_open(open, c, k) {
        None => {},
        Some(i) => {
            let ghost o0 = open@;
            proof {
                lemma_last_open(o0, c, k);
            }
            let (_c, _k, on, vel) = open.remove(i);
            proof {
                assert(o0[i as int].2 == on);
                assert forall|j: int| 0 <= j < open@.len() implies o0.contains(#[trigger] open@[j]) by {
                    if j < i {
                        assert(open@[j] == o0[j]);
                    } else {
                        assert(open@[j] == o0[j + 1]);
                    }
                }
            }
            let start = rescale(on, ppq);
            if tick.0 > start.0 {
                notes.push(Note { pitch: Pitch::new(k), velocity: vel, start, duration: Tick(tick.0 - start.0) });
            }
        },
    }
}

/// Reads one track, appending its tempo changes to `tempos`, and returns
/// its name and notes; see [`scan_events`].
#[verifier::rlimit(40)]
fn scan_track(events: &Vec<SmfEvent>, ppq: u16, tempos: &mut Vec<(Tick, Tempo)>) -> (r: (Option<String>, Vec<Note>))
    requires
        events@.len() > 0 ==> ppq > 0 && track_ticks(track_view(events@)) <= i64::MAX && rescale_spec(
            track_ticks(track_view(events@)),
            ppq as int,
        ) <= i64::MAX,
        forall|i: int|
            0 <= i < events@.len() ==> match (#[trigger] track_view(events@)[i]).message {
                SmfMessageView::NoteOn(_c, _k, v) => v < 128,
                _ => true,
            },
        forall|j: int| 0 <= j < old(tempos)@.len() ==> (#[trigger] old(tempos)@[j]).0.0 >= 0,
    ensures
        ({
            let s = scan_events(track_view(events@), ppq as int, fresh_scan(old(tempos)@));
            name_is(r.0, s.name) && r.1@ == s.notes && final(tempos)@ == s.tempos
        }),
        forall|j: int| 0 <= j < final(tempos)@.len() ==> (#[trigger] final(tempos)@[j]).0.0 >= 0,
        forall|j: int| 0 <= j < r.1@.len() ==> #[trigger] note_valid(r.1@[j]),
{
    let ghost evs = track_view(events@);
    let ghost t0 = tempos@;
    let ghost total = track_ticks(evs);
    let mut at: i64 = 0;
    let mut name: Option<String> = None;
    let mut open: Vec<(u8, u8, i64, Velocity)> = Vec::new();
    let mut notes: Vec<Note> = Vec::new();
    let mut i: usize = 0;
    proof {
        assert(evs.subrange(0, 0) =~= Seq::<SmfEventView>::empty());
        lemma_track_ticks_nonneg(evs);
    }
    while i < events.len()
        invariant
            evs == track_view(events@),
            total == track_ticks(evs),
            events@.len() > 0 ==> ppq > 0 && total <= i64::MAX && rescale_spec(total, ppq as int) <= i64::MAX,
            forall|j: int|
                0 <= j < events@.len() ==> match (#[trigger] evs[j]).message {
                    SmfMessageView::NoteOn(_c, _k, v) => v < 128,
                    _ => true,
                },
            i <= events@.len(),
            ({
                let s = scan_events(evs.subrange(0, i as int), ppq as int, fresh_scan(t0));
                &&& s.at == at
                &&& name_is(name, s.name)
                &&& open@ == s.open
                &&& notes@ == s.notes
                &&& tempos@ == s.tempos
            }),
            at == track_ticks(evs.subrange(0, i as int)),
            0 <= at <= total,
            forall|j: int| 0 <= j < open@.len() ==> 0 <= (#[trigger] open@[j]).2 <= at,
            forall|j: int| 0 <= j < notes@.len() ==> #[trigger] note_valid(notes@[j]),
            forall|j: int| 0 <= j < tempos@.len() ==> (#[trigger] tempos@[j]).0.0 >= 0,
        decreases events.len() - i,
    {
        let e = &events[i];
        let ghost pre = evs.subrange(0, i as int);
        let ghost s_before = scan_events(pre, ppq as int, fresh_scan(t0));
        proof {
            assert(evs.subrange(0, i + 1).drop_last() =~= pre);
            assert(evs.subrange(0, i + 1).last() == evs[i as int]);
            assert(evs[i as int] == e@);
            lemma_track_ticks_prefix(evs, i + 1);
            assert(track_ticks(evs.subrange(0, i + 1)) == at + e.delta);
        }
        at = at + e.delta as i64;
        proof {
            lemma_rescale_mono(at as int, total, ppq as int);
        }
        let tick = rescale(at, ppq);
        let ghost open0 = open@;
        let ghost notes0 = notes@;
        match &e.message {
            SmfMessage::Tempo(m) => {
                tempos.push((tick, Tempo { micros_per_quarter: *m }));
            },
            SmfMessage::TrackName(n) => {
                name = Some(utf8_lossy(n));
            },
            SmfMessage::NoteOn(c, k, v) => {
                if *v > 0 {
                    let vel = Velocity::new(*v).unwrap();
                    open.push((*c, *k, at, vel));
                } else {
                    proof {
                        assert forall|j: int| 0 <= j < open@.len() implies 0 <= (#[trigger] open@[j]).2 && rescale_spec(open@[j].2 as int, ppq as int) <= tick.0 by {
                            lemma_rescale_mono(open@[j].2 as int, at as int, ppq as int);
                        }
                    }
                    end_note(&mut open, &mut notes, *c, *k, tick, ppq);
                }
            },
            SmfMessage::NoteOff(c, k, _v) => {
                proof {
                    assert forall|j: int| 0 <= j < open@.len() implies 0 <= (#[trigger] open@[j]).2 && rescale_spec(open@[j].2 as int, ppq as int) <= tick.0 by {
                        lemma_rescale_mono(open@[j].2 as int, at as int, ppq as int);
                    }
                }
                end_note(&mut open, &mut notes, *c, *k, tick, ppq);
            },
            _ => {},
        }
        proof {
            let s_after = scan_events(evs.subrange(0, i + 1), ppq as int, fresh_scan(t0));
            assert(s_after == scan_event(s_before, e@, ppq as int));
            assert(open@ == s_after.open);
            assert(notes@ == s_after.notes);
            assert(tempos@ == s_after.tempos);
            assert(name_is(name, s_after.name));
            assert forall|j: int| 0 <= j < open@.len() implies 0 <= (#[trigger] open@[j]).2 <= at by {
                if j < open0.len() && open@[j] == open0[j] {
                } else if open0.contains(open@[j]) {
                    let q = choose|q: int| 0 <= q < open0.len() && open0[q] == open@[j];
                    assert(0 <= open0[q].2);
                }
            }
        }
        i += 1;
    }
    proof {
        assert(evs.subrange(0, i as int) =~= evs);
    }
    (name, notes)
}

/// The result of importing decoded content `d`: `SmpteTiming` for timecode
/// timing, `InvalidTiming` when the timing is not representable, and
/// otherwise the imported song.
pub open spec fn import_outcome(d: SmfDataView, r: Result<SmfSong, MidiError>) -> bool {
    match d.ppq {
        None => r matches Err(MidiError::SmpteTiming),
        Some(p) => if !timing_ok(d, p) {
            r matches Err(MidiError::InvalidTiming)
        } else {
            match r {
                Ok(song) => song_imported(song, d.tracks, p as int),
                Err(_) => false,
            }
        },
    }
}

/// Dropping repeated ticks from a tick-sorted list leaves a list with
/// strictly increasing ticks, drawn from the list, that starts with its
/// first entry.
proof fn lemma_dedup_ticks(s: Seq<(Tick, Tempo)>)
    requires
        sorted_by_key(s),
    ensures
        forall|i: int, j: int|
            0 <= i < j < dedup_ticks(s).len() ==> (#[trigger] dedup_ticks(s)[i]).0.0 < (#[trigger] dedup_ticks(s)[j]).0.0,
        forall|i: int| 0 <= i < dedup_ticks(s).len() ==> s.contains(#[trigger] dedup_ticks(s)[i]),
        s.len() > 0 ==> dedup_ticks(s).len() > 0 && dedup_ticks(s)[0] == s[0],
    decreases s.len(),
{
    if s.len() > 1 {
        let t = s.drop_last();
        assert(sorted_by_key(t)) by {
            assert forall|i: int, j: int| 0 <= i <= j < t.len() implies t[i].key() <= t[j].key() by {
                assert(t[i] == s[i] && t[j] == s[j]);
            }
        }
        lemma_dedup_ticks(t);
        let d = dedup_ticks(s);
        let dt = dedup_ticks(t);
        assert forall|i: int| 0 <= i < dt.len() implies s.contains(#[trigger] dt[i]) by {
            let q = choose|q: int| 0 <= q < t.len() && t[q] == dt[i];
            assert(s[q] == t[q]);
        }
        if s.last().0 != s[s.len() - 2].0 {
            assert(s[s.len() - 2].key() <= s.last().key());
            assert forall|i: int| 0 <= i < dt.len() implies (#[trigger] dt[i]).0.0 < s.last().0.0 by {
                let q = choose|q: int| 0 <= q < t.len() && t[q] == dt[i];
                assert(s[q].key() <= s[s.len() - 2].key());
            }
            assert(d == dt.push(s.last()));
            assert(s.contains(s.last())) by {
                assert(s[s.len() - 1] == s.last());
            }
        }
    }
}

/// The tempo map of the tempo changes read from a file: a default tempo at
/// tick 0 when none is there, sorted by tick, the first change of each tick
/// kept.
fn tempo_map_of(entries: Vec<(Tick, Tempo)>) -> (r: Result<TempoMap, TimelineError>)
    requires
        forall|j: int| 0 <= j < entries@.len() ==> (#[trigger] entries@[j]).0.0 >= 0,
    ensures
        r is Ok,
        r matches Ok(m) ==> m.wf() && forall|s: Seq<(Tick, Tempo)>| #[trigger] is_stable_sort_of(s, with_origin(entries@))
            ==> m@ == dedup_ticks(s),
{
    let mut entries = entries;
    let ghost e0 = entries@;
    let mut has_zero = false;
    let mut i: usize = 0;
    while i < entries.len()
        invariant
            entries@ == e0,
            i <= entries@.len(),
            has_zero <==> exists|j: int| 0 <= j < i && entries@[j].0.0 == 0,
        decreases entries.len() - i,
    {
        if entries[i].0.0 == 0 {
            has_zero = true;
        }
        i += 1;
    }
    if !has_zero {
        let d = Tempo::default_tempo();
        entries.insert(0, (Tick(0), d));
        proof {
            assert(d == Tempo { micros_per_quarter: 500_000 });
        }
    }
    let ghost full = entries@;
    proof {
        assert(full =~= with_origin(e0));
        assert(exists|j: int| 0 <= j < full.len() && full[j].0.0 == 0) by {
            if !has_zero {
                assert(full[0].0.0 == 0);
            }
        }
        assert(forall|j: int| 0 <= j < full.len() ==> (#[trigger] full[j]).0.0 >= 0) by {
            assert forall|j: int| 0 <= j < full.len() implies (#[trigger] full[j]).0.0 >= 0 by {
                if !has_zero && j > 0 {
                    assert(full[j] == e0[j - 1]);
                }
            }
        }
    }
    let sorted = stable_sort(&entries);
    let mut dedup: Vec<(Tick, Tempo)> = Vec::new();
    let mut k: usize = 0;
    while k < sorted.len()
        invariant
            k <= sorted@.len(),
            dedup@ == dedup_ticks(sorted@.subrange(0, k as int)),
        decreases sorted.len() - k,
    {
        let ghost pre = sorted@.subrange(0, k + 1);
        proof {
            assert(pre.drop_last() =~= sorted@.subrange(0, k as int));
            if k > 0 {
                assert(pre[k - 1] == sorted@[k - 1]);
            }
        }
        if k == 0 || sorted[k].0.0 != sorted[k - 1].0.0 {
            dedup.push(sorted[k]);
            proof {
                if k == 0 {
                    assert(dedup@ =~= pre);
                }
            }
        }
        k += 1;
    }
    proof {
        assert(sorted@.subrange(0, sorted@.len() as int) =~= sorted@);
        let sd = sorted@;
        let dd = dedup@;
        lemma_dedup_ticks(sd);
        let z = choose|j: int| 0 <= j < full.len() && full[j].0.0 == 0;
        lemma_stable_sort_same_elements(sd, full, full[z]);
        assert(full.contains(full[z]));
        let zs = choose|q: int| 0 <= q < sd.len() && sd[q] == full[z];
        assert(sd[0].key() <= sd[zs].key());
        assert(sd[0].0.0 >= 0) by {
            lemma_stable_sort_same_elements(sd, full, sd[0]);
            assert(sd.contains(sd[0]));
        }
        assert(dd[0].0.0 == 0);
        assert(has_origin_and_no_negative(dd)) by {
            assert forall|j: int| 0 <= j < dd.len() implies dd[j].0.0 >= 0 by {
                assert(sd.contains(dd[j]));
                lemma_stable_sort_same_elements(sd, full, dd[j]);
            }
        }
        assert(!has_duplicate_tick(dd));
        assert(sorted_by_key(dd)) by {
            assert forall|i: int, j: int| 0 <= i <= j < dd.len() implies dd[i].key() <= dd[j].key() by {
                if i < j {
                    assert(dd[i].0.0 < dd[j].0.0);
                }
            }
        }
    }
    let r = TempoMap::new(dedup);
    proof {
        if let Ok(ref m) = r {
            crate::sorting::lemma_stable_sort_unique(m@, dedup@);
            assert forall|s: Seq<(Tick, Tempo)>| #[trigger] is_stable_sort_of(s, with_origin(e0)) implies m@ == dedup_ticks(s) by {
                crate::sorting::lemma_stable_sort_unique(s, sorted@);
            }
        }
    }
    r
}

/// Imports decoded SMF content: notes are paired per channel and key
/// (a note-on with velocity 0 counts as a note-off, and repeated notes on
/// one key end most-recent first), tick positions are rescaled from the
/// file's resolution to the internal one, rounding to nearest, and tempo
/// changes form the tempo map.
///
/// Fails with `SmpteTiming` for timecode-timed files and `InvalidTiming`
/// when the timing is not representable; succeeds otherwise.
pub fn import_data(data: &SmfData) -> (r: Result<SmfSong, MidiError>)
    requires
        smf_in_range(data@),
    ensures
        import_outcome(data@, r),
{
    let ghost d = data@;
    let ppq = match data.ppq {
        None => {
            return Err(MidiError::SmpteTiming);
        },
        Some(p) => p,
    };
    if !timing_fits(data, ppq) {
        return Err(MidiError::InvalidTiming);
    }
    let mut tempos: Vec<(Tick, Tempo)> = Vec::new();
    let mut tracks: Vec<(Option<String>, Pattern)> = Vec::new();
    let mut t: usize = 0;
    proof {
        assert(d.tracks.subrange(0, 0) =~= Seq::<Seq<SmfEventView>>::empty());
    }
    while t < data.tracks.len()
        invariant
            d == data@,
            smf_in_range(d),
            d.ppq == Some(ppq),
            timing_ok(d, ppq),
            t <= d.tracks.len(),
            ({
                let (outs, ts) = import_fold(d.tracks.subrange(0, t as int), ppq as int);
                &&& tempos@ == ts
                &&& tracks@.len() == outs.len()
                &&& forall|i: int|
                    0 <= i < outs.len() ==> name_is((#[trigger] tracks@[i]).0, outs[i].0) && tracks@[i].1.wf()
                        && is_stable_sort_of(tracks@[i].1@.notes, outs[i].1) && tracks@[i].1@.length.0 == max_int(
                        0,
                        max_end(outs[i].1),
                    )
            }),
            forall|j: int| 0 <= j < tempos@.len() ==> (#[trigger] tempos@[j]).0.0 >= 0,
        decreases data.tracks.len() - t,
    {
        let ghost pre = d.tracks.subrange(0, t as int);
        let ghost outs0 = import_fold(pre, ppq as int).0;
        let ghost tracks0 = tracks@;
        proof {
            assert(d.tracks.subrange(0, t + 1).drop_last() =~= pre);
            assert(d.tracks[t as int] == track_view(data.tracks@[t as int]@));
            assert(d.tracks[t as int].len() == data.tracks@[t as int]@.len());
            assert forall|i: int| 0 <= i < data.tracks@[t as int]@.len() implies match (#[trigger] track_view(
                data.tracks@[t as int]@,
            )[i]).message {
                SmfMessageView::NoteOn(_c, _k, v) => v < 128,
                _ => true,
            } by {
                assert(d.tracks[t as int][i] == track_view(data.tracks@[t as int]@)[i]);
            }
        }
        let (name, notes) = scan_track(&data.tracks[t], ppq, &mut tempos);
        if notes.len() > 0 {
            proof {
                lemma_note_error_none(notes@);
                assert forall|i: int| 0 <= i < notes@.len() implies notes@[i].start.0 >= 0 && notes@[i].duration.0 > 0
                    && note_end(notes@[i]) <= i64::MAX by {
                    assert(note_valid(notes@[i]));
                }
            }
            let ghost nv = notes@;
            let pattern = match Pattern::new(notes, Tick(0)) {
                Ok(p) => p,
                Err(e) => {
                    return Err(MidiError::Pattern(e));
                },
            };
            tracks.push((name, pattern));
            proof {
                assert forall|i: int| 0 <= i < tracks0.len() implies tracks@[i] == tracks0[i] by {}
            }
        }
        t += 1;
    }
    proof {
        assert(d.tracks.subrange(0, t as int) =~= d.tracks);
    }
    let tempo_map = match tempo_map_of(tempos) {
        Ok(m) => m,
        Err(e) => {
            return Err(MidiError::Timeline(e));
        },
    };
    Ok(SmfSong { tempo_map, tracks })
}

/// Imports a Standard MIDI File (format 0 or 1): decodes it, then imports
/// its content as [`import_data`] does.
///
/// Fails with `Parse` when the bytes are not a valid SMF file.
pub fn import_smf(bytes: &[u8]) -> (r: Result<SmfSong, MidiError>)
    ensures
        match smf_decoded(bytes@) {
            None => r matches Err(MidiError::Parse(_)),
            Some(d) => import_outcome(d, r),
        },
{
    match decode_smf(bytes) {
        Err(e) => Err(MidiError::Parse(e)),
        Ok(d) => import_data(&d),
    }
}

// ---------------------------------------------------------------- export

/// An upper bound on the encoded size of an event: at most four bytes of
/// delta time and twelve of message, plus a track name's bytes.
pub open spec fn event_size_bound(e: SmfEventView) -> int {
    16 + match e.message {
        SmfMessageView::TrackName(n) => n.len() as int,
        _ => 0,
    }
}

/// An upper bound on the encoded size of a track.
pub open spec fn track_size_bound(t: Seq<SmfEventView>) -> int
    decreases t.len(),
{
    if t.len() == 0 {
        0
    } else {
        track_size_bound(t.drop_last()) + event_size_bound(t.last())
    }
}

/// A message `midly` can write exactly: in the value ranges of its types,
/// of a kind it represents, and with a track name shorter than the 2^28
/// bytes that a variable-length size field holds.
pub open spec fn writable(m: SmfMessageView) -> bool {
    &&& message_in_range(m)
    &&& !(m is Other)
    &&& match m {
        SmfMessageView::TrackName(n) => n.len() < 0x1000_0000,
        _ => true,
    }
}

/// An event `midly` can write exactly: a 28-bit delta time and a writable
/// message.
pub open spec fn event_writable(e: SmfEventView) -> bool {
    e.delta < 0x1000_0000 && writable(e.message)
}

/// Content `midly` can encode into an in-memory file: metrical timing, at
/// most 65535 tracks, chunks within the 32-bit size field, and only events
/// it can write exactly.
pub open spec fn encodable(f: SmfFileView) -> bool {
    &&& f.data.ppq is Some
    &&& f.data.tracks.len() <= 65535
    &&& forall|t: int| 0 <= t < f.data.tracks.len() ==> track_size_bound(#[trigger] f.data.tracks[t]) <= u32::MAX
    &&& forall|t: int, i: int|
        0 <= t < f.data.tracks.len() && 0 <= i < f.data.tracks[t].len() ==> event_writable(#[trigger] f.data.tracks[t][i])
}

/// The bytes `midly` writes for a file.
pub uninterp spec fn smf_encoded(f: SmfFileView) -> Seq<u8>;

/// `midly::Smf::new` with a format-1 (parallel) header at `ppq` ticks per
/// quarter. Trusted: the file is empty with that format and timing.
#[verifier::external_body]
fn smf_new(ppq: u16) -> (r: midly::Smf<'static>)
    requires
        ppq < 0x8000,
    ensures
        smf_content(r) == (SmfFileView { format: 1, data: SmfDataView { ppq: Some(ppq), tracks: Seq::empty() } }),
{
    midly::Smf::new(midly::Header::new(midly::Format::Parallel, Timing::Metrical(ppq.into())))
}

/// Appends an empty track. Trusted: the content gains an empty track.
#[verifier::external_body]
fn smf_add_track(s: &mut midly::Smf)
    ensures
        smf_content(*final(s)) == (SmfFileView {
            format: smf_content(*old(s)).format,
            data: SmfDataView {
                ppq: smf_content(*old(s)).data.ppq,
                tracks: smf_content(*old(s)).data.tracks.push(Seq::empty()),
            },
        }),
{
    s.tracks.push(Vec::new());
}

/// Appends an event to the last track, converting it to `midly`'s event
/// type. Trusted: the content's last track gains the event (the ranges
/// required make the conversion exact).
#[verifier::external_body]
fn smf_add_event<'a>(s: &mut midly::Smf<'a>, e: &'a SmfEvent)
    requires
        smf_content(*old(s)).data.tracks.len() > 0,
        event_in_range(e@),
        !(e@.message is Other),
    ensures
        smf_content(*final(s)) == (SmfFileView {
            format: smf_content(*old(s)).format,
            data: SmfDataView {
                ppq: smf_content(*old(s)).data.ppq,
                tracks: smf_content(*old(s)).data.tracks.update(
                    smf_content(*old(s)).data.tracks.len() - 1,
                    smf_content(*old(s)).data.tracks.last().push(e@),
                ),
            },
        }),
{
    let kind = match e.message {
        SmfMessage::Tempo(m) => K::Meta(Meta::Tempo(m.into())),
        SmfMessage::TrackName(ref n) => K::Meta(Meta::TrackName(n.as_slice())),
        SmfMessage::NoteOn(c, k, v) => K::Midi { channel: c.into(), message: Msg::NoteOn { key: k.into(), vel: v.into() } },
        SmfMessage::NoteOff(c, k, v) => K::Midi { channel: c.into(), message: Msg::NoteOff { key: k.into(), vel: v.into() } },
        _ => K::Meta(Meta::EndOfTrack),
    };
    s.tracks.last_mut().unwrap().push(midly::TrackEvent { delta: e.delta.into(), kind });
}

/// `midly::Smf::write` into memory. Trusted: on encodable content the write
/// succeeds, and the bytes are the encoding named [`smf_encoded`].
#[verifier::external_body]
fn smf_write(s: &midly::Smf) -> (r: Vec<u8>)
    requires
        encodable(smf_content(*s)),
    ensures
        r@ == smf_encoded(smf_content(*s)),
{
    let mut out = Vec::new();
    s.write(&mut out).expect("encodable content");
    out
}

/// The order of events that share a tick: meta events first, then
/// note-offs (and note-ons of velocity 0), then other channel events, so
/// that a note ending where the next one on its key starts re-triggers.
pub open spec fn message_rank(m: SmfMessageView) -> int {
    match m {
        SmfMessageView::NoteOff(..) => 1,
        SmfMessageView::NoteOn(_c, _k, v) => if v == 0 {
            1
        } else {
            2
        },
        SmfMessageView::Other => 2,
        _ => 0,
    }
}

/// An event's place in a track: tick, then rank, then input position.
#[derive(Debug, Clone, Copy)]
pub struct Keyed {
    /// Absolute tick.
    pub tick: i64,
    /// Rank among events at one tick.
    pub rank: u8,
    /// Position in the unsorted event list.
    pub index: usize,
}

impl crate::sorting::SortKey for Keyed {
    open spec fn key(&self) -> int {
        self.tick * 3 + self.rank
    }

    fn sort_key(&self) -> (k: i128) {
        self.tick as i128 * 3 + self.rank as i128
    }
}

/// The sort keys of absolute-tick events.
pub open spec fn keyed(ev: Seq<(i64, SmfMessageView)>) -> Seq<Keyed> {
    Seq::new(ev.len(), |i: int| Keyed { tick: ev[i].0, rank: message_rank(ev[i].1) as u8, index: i as usize })
}

/// The events named by `order`, with delta times from `last` on (kept to
/// the 28 bits an SMF delta holds), then an end-of-track marker.
pub open spec fn delta_events(ev: Seq<(i64, SmfMessageView)>, order: Seq<Keyed>, last: int) -> Seq<SmfEventView>
    decreases order.len(),
{
    if order.len() == 0 {
        seq![SmfEventView { delta: 0, message: SmfMessageView::EndOfTrack }]
    } else {
        let e = ev[order[0].index as int];
        seq![SmfEventView { delta: ((e.0 - last) % 0x1000_0000) as u32, message: e.1 }] + delta_events(
            ev,
            order.drop_first(),
            e.0 as int,
        )
    }
}

/// A track's events: the absolute-tick events stably sorted by tick and
/// rank, with delta times.
pub open spec fn track_events(ev: Seq<(i64, SmfMessageView)>) -> Seq<SmfEventView> {
    delta_events(ev, choose|o: Seq<Keyed>| is_stable_sort_of(o, keyed(ev)), 0)
}

/// Every tick is non-negative, and each lies within `u32::MAX` of tick 0 or
/// of a smaller tick: consecutive sorted ticks differ by at most `u32::MAX`.
pub open spec fn gaps_fit(ev: Seq<(i64, SmfMessageView)>) -> bool {
    forall|i: int|
        0 <= i < ev.len() ==> 0 <= (#[trigger] ev[i]).0 && (ev[i].0 <= u32::MAX || exists|j: int|
            0 <= j < ev.len() && ev[i].0 - u32::MAX <= #[trigger] ev[j].0 < ev[i].0)
}

/// The views of absolute-tick events.
pub open spec fn tick_events_view(v: Seq<(i64, SmfMessage)>) -> Seq<(i64, SmfMessageView)> {
    v.map_values(|p: (i64, SmfMessage)| (p.0, p.1@))
}

fn copy_message(m: &SmfMessage) -> (r: SmfMessage)
    ensures
        r@ == m@,
{
    match m {
        SmfMessage::Tempo(t) => SmfMessage::Tempo(*t),
        SmfMessage::TrackName(n) => SmfMessage::TrackName(vstd::slice::slice_to_vec(n.as_slice())),
        SmfMessage::NoteOn(c, k, v) => SmfMessage::NoteOn(*c, *k, *v),
        SmfMessage::NoteOff(c, k, v) => SmfMessage::NoteOff(*c, *k, *v),
        SmfMessage::EndOfTrack => SmfMessage::EndOfTrack,
        SmfMessage::Other => SmfMessage::Other,
    }
}

fn rank_of(m: &SmfMessage) -> (r: u8)
    ensures
        r == message_rank(m@),
{
    match m {
        SmfMessage::NoteOff(..) => 1,
        SmfMessage::NoteOn(_c, _k, v) => if *v == 0 {
            1
        } else {
            2
        },
        SmfMessage::Other => 2,
        _ => 0,
    }
}

/// Sorts absolute-tick events (note-offs before note-ons at equal ticks)
/// and gives them delta times, ending the track.
#[verifier::rlimit(40)]
fn push_with_deltas(events: &Vec<(i64, SmfMessage)>) -> (r: Vec<SmfEvent>)
    requires
        gaps_fit(tick_events_view(events@)),
        forall|i: int| 0 <= i < events@.len() ==> writable((#[trigger] events@[i]).1@),
    ensures
        track_view(r@) == track_events(tick_events_view(events@)),
        forall|j: int| 0 <= j < r@.len() ==> event_writable((#[trigger] r@[j])@),
{
    let ghost ev = tick_events_view(events@);
    let mut keys: Vec<Keyed> = Vec::new();
    let mut i: usize = 0;
    while i < events.len()
        invariant
            ev == tick_events_view(events@),
            i <= events@.len(),
            keys@ == keyed(ev).subrange(0, i as int),
        decreases events.len() - i,
    {
        let k = Keyed { tick: events[i].0, rank: rank_of(&events[i].1), index: i };
        keys.push(k);
        proof {
            assert(keys@ =~= keyed(ev).subrange(0, i + 1));
        }
        i += 1;
    }
    proof {
        assert(keys@ =~= keyed(ev));
    }
    let sorted = stable_sort(&keys);
    let ghost o = sorted@;
    proof {
        assert(is_stable_sort_of(o, keyed(ev)));
        let c = choose|q: Seq<Keyed>| is_stable_sort_of(q, keyed(ev));
        crate::sorting::lemma_stable_sort_unique(c, o);
        assert(track_events(ev) == delta_events(ev, o, 0));
    }
    let mut out: Vec<SmfEvent> = Vec::new();
    let mut last: i64 = 0;
    let mut p: usize = 0;
    proof {
        assert(o.subrange(0, o.len() as int) =~= o);
        assert(track_view(out@) =~= Seq::<SmfEventView>::empty());
        assert(track_view(out@) + delta_events(ev, o.subrange(0, o.len() as int), 0) =~= delta_events(ev, o, 0));
    }
    while p < sorted.len()
        invariant
            ev == tick_events_view(events@),
            ev.len() == events.len(),
            gaps_fit(ev),
            o == sorted@,
            is_stable_sort_of(o, keyed(ev)),
            p <= o.len(),
            track_view(out@) + delta_events(ev, o.subrange(p as int, o.len() as int), last as int) == delta_events(ev, o, 0),
            p == 0 ==> last == 0,
            p > 0 ==> last == ev[o[p - 1].index as int].0 && o[p - 1].index < ev.len(),
            0 <= last,
            forall|i: int| 0 <= i < events@.len() ==> writable((#[trigger] events@[i]).1@),
            forall|j: int| 0 <= j < out@.len() ==> event_writable((#[trigger] out@[j])@),
        decreases sorted.len() - p,
    {
        let k = sorted[p];
        proof {
            assert(o.contains(k));
            lemma_stable_sort_same_elements(o, keyed(ev), k);
            let q = choose|q: int| 0 <= q < keyed(ev).len() && keyed(ev)[q] == k;
            assert(ev.len() == events.len());
            assert(k.index == q);
            assert(keyed(ev)[q].tick == ev[q].0);
        }
        let e = &events[k.index];
        let tick = e.0;
        proof {
            assert(ev.len() == events.len());
            lemma_delta_fits(ev, o, p as int, last as int);
        }
        let gap = tick - last;
        let delta: u32 = (gap as u32) % 0x1000_0000;
        let ev_out = SmfEvent { delta, message: copy_message(&e.1) };
        let ghost before = out@;
        out.push(ev_out);
        proof {
            assert(message_in_range(events@[k.index as int].1@));
            assert forall|j: int| 0 <= j < out@.len() implies event_writable((#[trigger] out@[j])@) by {
                if j < before.len() {
                    assert(out@[j] == before[j]);
                }
            }
            let rest = o.subrange(p as int, o.len() as int);
            assert(rest[0] == k);
            assert(rest.drop_first() =~= o.subrange(p + 1, o.len() as int));
            assert(ev[k.index as int] == (e.0, e.1@));
            assert(track_view(out@) =~= track_view(before).push(ev_out@));
            assert(delta_events(ev, rest, last as int) == seq![ev_out@] + delta_events(ev, rest.drop_first(), tick as int));
            assert(track_view(out@) + delta_events(ev, o.subrange(p + 1, o.len() as int), tick as int) =~= track_view(before)
                + delta_events(ev, rest, last as int));
        }
        last = tick;
        p += 1;
    }
    let end = SmfEvent { delta: 0, message: SmfMessage::EndOfTrack };
    let ghost before = out@;
    out.push(end);
    proof {
        assert forall|j: int| 0 <= j < out@.len() implies event_writable((#[trigger] out@[j])@) by {
            if j < before.len() {
                assert(out@[j] == before[j]);
            }
        }
        assert(o.subrange(p as int, o.len() as int) =~= Seq::<Keyed>::empty());
        assert(track_view(out@) =~= track_view(before).push(end@));
    }
    out
}

/// When the events are sorted and their gaps fit, the tick of position `p`
/// lies within `u32::MAX` of the previous one (or of 0) and is not before it.
proof fn lemma_delta_fits(ev: Seq<(i64, SmfMessageView)>, o: Seq<Keyed>, p: int, last: int)
    requires
        ev.len() <= usize::MAX,
        gaps_fit(ev),
        is_stable_sort_of(o, keyed(ev)),
        0 <= p < o.len(),
        p == 0 ==> last == 0,
        p > 0 ==> last == ev[o[p - 1].index as int].0 && o[p - 1].index < ev.len(),
    ensures
        o[p].index < ev.len(),
        0 <= ev[o[p].index as int].0 - last <= u32::MAX,
{
    let kk = keyed(ev);
    assert forall|x: int| 0 <= x < o.len() implies (#[trigger] o[x]).index < ev.len() && ev[o[x].index as int].0 == o[x].tick
        && kk[o[x].index as int] == o[x] by {
        assert(o.contains(o[x]));
        lemma_stable_sort_same_elements(o, kk, o[x]);
        let q = choose|q: int| 0 <= q < kk.len() && kk[q] == o[x];
    }
    let i = o[p].index as int;
    let t = ev[i].0;
    assert(0 <= t);
    if p > 0 {
        assert(o[p - 1].key() <= o[p].key());
        assert(last <= t);
    }
    if t > u32::MAX {
        let j = choose|j: int| 0 <= j < ev.len() && ev[i].0 - u32::MAX <= #[trigger] ev[j].0 < ev[i].0;
        assert(kk.contains(kk[j]));
        lemma_stable_sort_same_elements(o, kk, kk[j]);
        let q = choose|q: int| 0 <= q < o.len() && o[q] == kk[j];
        if q >= p {
            assert(o[p].key() <= o[q].key());
        }
        assert(q < p);
        assert(o[q].key() <= o[p - 1].key());
    }
}

/// The absolute-tick events of the tempo track (tempos kept to 24 bits).
pub open spec fn tempo_events(m: Seq<(Tick, Tempo)>) -> Seq<(i64, SmfMessageView)> {
    m.map_values(|e: (Tick, Tempo)| (e.0.0, SmfMessageView::Tempo(e.1.micros_per_quarter % 0x100_0000)))
}

/// The note-on and note-off events of notes on channel 0 (keys kept to 7
/// bits).
pub open spec fn note_events(notes: Seq<Note>) -> Seq<(i64, SmfMessageView)>
    decreases notes.len(),
{
    if notes.len() == 0 {
        Seq::empty()
    } else {
        let n = notes.last();
        note_events(notes.drop_last()) + seq![
            (n.start.0, SmfMessageView::NoteOn(0, n.pitch.note % 128, n.velocity.value())),
            ((n.start.0 + n.duration.0) as i64, SmfMessageView::NoteOff(0, n.pitch.note % 128, 0)),
        ]
    }
}

/// Exporting a note writes two events for it, in note order: a note-on on
/// channel 0 at the note's start with its key and velocity, then a note-off
/// for the same key at the note's end.
pub proof fn law_export_note_events(notes: Seq<Note>)
    ensures
        note_events(notes).len() == 2 * notes.len(),
        forall|i: int|
            0 <= i < notes.len() ==> {
                let n = #[trigger] notes[i];
                &&& note_events(notes)[2 * i] == (n.start.0, SmfMessageView::NoteOn(0, n.pitch.note % 128, n.velocity.value()))
                &&& note_events(notes)[2 * i + 1] == ((n.start.0 + n.duration.0) as i64, SmfMessageView::NoteOff(
                    0,
                    n.pitch.note % 128,
                    0,
                ))
            },
    decreases notes.len(),
{
    if notes.len() > 0 {
        let rest = notes.drop_last();
        law_export_note_events(rest);
        let e = note_events(notes);
        let r = note_events(rest);
        assert forall|i: int| 0 <= i < notes.len() implies {
            let n = #[trigger] notes[i];
            &&& e[2 * i] == (n.start.0, SmfMessageView::NoteOn(0, n.pitch.note % 128, n.velocity.value()))
            &&& e[2 * i + 1] == ((n.start.0 + n.duration.0) as i64, SmfMessageView::NoteOff(0, n.pitch.note % 128, 0))
        } by {
            if i < rest.len() {
                assert(notes[i] == rest[i]);
                assert(e[2 * i] == r[2 * i]);
                assert(e[2 * i + 1] == r[2 * i + 1]);
            }
        }
    }
}

/// The absolute-tick events of a note track: its name (at tick 0) if it
/// has one, then its notes.
pub open spec fn pattern_events(name: Option<String>, notes: Seq<Note>) -> Seq<(i64, SmfMessageView)> {
    match name {
        Some(n) => seq![(0i64, SmfMessageView::TrackName(vstd::utf8::encode_utf8(n@)))] + note_events(notes),
        None => note_events(notes),
    }
}

/// The file a song exports to: format 1 at the internal resolution, a tempo
/// track, then one note track per pattern.
pub open spec fn exported(song: SmfSong) -> SmfFileView {
    SmfFileView {
        format: 1,
        data: SmfDataView {
            ppq: Some(PPQ as u16),
            tracks: seq![track_events(tempo_events(song.tempo_map@))] + Seq::new(
                song.tracks@.len(),
                |i: int| track_events(pattern_events(song.tracks@[i].0, song.tracks@[i].1@.notes)),
            ),
        },
    }
}

/// A track name, if any, is shorter than 2^28 bytes in UTF-8.
pub open spec fn name_fits(name: Option<String>) -> bool {
    match name {
        Some(n) => vstd::utf8::encode_utf8(n@).len() < 0x1000_0000,
        None => true,
    }
}

/// A song fits an SMF file: consecutive event ticks of every track differ by
/// at most `u32::MAX`, there are at most 65534 patterns, every track name
/// is shorter than 2^28 bytes in UTF-8, and every track chunk stays within
/// the 32-bit size field.
pub open spec fn exportable(song: SmfSong) -> bool {
    &&& gaps_fit(tempo_events(song.tempo_map@))
    &&& forall|i: int|
        0 <= i < song.tracks@.len() ==> gaps_fit(pattern_events((#[trigger] song.tracks@[i]).0, song.tracks@[i].1@.notes))
    &&& song.tracks@.len() < 65535
    &&& forall|i: int|
        0 <= i < song.tracks@.len() ==> name_fits((#[trigger] song.tracks@[i]).0)
    &&& forall|t: int| 0 <= t < exported(song).data.tracks.len() ==> track_size_bound(#[trigger] exported(song).data.tracks[t]) <= u32::MAX
}

fn pattern_tick_events(name: &Option<String>, pattern: &Pattern) -> (r: Vec<(i64, SmfMessage)>)
    requires
        pattern.wf(),
        name_fits(*name),
    ensures
        tick_events_view(r@) == pattern_events(*name, pattern@.notes),
        forall|i: int| 0 <= i < r@.len() ==> writable((#[trigger] r@[i]).1@),
{
    let mut events: Vec<(i64, SmfMessage)> = Vec::new();
    match name {
        Some(n) => {
            let bytes = vstd::slice::slice_to_vec(n.as_str().as_bytes());
            events.push((0, SmfMessage::TrackName(bytes)));
        },
        None => {},
    }
    let ghost head = tick_events_view(events@);
    let notes = pattern.notes();
    let mut i: usize = 0;
    while i < notes.len()
        invariant
            pattern.wf(),
            notes@ == pattern@.notes,
            i <= notes@.len(),
            tick_events_view(events@) == head + note_events(notes@.subrange(0, i as int)),
            head == match *name {
                Some(n) => seq![(0i64, SmfMessageView::TrackName(vstd::utf8::encode_utf8(n@)))],
                None => Seq::<(i64, SmfMessageView)>::empty(),
            },
            forall|j: int| 0 <= j < events@.len() ==> writable((#[trigger] events@[j]).1@),
        decreases notes.len() - i,
    {
        let n = notes[i];
        proof {
            assert(crate::pattern::note_valid(notes@[i as int]));
        }
        let key: u8 = n.pitch.note % 128;
        let ghost before = events@;
        events.push((n.start.0, SmfMessage::NoteOn(0, key, n.velocity.get())));
        events.push((n.end().0, SmfMessage::NoteOff(0, key, 0)));
        proof {
            let pre = notes@.subrange(0, i + 1);
            assert(pre.drop_last() =~= notes@.subrange(0, i as int));
            assert(pre.last() == n);
            assert(tick_events_view(events@) =~= tick_events_view(before) + seq![
                (n.start.0, SmfMessageView::NoteOn(0, key, n.velocity.value())),
                ((n.start.0 + n.duration.0) as i64, SmfMessageView::NoteOff(0, key, 0)),
            ]);
            assert forall|j: int| 0 <= j < events@.len() implies writable((#[trigger] events@[j]).1@) by {
                if j < before.len() {
                    assert(events@[j] == before[j]);
                }
            }
        }
        i += 1;
    }
    proof {
        assert(notes@.subrange(0, notes@.len() as int) =~= notes@);
        assert(tick_events_view(events@) =~= pattern_events(*name, pattern@.notes));
    }
    events
}

/// Exports a song as a format-1 Standard MIDI File at the internal
/// resolution: track 0 carries the tempo map, each pattern becomes one note
/// track on channel 0 (named when it has a name). At equal ticks note-offs
/// come before note-ons, so repeated notes re-trigger. Microtonal offsets
/// are not exported.
pub fn export_smf(song: &SmfSong) -> (r: Vec<u8>)
    requires
        song.tempo_map.wf(),
        forall|i: int| 0 <= i < song.tracks@.len() ==> (#[trigger] song.tracks@[i]).1.wf(),
        exportable(*song),
    ensures
        r@ == smf_encoded(exported(*song)),
{
    let ghost target = exported(*song).data.tracks;
    let mut out: Vec<Vec<SmfEvent>> = Vec::new();
    let entries = song.tempo_map.entries();
    let mut tempo_ev: Vec<(i64, SmfMessage)> = Vec::new();
    let mut i: usize = 0;
    while i < entries.len()
        invariant
            i <= entries@.len(),
            tick_events_view(tempo_ev@) == tempo_events(entries@.subrange(0, i as int)),
            forall|j: int| 0 <= j < tempo_ev@.len() ==> writable((#[trigger] tempo_ev@[j]).1@),
        decreases entries.len() - i,
    {
        let (tick, tempo) = entries[i];
        let ghost before = tempo_ev@;
        tempo_ev.push((tick.0, SmfMessage::Tempo(tempo.micros_per_quarter % 0x100_0000)));
        proof {
            assert(entries@[i as int] == (tick, tempo));
            assert(tick_events_view(tempo_ev@) =~= tick_events_view(before).push((tick.0, SmfMessageView::Tempo(tempo.micros_per_quarter % 0x100_0000))));
            assert(tempo_events(entries@.subrange(0, i + 1)) =~= tempo_events(entries@.subrange(0, i as int)).push((tick.0, SmfMessageView::Tempo(tempo.micros_per_quarter % 0x100_0000))));
            assert(tick_events_view(tempo_ev@) =~= tempo_events(entries@.subrange(0, i + 1)));
            assert forall|j: int| 0 <= j < tempo_ev@.len() implies writable((#[trigger] tempo_ev@[j]).1@) by {
                if j < before.len() {
                    assert(tempo_ev@[j] == before[j]);
                }
            }
        }
        i += 1;
    }
    proof {
        assert(entries@.subrange(0, entries@.len() as int) =~= entries@);
    }
    out.push(push_with_deltas(&tempo_ev));
    let mut t: usize = 0;
    while t < song.tracks.len()
        invariant
            forall|i: int| 0 <= i < song.tracks@.len() ==> (#[trigger] song.tracks@[i]).1.wf(),
            exportable(*song),
            target == exported(*song).data.tracks,
            t <= song.tracks@.len(),
            out@.len() == t + 1,
            forall|u: int| 0 <= u <= t ==> track_view((#[trigger] out@[u])@) == target[u],
            forall|u: int, j: int|
                0 <= u <= t && 0 <= j < out@[u]@.len() ==> event_writable((#[trigger] out@[u]@[j])@),
        decreases song.tracks.len() - t,
    {
        let (name, pattern) = &song.tracks[t];
        let ev = pattern_tick_events(name, pattern);
        proof {
            assert(song.tracks@[t as int].0 == *name);
        }
        let track = push_with_deltas(&ev);
        let ghost before = out@;
        out.push(track);
        proof {
            assert forall|u: int| 0 <= u <= t + 1 implies track_view((#[trigger] out@[u])@) == target[u] by {
                if u <= t {
                    assert(out@[u] == before[u]);
                }
            }
            assert forall|u: int, j: int|
                0 <= u <= t + 1 && 0 <= j < out@[u]@.len() implies event_writable((#[trigger] out@[u]@[j])@) by {
                if u <= t {
                    assert(out@[u] == before[u]);
                }
            }
        }
        t += 1;
    }
    let mut smf = smf_new(PPQ as u16);
    let mut u: usize = 0;
    proof {
        assert(target.subrange(0, 0) =~= Seq::<Seq<SmfEventView>>::empty());
    }
    while u < out.len()
        invariant
            target == exported(*song).data.tracks,
            out@.len() == target.len(),
            u <= out@.len(),
            forall|w: int| 0 <= w < out@.len() ==> track_view((#[trigger] out@[w])@) == target[w],
            forall|w: int, j: int|
                0 <= w < out@.len() && 0 <= j < out@[w]@.len() ==> event_writable((#[trigger] out@[w]@[j])@),
            smf_content(smf) == (SmfFileView { format: 1, data: SmfDataView { ppq: Some(PPQ as u16), tracks: target.subrange(0, u as int) } }),
        decreases out.len() - u,
    {
        smf_add_track(&mut smf);
        let track = &out[u];
        let mut j: usize = 0;
        proof {
            assert(track_view(track@).subrange(0, 0) =~= Seq::<SmfEventView>::empty());
        }
        while j < track.len()
            invariant
                u < out@.len(),
                out@.len() == target.len(),
                track == &out@[u as int],
                j <= track@.len(),
                forall|k: int| 0 <= k < track@.len() ==> event_writable((#[trigger] track@[k])@),
                smf_content(smf) == (SmfFileView {
                    format: 1,
                    data: SmfDataView {
                        ppq: Some(PPQ as u16),
                        tracks: target.subrange(0, u as int).push(track_view(track@).subrange(0, j as int)),
                    },
                }),
            decreases track.len() - j,
        {
            let ghost c0 = smf_content(smf);
            smf_add_event(&mut smf, &track[j]);
            proof {
                assert(track_view(track@).subrange(0, j + 1) =~= track_view(track@).subrange(0, j as int).push(track@[j as int]@));
                assert(smf_content(smf).data.tracks =~= target.subrange(0, u as int).push(track_view(track@).subrange(0, j + 1)));
            }
            j += 1;
        }
        proof {
            assert(track_view(track@).subrange(0, j as int) =~= track_view(track@));
            assert(target.subrange(0, u as int).push(target[u as int]) =~= target.subrange(0, u + 1));
        }
        u += 1;
    }
    proof {
        assert(target.subrange(0, u as int) =~= target);
        assert(smf_content(smf) == exported(*song));
        assert forall|w: int, j: int| 0 <= w < target.len() && 0 <= j < target[w].len() implies event_writable(#[trigger] target[w][j]) by {
            assert(target[w][j] == out@[w]@[j]@);
        }
    }
    smf_write(&smf)
}
} // verus!
