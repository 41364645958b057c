//! Commands: validated requests that become events, and `dispatch`, the only
//! mutation entry point of the project aggregate.

use std::collections::BTreeMap;
use vstd::prelude::*;
use crate::core_types::{ClipId, ProjectId, Tempo, Tick, TrackId};
use crate::float::{within, is_finite, Float32};
use crate::pattern::{Pattern, PatternView};
use crate::project_apply::{apply_spec, placed_ids};
use crate::project_event::{clip_list_view, Event, EventView};
use crate::project_store::{
    clip_positions, clips_get, find_first_clip, find_last_match, find_marker, find_track,
    first_with_clip, last_match, lemma_first_with_clip, lemma_last_match,
    lemma_marker_index, lemma_track_index, marker_index, positions_of_clip, track_index,
};
use crate::project_types::{
    clips_map, devices_view, markers_view, params_view, tracks_view,
    ChannelStrip, Clip, ClipView, Device, DeviceView, DomainError, DomainErrorView, Placement,
    ProjectMeta, ProjectState, ProjectView, Track, TrackKind, TrackView, FORMAT_VERSION,
};
use crate::text::{trim, trimmed};
use crate::timeline::{
    count_lt, default_signature_map, default_tempo_map, entry_at, has_entry_at,
    lemma_count_lt_prefix, strictly_sorted,
};

verus! {

broadcast use vstd::seq_lib::group_seq_properties;

// ---------------------------------------------------------------- bounds

/// Encoding of −96.0, the lowest track gain.
pub const GAIN_MIN_BITS: u32 = 0xc2c0_0000;
/// Encoding of 12.0, the highest track gain.
pub const GAIN_MAX_BITS: u32 = 0x4140_0000;
/// Encoding of −1.0, hard left.
pub const PAN_MIN_BITS: u32 = 0xbf80_0000;
/// Encoding of 1.0, hard right.
pub const PAN_MAX_BITS: u32 = 0x3f80_0000;
/// Encoding of 0.0.
pub const ZERO_BITS: u32 = 0;
/// Encoding of 0.1.
pub const TENTH_BITS: u32 = 0x3dcc_cccd;
/// Encoding of 0.95.
pub const FEEDBACK_MAX_BITS: u32 = 0x3f73_3333;
/// Encoding of 1.0.
pub const ONE_BITS: u32 = 0x3f80_0000;
/// Encoding of 10.0.
pub const TEN_BITS: u32 = 0x4120_0000;
/// Encoding of 18.0.
pub const EIGHTEEN_BITS: u32 = 0x4190_0000;
/// Encoding of 20.0.
pub const TWENTY_BITS: u32 = 0x41a0_0000;
/// Encoding of 24.0.
pub const TWENTY_FOUR_BITS: u32 = 0x41c0_0000;
/// Encoding of −24.0.
pub const MINUS_TWENTY_FOUR_BITS: u32 = 0xc1c0_0000;
/// Encoding of −60.0.
pub const MINUS_SIXTY_BITS: u32 = 0xc270_0000;
/// Encoding of 200.0.
pub const TWO_HUNDRED_BITS: u32 = 0x4348_0000;
/// Encoding of 2000.0.
pub const TWO_THOUSAND_BITS: u32 = 0x44fa_0000;
/// Encoding of 20000.0.
pub const TWENTY_THOUSAND_BITS: u32 = 0x469c_4000;

// ---------------------------------------------------------------- commands

/// Imperative, validated, rejectable requests to change the project.
#[derive(Debug, Clone, PartialEq, Eq)]
pub enum Command {
    /// Rename the project.
    RenameProject {
        /// New project name.
        name: String,
    },
    /// Create a track at the end of the track list.
    CreateTrack {
        /// Track display name.
        name: String,
        /// Track content kind.
        kind: TrackKind,
    },
    /// Rename a track.
    RenameTrack {
        /// Target track.
        track: TrackId,
        /// New display name.
        name: String,
    },
    /// Remove a track and every clip placed on it.
    RemoveTrack {
        /// Target track.
        track: TrackId,
    },
    /// Insert a new clip on a track.
    InsertClip {
        /// Target track.
        track: TrackId,
        /// Clip display name.
        name: String,
        /// Symbolic content.
        pattern: Pattern,
        /// Timeline position.
        at: Tick,
    },
    /// Remove a clip (and its placement).
    RemoveClip {
        /// Target clip.
        clip: ClipId,
    },
    /// Move a clip to a new timeline position on its track.
    MoveClip {
        /// Target clip.
        clip: ClipId,
        /// New timeline position.
        at: Tick,
    },
    /// Place an existing clip at an additional timeline position on its own track.
    PlaceClip {
        /// Clip to place again.
        clip: ClipId,
        /// New timeline position.
        at: Tick,
    },
    /// Remove one placement of a clip (not the last one — use `RemoveClip`).
    UnplaceClip {
        /// Target clip.
        clip: ClipId,
        /// The placement position to remove.
        at: Tick,
    },
    /// Add a named marker to the timeline.
    AddMarker {
        /// Timeline position.
        at: Tick,
        /// Marker name.
        name: String,
    },
    /// Remove the marker with this exact position and name.
    RemoveMarker {
        /// Timeline position.
        at: Tick,
        /// Marker name.
        name: String,
    },
    /// Set a track's gain in decibels (−96.0..=12.0).
    SetTrackGain {
        /// Target track.
        track: TrackId,
        /// New gain in dB.
        gain_db: Float32,
    },
    /// Set a track's pan position (−1.0..=1.0).
    SetTrackPan {
        /// Target track.
        track: TrackId,
        /// New pan position.
        pan: Float32,
    },
    /// Mute or unmute a track.
    SetTrackMute {
        /// Target track.
        track: TrackId,
        /// New mute state.
        muted: bool,
    },
    /// Append an insert device to a track's chain.
    AddDevice {
        /// Target track.
        track: TrackId,
        /// The device and its parameters.
        device: Device,
    },
    /// Remove the insert device at an index in a track's chain.
    RemoveDevice {
        /// Target track.
        track: TrackId,
        /// Zero-based position in the chain.
        index: usize,
    },
    /// Set (or add) a tempo change at a position.
    SetTempo {
        /// Timeline position of the tempo change.
        at: Tick,
        /// New tempo.
        tempo: Tempo,
    },
}

/// The abstract value of a command.
pub enum CommandView {
    RenameProject { name: Seq<char> },
    CreateTrack { name: Seq<char>, kind: TrackKind },
    RenameTrack { track: u64, name: Seq<char> },
    RemoveTrack { track: u64 },
    InsertClip { track: u64, name: Seq<char>, pattern: PatternView, at: Tick },
    RemoveClip { clip: u64 },
    MoveClip { clip: u64, at: Tick },
    PlaceClip { clip: u64, at: Tick },
    UnplaceClip { clip: u64, at: Tick },
    AddMarker { at: Tick, name: Seq<char> },
    RemoveMarker { at: Tick, name: Seq<char> },
    SetTrackGain { track: u64, gain_db: Float32 },
    SetTrackPan { track: u64, pan: Float32 },
    SetTrackMute { track: u64, muted: bool },
    AddDevice { track: u64, device: DeviceView },
    RemoveDevice { track: u64, index: usize },
    SetTempo { at: Tick, tempo: Tempo },
}

impl View for Command {
    type V = CommandView;

    open spec fn view(&self) -> CommandView {
        match self {
            Command::RenameProject { name } => CommandView::RenameProject { name: name@ },
            Command::CreateTrack { name, kind } => CommandView::CreateTrack { name: name@, kind: *kind },
            Command::RenameTrack { track, name } => CommandView::RenameTrack {
                track: track.0,
                name: name@,
            },
            Command::RemoveTrack { track } => CommandView::RemoveTrack { track: track.0 },
            Command::InsertClip { track, name, pattern, at } => CommandView::InsertClip {
                track: track.0,
                name: name@,
                pattern: pattern@,
                at: *at,
            },
            Command::RemoveClip { clip } => CommandView::RemoveClip { clip: clip.0 },
            Command::MoveClip { clip, at } => CommandView::MoveClip { clip: clip.0, at: *at },
            Command::PlaceClip { clip, at } => CommandView::PlaceClip { clip: clip.0, at: *at },
            Command::UnplaceClip { clip, at } => CommandView::UnplaceClip { clip: clip.0, at: *at },
            Command::AddMarker { at, name } => CommandView::AddMarker { at: *at, name: name@ },
            Command::RemoveMarker { at, name } => CommandView::RemoveMarker { at: *at, name: name@ },
            Command::SetTrackGain { track, gain_db } => CommandView::SetTrackGain {
                track: track.0,
                gain_db: *gain_db,
            },
            Command::SetTrackPan { track, pan } => CommandView::SetTrackPan { track: track.0, pan: *pan },
            Command::SetTrackMute { track, muted } => CommandView::SetTrackMute {
                track: track.0,
                muted: *muted,
            },
            Command::AddDevice { track, device } => CommandView::AddDevice {
                track: track.0,
                device: device@,
            },
            Command::RemoveDevice { track, index } => CommandView::RemoveDevice {
                track: track.0,
                index: *index,
            },
            Command::SetTempo { at, tempo } => CommandView::SetTempo { at: *at, tempo: *tempo },
        }
    }
}

// ---------------------------------------------------------------- validation

/// Every plugin parameter value is finite.
pub open spec fn params_finite(p: Seq<(Seq<char>, Float32)>) -> bool {
    forall|i: int| 0 <= i < p.len() ==> is_finite(#[trigger] p[i].1.bits)
}

/// Whether a device's parameters lie within their documented ranges.
pub open spec fn device_valid(d: DeviceView) -> bool {
    match d {
        DeviceView::Eq { freq_hz, q, gain_db, .. } => {
            &&& within(freq_hz.bits, TEN_BITS, TWENTY_THOUSAND_BITS)
            &&& within(q.bits, TENTH_BITS, EIGHTEEN_BITS)
            &&& within(gain_db.bits, MINUS_TWENTY_FOUR_BITS, TWENTY_FOUR_BITS)
        },
        DeviceView::Compressor { threshold_db, ratio, attack_ms, release_ms, makeup_db } => {
            &&& within(threshold_db.bits, MINUS_SIXTY_BITS, ZERO_BITS)
            &&& within(ratio.bits, ONE_BITS, TWENTY_BITS)
            &&& within(attack_ms.bits, TENTH_BITS, TWO_HUNDRED_BITS)
            &&& within(release_ms.bits, ONE_BITS, TWO_THOUSAND_BITS)
            &&& within(makeup_db.bits, ZERO_BITS, TWENTY_FOUR_BITS)
        },
        DeviceView::Delay { time_ms, feedback, mix } => {
            &&& within(time_ms.bits, ONE_BITS, TWO_THOUSAND_BITS)
            &&& within(feedback.bits, ZERO_BITS, FEEDBACK_MAX_BITS)
            &&& within(mix.bits, ZERO_BITS, ONE_BITS)
        },
        DeviceView::Reverb { room, damping, mix } => {
            &&& within(room.bits, ZERO_BITS, ONE_BITS)
            &&& within(damping.bits, ZERO_BITS, ONE_BITS)
            &&& within(mix.bits, ZERO_BITS, ONE_BITS)
        },
        DeviceView::Plugin { id, params } => trim(id).len() > 0 && params_finite(params),
    }
}

/// Whether a plugin device names a plugin and all its parameter values are finite.
fn plugin_ok(id: &String, params: &Vec<(String, Float32)>) -> (r: bool)
    ensures
        r == device_valid(DeviceView::Plugin { id: id@, params: params_view(params@) }),
{
    let name = trimmed(id.as_str());
    if name.as_str().unicode_len() == 0 {
        return false;
    }
    let mut all = true;
    let mut i: usize = 0;
    while i < params.len()
        invariant
            i <= params.len(),
            all <==> forall|k: int| 0 <= k < i ==> is_finite(#[trigger] params@[k].1.bits),
        decreases params.len() - i,
    {
        if !params[i].1.is_finite() {
            all = false;
        }
        i += 1;
    }
    proof {
        let pv = params_view(params@);
        let d = DeviceView::Plugin { id: id@, params: pv };
        if all {
            assert forall|k: int| 0 <= k < pv.len() implies is_finite(#[trigger] pv[k].1.bits) by {
                assert(is_finite(params@[k].1.bits));
            }
            assert(params_finite(pv));
        } else {
            let k = choose|k: int| 0 <= k < params@.len() && !is_finite(params@[k].1.bits);
            assert(!is_finite(pv[k].1.bits));
            assert(!params_finite(pv));
        }
    }
    all
}

/// Checks a device's parameters against their ranges.
pub fn validate_device(device: &Device) -> (r: Result<(), DomainError>)
    ensures
        r is Ok <==> device_valid(device@),
        r is Err ==> r == Err::<(), DomainError>(DomainError::DeviceParams),
{
    let ok = match device {
        Device::Eq { freq_hz, q, gain_db, .. } => {
            freq_hz.within(TEN_BITS, TWENTY_THOUSAND_BITS) && q.within(TENTH_BITS, EIGHTEEN_BITS)
                && gain_db.within(MINUS_TWENTY_FOUR_BITS, TWENTY_FOUR_BITS)
        },
        Device::Compressor { threshold_db, ratio, attack_ms, release_ms, makeup_db } => {
            threshold_db.within(MINUS_SIXTY_BITS, ZERO_BITS) && ratio.within(ONE_BITS, TWENTY_BITS)
                && attack_ms.within(TENTH_BITS, TWO_HUNDRED_BITS) && release_ms.within(
                ONE_BITS,
                TWO_THOUSAND_BITS,
            ) && makeup_db.within(ZERO_BITS, TWENTY_FOUR_BITS)
        },
        Device::Delay { time_ms, feedback, mix } => {
            time_ms.within(ONE_BITS, TWO_THOUSAND_BITS) && feedback.within(
                ZERO_BITS,
                FEEDBACK_MAX_BITS,
            ) && mix.within(ZERO_BITS, ONE_BITS)
        },
        Device::Reverb { room, damping, mix } => {
            room.within(ZERO_BITS, ONE_BITS) && damping.within(ZERO_BITS, ONE_BITS) && mix.within(
                ZERO_BITS,
                ONE_BITS,
            )
        },
        Device::Plugin { id, params } => {
            plugin_ok(id, params)
        },
    };
    if ok {
        Ok(())
    } else {
        Err(DomainError::DeviceParams)
    }
}

/// A name with surrounding whitespace removed, rejected when nothing is left.
pub fn non_empty(name: &str) -> (r: Result<String, DomainError>)
    ensures
        r is Err <==> trim(name@).len() == 0,
        r is Err ==> r == Err::<String, DomainError>(DomainError::EmptyName),
        r matches Ok(s) ==> s@ == trim(name@),
{
    let t = trimmed(name);
    if t.as_str().unicode_len() == 0 {
        return Err(DomainError::EmptyName);
    }
    Ok(t)
}

// ---------------------------------------------------------------- planning

/// Index of the first track holding a placement of clip `c` (the length when none).
pub open spec fn placing_track(ts: Seq<TrackView>, c: u64) -> int
    decreases ts.len(),
{
    if ts.len() == 0 {
        0
    } else if first_with_clip(ts[0].placements, c) < ts[0].placements.len() {
        0
    } else {
        1 + placing_track(ts.drop_first(), c)
    }
}

/// The characterisation of `placing_track`.
pub proof fn lemma_placing_track(ts: Seq<TrackView>, c: u64)
    ensures
        0 <= placing_track(ts, c) <= ts.len(),
        forall|k: int|
            0 <= k < placing_track(ts, c) ==> first_with_clip(#[trigger] ts[k].placements, c)
                == ts[k].placements.len(),
        placing_track(ts, c) < ts.len() ==> first_with_clip(ts[placing_track(ts, c)].placements, c)
            < ts[placing_track(ts, c)].placements.len(),
    decreases ts.len(),
{
    if ts.len() > 0 {
        lemma_first_with_clip(ts[0].placements, c);
        if first_with_clip(ts[0].placements, c) >= ts[0].placements.len() {
            lemma_placing_track(ts.drop_first(), c);
            assert forall|k: int| 0 <= k < placing_track(ts, c) implies first_with_clip(
                #[trigger] ts[k].placements,
                c,
            ) == ts[k].placements.len() by {
                if k > 0 {
                    assert(ts[k] == ts.drop_first()[k - 1]);
                }
            }
        }
    }
}

proof fn lemma_placing_track_at(ts: Seq<TrackView>, c: u64, i: int)
    requires
        0 <= i <= ts.len(),
        forall|k: int|
            0 <= k < i ==> first_with_clip(#[trigger] ts[k].placements, c) == ts[k].placements.len(),
        i < ts.len() ==> first_with_clip(ts[i].placements, c) < ts[i].placements.len(),
    ensures
        placing_track(ts, c) == i,
    decreases ts.len(),
{
    if ts.len() > 0 && i > 0 {
        assert(first_with_clip(ts[0].placements, c) == ts[0].placements.len());
        assert forall|k: int| 0 <= k < i - 1 implies first_with_clip(
            #[trigger] ts.drop_first()[k].placements,
            c,
        ) == ts.drop_first()[k].placements.len() by {
            assert(ts.drop_first()[k] == ts[k + 1]);
        }
        lemma_placing_track_at(ts.drop_first(), c, i - 1);
    }
}

/// Number of placements of clip `c`.
pub open spec fn count_clip(ps: Seq<Placement>, c: u64) -> nat
    decreases ps.len(),
{
    if ps.len() == 0 {
        0
    } else {
        count_clip(ps.drop_last(), c) + (if ps.last().clip.0 == c {
            1nat
        } else {
            0nat
        })
    }
}

/// Whether clip `c` is placed at `at`.
pub open spec fn has_placement(ps: Seq<Placement>, c: u64, at: i64) -> bool {
    exists|i: int| 0 <= i < ps.len() && ps[i].clip.0 == c && ps[i].at.0 == at
}

/// The contents of the clips placed by `ps`, in placement order.
pub open spec fn removed_clips(ps: Seq<Placement>, clips: Map<u64, ClipView>) -> Seq<(u64, ClipView)> {
    ps.map_values(|p: Placement| (p.clip.0, clips[p.clip.0]))
}

/// A fresh track as `CreateTrack` makes it.
pub open spec fn new_track_view(id: u64, name: Seq<char>, kind: TrackKind) -> TrackView {
    TrackView {
        id,
        name,
        kind,
        mix: ChannelStrip { gain_db: Float32 { bits: 0 }, pan: Float32 { bits: 0 }, muted: false },
        inserts: Seq::empty(),
        placements: Seq::empty(),
    }
}

/// The event a command becomes against a project, or why it is rejected.
#[verifier::opaque]
pub open spec fn plan_spec(s: ProjectView, c: CommandView) -> Result<EventView, DomainErrorView> {
    match c {
        CommandView::RenameProject { name } => if trim(name).len() == 0 {
            Err(DomainErrorView::EmptyName)
        } else {
            Ok(EventView::ProjectRenamed { from: s.name, to: trim(name) })
        },
        CommandView::CreateTrack { name, kind } => if trim(name).len() == 0 {
            Err(DomainErrorView::EmptyName)
        } else {
            Ok(
                EventView::TrackCreated {
                    track: new_track_view(s.next_track, trim(name), kind),
                    index: s.tracks.len() as usize,
                },
            )
        },
        CommandView::RenameTrack { track, name } => {
            let i = track_index(s.tracks, track);
            if trim(name).len() == 0 {
                Err(DomainErrorView::EmptyName)
            } else if i >= s.tracks.len() {
                Err(DomainErrorView::UnknownTrack(track))
            } else {
                Ok(EventView::TrackRenamed { track, from: s.tracks[i].name, to: trim(name) })
            }
        },
        CommandView::RemoveTrack { track } => {
            let i = track_index(s.tracks, track);
            if i >= s.tracks.len() {
                Err(DomainErrorView::UnknownTrack(track))
            } else {
                Ok(
                    EventView::TrackRemoved {
                        track: s.tracks[i],
                        index: i as usize,
                        clips: removed_clips(s.tracks[i].placements, s.clips),
                    },
                )
            }
        },
        CommandView::InsertClip { track, name, pattern, at } => {
            let i = track_index(s.tracks, track);
            if trim(name).len() == 0 {
                Err(DomainErrorView::EmptyName)
            } else if at.0 < 0 {
                Err(DomainErrorView::NegativeTick(at.0))
            } else if i >= s.tracks.len() {
                Err(DomainErrorView::UnknownTrack(track))
            } else if s.tracks[i].kind == TrackKind::Bus {
                Err(DomainErrorView::BusHoldsNoClips(track))
            } else {
                Ok(
                    EventView::ClipInserted {
                        track,
                        clip_id: s.next_clip,
                        clip: ClipView { name: trim(name), pattern },
                        at,
                        index: None,
                    },
                )
            }
        },
        CommandView::RemoveClip { clip } => {
            let k = placing_track(s.tracks, clip);
            if k >= s.tracks.len() {
                Err(DomainErrorView::UnknownClip(clip))
            } else {
                let t = s.tracks[k];
                Ok(
                    EventView::ClipRemoved {
                        track: t.id,
                        clip_id: clip,
                        clip: s.clips[clip],
                        at: t.placements[first_with_clip(t.placements, clip)].at,
                        placements: clip_positions(t.placements, clip),
                    },
                )
            }
        },
        CommandView::MoveClip { clip, at } => {
            let k = placing_track(s.tracks, clip);
            if at.0 < 0 {
                Err(DomainErrorView::NegativeTick(at.0))
            } else if k >= s.tracks.len() {
                Err(DomainErrorView::UnknownClip(clip))
            } else {
                let t = s.tracks[k];
                Ok(
                    EventView::ClipMoved {
                        track: t.id,
                        clip,
                        from: t.placements[first_with_clip(t.placements, clip)].at,
                        to: at,
                    },
                )
            }
        },
        CommandView::PlaceClip { clip, at } => {
            let k = placing_track(s.tracks, clip);
            if at.0 < 0 {
                Err(DomainErrorView::NegativeTick(at.0))
            } else if k >= s.tracks.len() {
                Err(DomainErrorView::UnknownClip(clip))
            } else {
                Ok(
                    EventView::ClipPlaced { track: s.tracks[k].id, clip, at, index: None },
                )
            }
        },
        CommandView::UnplaceClip { clip, at } => {
            let k = placing_track(s.tracks, clip);
            if k >= s.tracks.len() {
                Err(DomainErrorView::UnknownClip(clip))
            } else {
                let ps = s.tracks[track_index(s.tracks, s.tracks[k].id)].placements;
                if count_clip(ps, clip) <= 1 {
                    Err(DomainErrorView::LastPlacement(clip))
                } else if !has_placement(ps, clip, at.0) {
                    Err(DomainErrorView::NoSuchPlacement(clip, at.0))
                } else {
                    Ok(
                        EventView::ClipUnplaced {
                            track: s.tracks[k].id,
                            clip,
                            at,
                            index: Some(last_match(ps, clip, at.0) as usize),
                        },
                    )
                }
            }
        },
        CommandView::AddMarker { at, name } => if trim(name).len() == 0 {
            Err(DomainErrorView::EmptyName)
        } else if at.0 < 0 {
            Err(DomainErrorView::NegativeTick(at.0))
        } else {
            Ok(EventView::MarkerAdded { at, name: trim(name) })
        },
        CommandView::RemoveMarker { at, name } => if marker_index(s.markers, at.0, name)
            < s.markers.len() {
            Ok(EventView::MarkerRemoved { at, name })
        } else {
            Err(DomainErrorView::NoSuchMarker(at.0, name))
        },
        CommandView::SetTrackGain { track, gain_db } => {
            let i = track_index(s.tracks, track);
            if !within(gain_db.bits, GAIN_MIN_BITS, GAIN_MAX_BITS) {
                Err(DomainErrorView::OutOfRange("gain_db"@, GAIN_MIN_BITS, GAIN_MAX_BITS))
            } else if i >= s.tracks.len() {
                Err(DomainErrorView::UnknownTrack(track))
            } else {
                Ok(EventView::TrackGainSet { track, from: s.tracks[i].mix.gain_db, to: gain_db })
            }
        },
        CommandView::SetTrackPan { track, pan } => {
            let i = track_index(s.tracks, track);
            if !within(pan.bits, PAN_MIN_BITS, PAN_MAX_BITS) {
                Err(DomainErrorView::OutOfRange("pan"@, PAN_MIN_BITS, PAN_MAX_BITS))
            } else if i >= s.tracks.len() {
                Err(DomainErrorView::UnknownTrack(track))
            } else {
                Ok(EventView::TrackPanSet { track, from: s.tracks[i].mix.pan, to: pan })
            }
        },
        CommandView::SetTrackMute { track, muted } => {
            let i = track_index(s.tracks, track);
            if i >= s.tracks.len() {
                Err(DomainErrorView::UnknownTrack(track))
            } else {
                Ok(EventView::TrackMuteSet { track, from: s.tracks[i].mix.muted, to: muted })
            }
        },
        CommandView::AddDevice { track, device } => {
            let i = track_index(s.tracks, track);
            if !device_valid(device) {
                Err(DomainErrorView::DeviceParams)
            } else if i >= s.tracks.len() {
                Err(DomainErrorView::UnknownTrack(track))
            } else {
                Ok(
                    EventView::DeviceAdded {
                        track,
                        index: s.tracks[i].inserts.len() as usize,
                        device,
                    },
                )
            }
        },
        CommandView::RemoveDevice { track, index } => {
            let i = track_index(s.tracks, track);
            if i >= s.tracks.len() {
                Err(DomainErrorView::UnknownTrack(track))
            } else if index >= s.tracks[i].inserts.len() {
                Err(DomainErrorView::NoSuchDevice(track, index))
            } else {
                Ok(
                    EventView::DeviceRemoved {
                        track,
                        index,
                        device: s.tracks[i].inserts[index as int],
                    },
                )
            }
        },
        CommandView::SetTempo { at, tempo } => if at.0 < 0 {
            Err(DomainErrorView::NegativeTick(at.0))
        } else {
            Ok(EventView::TempoSet { at, from: entry_at(s.tempo, at.0 as int), to: tempo })
        },
    }
}

/// The project after planning `c`: the id counters advance for the commands
/// that hand out an id, and only when the command is accepted.
pub open spec fn bumped(s: ProjectView, c: CommandView) -> ProjectView {
    match plan_spec(s, c) {
        Ok(_) => match c {
            CommandView::CreateTrack { .. } => ProjectView {
                next_track: (s.next_track + 1) as u64,
                ..s
            },
            CommandView::InsertClip { .. } => ProjectView { next_clip: (s.next_clip + 1) as u64, ..s },
            _ => s,
        },
        Err(_) => s,
    }
}

/// Inputs on which planning stays within machine limits and finds the clip
/// contents it copies into the event.
pub open spec fn command_fits(s: ProjectView, c: CommandView) -> bool {
    match c {
        CommandView::CreateTrack { .. } => s.next_track < u64::MAX,
        CommandView::InsertClip { .. } => s.next_clip < u64::MAX,
        CommandView::RemoveTrack { track } => track_index(s.tracks, track) < s.tracks.len()
            ==> placed_ids(s.tracks[track_index(s.tracks, track)].placements).subset_of(
            s.clips.dom(),
        ),
        CommandView::RemoveClip { clip } => placing_track(s.tracks, clip) < s.tracks.len()
            ==> s.clips.dom().contains(clip),
        _ => true,
    }
}

/// What planning `c` against `before` must give: the state `after` and the
/// result `r`.
pub open spec fn plan_outcome(
    before: ProjectView,
    after: ProjectView,
    c: CommandView,
    r: Result<Event, DomainError>,
) -> bool {
    match plan_spec(before, c) {
        Ok(ev) => r matches Ok(e) && e@ == ev && after == bumped(before, c),
        Err(x) => r matches Err(e) && e@ == x && after == before,
    }
}

/// Number of placements of clip `c`.
fn count_placements(ps: &Vec<Placement>, c: ClipId) -> (n: usize)
    ensures
        n == count_clip(ps@, c.0),
{
    let mut n: usize = 0;
    let mut i: usize = 0;
    while i < ps.len()
        invariant
            i <= ps.len(),
            n == count_clip(ps@.subrange(0, i as int), c.0),
            n <= i,
        decreases ps.len() - i,
    {
        proof {
            assert(ps@.subrange(0, i + 1).drop_last() =~= ps@.subrange(0, i as int));
        }
        if ps[i].clip.0 == c.0 {
            n += 1;
        }
        i += 1;
    }
    assert(ps@.subrange(0, ps.len() as int) =~= ps@);
    n
}

/// Whether clip `c` is placed at `at`.
fn placed_at(ps: &Vec<Placement>, c: ClipId, at: Tick) -> (r: bool)
    ensures
        r == has_placement(ps@, c.0, at.0),
{
    let mut i: usize = 0;
    while i < ps.len()
        invariant
            i <= ps.len(),
            forall|k: int| 0 <= k < i ==> !(ps@[k].clip.0 == c.0 && ps@[k].at.0 == at.0),
        decreases ps.len() - i,
    {
        if ps[i].clip.0 == c.0 && ps[i].at.0 == at.0 {
            return true;
        }
        i += 1;
    }
    false
}

/// The tempo entry at exactly `at`, found by scanning in order.
fn tempo_entry(entries: &Vec<(Tick, Tempo)>, at: Tick) -> (r: Option<Tempo>)
    requires
        strictly_sorted(entries@),
    ensures
        r == entry_at(entries@, at.0 as int),
{
    let mut i: usize = 0;
    while i < entries.len() && entries[i].0.0 != at.0
        invariant
            i <= entries.len(),
            forall|k: int| 0 <= k < i ==> entries@[k].0.0 != at.0,
        decreases entries.len() - i,
    {
        i += 1;
    }
    proof {
        lemma_count_lt_prefix(entries@, at.0 as int);
        let c = count_lt(entries@, at.0 as int) as int;
        if i < entries.len() {
            if c < i {
                assert(entries@[c].0.0 < entries@[i as int].0.0);
            }
            if c > i {
                assert(entries@[i as int].0.0 < at.0);
            }
        } else if c < entries@.len() {
            assert(entries@[c].0.0 != at.0);
        }
    }
    if i < entries.len() {
        Some(entries[i].1)
    } else {
        None
    }
}

/// What a planning helper must return for `c` against `s`.
pub open spec fn planned(s: ProjectView, c: CommandView, r: Result<Event, DomainError>) -> bool {
    match plan_spec(s, c) {
        Ok(ev) => r matches Ok(e) && e@ == ev,
        Err(x) => r matches Err(e) && e@ == x,
    }
}

/// What dispatching `c` against `before` must give: the state `after` and
/// the result `r`.
pub open spec fn dispatch_outcome(
    before: ProjectView,
    after: ProjectView,
    c: CommandView,
    r: Result<Vec<Event>, DomainError>,
) -> bool {
    match plan_spec(before, c) {
        Err(x) => r matches Err(e) && e@ == x && after == before,
        Ok(ev) => {
            let (s2, err) = apply_spec(bumped(before, c), ev);
            &&& after == s2
            &&& match err {
                None => r matches Ok(v) && crate::project_event::events_view(v@) == seq![ev],
                Some(x) => r matches Err(e) && e@ == x,
            }
        },
    }
}

impl ProjectState {
    /// A new, empty project.
    pub fn new(id: ProjectId, name: &str) -> (s: ProjectState)
        ensures
            s.wf(),
            s@.id == id.0,
            s@.name == name@,
            s@.format_version == FORMAT_VERSION@,
            s@.tempo == seq![(Tick(0), Tempo { micros_per_quarter: 500_000 })],
            s@.signatures == seq![(Tick(0), crate::core_types::TimeSignature { numerator: 4, denominator: 4 })],
            s@.tracks == Seq::<TrackView>::empty(),
            s@.clips == Map::<u64, ClipView>::empty(),
            s@.markers == Seq::<crate::project_types::MarkerView>::empty(),
            s@.next_track == 0,
            s@.next_clip == 0,
            crate::project_laws::proj_inv(s@),
    {
        let s = ProjectState {
            meta: ProjectMeta {
                id,
                name: String::from_str(name),
                format_version: String::from_str(FORMAT_VERSION),
            },
            tempo_map: default_tempo_map(),
            signature_map: default_signature_map(),
            tracks: Vec::new(),
            clips: BTreeMap::new(),
            markers: Vec::new(),
            next_track: 0,
            next_clip: 0,
        };
        assert(tracks_view(s.tracks@) =~= Seq::<TrackView>::empty());
        assert(clips_map(s.clips@) =~= Map::<u64, ClipView>::empty());
        assert(markers_view(s.markers@) =~= Seq::<crate::project_types::MarkerView>::empty());
        s
    }

    /// The position of the track holding the first placement of `clip` (the
    /// number of tracks when no track places it).
    fn placing_index(&self, clip: ClipId) -> (r: usize)
        ensures
            r == placing_track(tracks_view(self.tracks@), clip.0),
    {
        let ghost ts = tracks_view(self.tracks@);
        let mut i: usize = 0;
        while i < self.tracks.len()
            invariant
                i <= self.tracks.len(),
                ts == tracks_view(self.tracks@),
                forall|k: int|
                    0 <= k < i ==> first_with_clip(#[trigger] ts[k].placements, clip.0)
                        == ts[k].placements.len(),
            decreases self.tracks.len() - i,
        {
            let j = find_first_clip(&self.tracks[i].placements, clip);
            proof {
                assert(ts[i as int].placements == self.tracks@[i as int].placements@);
            }
            if j < self.tracks[i].placements.len() {
                proof {
                    lemma_placing_track_at(ts, clip.0, i as int);
                }
                return i;
            }
            i += 1;
        }
        proof {
            lemma_placing_track_at(ts, clip.0, i as int);
        }
        i
    }

    /// The track holding the first placement of `clip`, and that placement.
    fn placement_of(&self, clip: ClipId) -> (r: Result<(TrackId, Placement), DomainError>)
        ensures
            ({
                let ts = tracks_view(self.tracks@);
                let k = placing_track(ts, clip.0);
                &&& k >= ts.len() ==> r == Err::<(TrackId, Placement), DomainError>(
                    DomainError::UnknownClip(clip),
                )
                &&& k < ts.len() ==> (r matches Ok((t, p)) && t.0 == ts[k].id && p
                    == ts[k].placements[first_with_clip(ts[k].placements, clip.0)])
            }),
    {
        let ghost ts = tracks_view(self.tracks@);
        let mut i: usize = 0;
        while i < self.tracks.len()
            invariant
                i <= self.tracks.len(),
                ts == tracks_view(self.tracks@),
                forall|k: int|
                    0 <= k < i ==> first_with_clip(#[trigger] ts[k].placements, clip.0)
                        == ts[k].placements.len(),
            decreases self.tracks.len() - i,
        {
            let j = find_first_clip(&self.tracks[i].placements, clip);
            proof {
                assert(ts[i as int].placements == self.tracks@[i as int].placements@);
            }
            if j < self.tracks[i].placements.len() {
                proof {
                    lemma_placing_track_at(ts, clip.0, i as int);
                }
                return Ok((self.tracks[i].id, self.tracks[i].placements[j]));
            }
            i += 1;
        }
        proof {
            lemma_placing_track_at(ts, clip.0, i as int);
        }
        Err(DomainError::UnknownClip(clip))
    }

    /// Plans the commands that rename things or edit markers.
    fn plan_naming(&self, command: Command) -> (r: Result<Event, DomainError>)
        requires
            command is RenameProject || command is CreateTrack || command is RenameTrack
                || command is AddMarker || command is RemoveMarker,
        ensures
            planned(self@, command@, r),
    {
        reveal(plan_spec);
        match command {
            Command::RenameProject { name } => {
                let n = match non_empty(name.as_str()) {
                    Ok(n) => n,
                    Err(e) => return Err(e),
                };
                Ok(Event::ProjectRenamed { from: crate::text::copy_string(&self.meta.name), to: n })
            },
            Command::CreateTrack { name, kind } => {
                let n = match non_empty(name.as_str()) {
                    Ok(n) => n,
                    Err(e) => return Err(e),
                };
                let track = Track {
                    id: TrackId(self.next_track),
                    name: n,
                    kind,
                    mix: ChannelStrip::unity(),
                    inserts: Vec::new(),
                    placements: Vec::new(),
                };
                assert(devices_view(track.inserts@) =~= Seq::<DeviceView>::empty());
                Ok(Event::TrackCreated { track, index: self.tracks.len() })
            },
            Command::RenameTrack { track, name } => {
                let n = match non_empty(name.as_str()) {
                    Ok(n) => n,
                    Err(e) => return Err(e),
                };
                let i = find_track(&self.tracks, track);
                proof {
                    lemma_track_index(tracks_view(self.tracks@), track.0);
                }
                if i == self.tracks.len() {
                    return Err(DomainError::UnknownTrack(track));
                }
                Ok(
                    Event::TrackRenamed {
                        track,
                        from: crate::text::copy_string(&self.tracks[i].name),
                        to: n,
                    },
                )
            },
            Command::AddMarker { at, name } => {
                let n = match non_empty(name.as_str()) {
                    Ok(n) => n,
                    Err(e) => return Err(e),
                };
                if at.0 < 0 {
                    return Err(DomainError::NegativeTick(at));
                }
                Ok(Event::MarkerAdded { at, name: n })
            },
            Command::RemoveMarker { at, name } => {
                let j = find_marker(&self.markers, at, name.as_str());
                proof {
                    lemma_marker_index(markers_view(self.markers@), at.0, name@);
                }
                if j < self.markers.len() {
                    Ok(Event::MarkerRemoved { at, name })
                } else {
                    Err(DomainError::NoSuchMarker(at, name))
                }
            },
            _ => Err(DomainError::EmptyName),
        }
    }

    /// Plans the commands that edit a track as a whole.
    fn plan_track_edit(&self, command: Command) -> (r: Result<Event, DomainError>)
        requires
            self.wf(),
            command_fits(self@, command@),
            command is RemoveTrack || command is SetTrackGain || command is SetTrackPan
                || command is SetTrackMute || command is AddDevice || command is RemoveDevice,
        ensures
            planned(self@, command@, r),
    {
        reveal(plan_spec);
        match command {
            Command::RemoveTrack { track } => {
                let i = find_track(&self.tracks, track);
                proof {
                    lemma_track_index(tracks_view(self.tracks@), track.0);
                }
                if i == self.tracks.len() {
                    return Err(DomainError::UnknownTrack(track));
                }
                let t = self.tracks[i].copy();
                let ghost ps = self.tracks@[i as int].placements@;
                let ghost m = clips_map(self.clips@);
                let mut clips: Vec<(ClipId, Clip)> = Vec::new();
                let mut k: usize = 0;
                while k < t.placements.len()
                    invariant
                        k <= t.placements.len(),
                        t.placements@ == ps,
                        m == clips_map(self.clips@),
                        placed_ids(ps).subset_of(m.dom()),
                        clip_list_view(clips@) == removed_clips(ps.subrange(0, k as int), m),
                    decreases t.placements.len() - k,
                {
                    let id = t.placements[k].clip;
                    proof {
                        assert(placed_ids(ps).contains(id.0));
                    }
                    let c = clips_get(&self.clips, id).unwrap().copy();
                    proof {
                        assert(removed_clips(ps.subrange(0, k + 1), m) =~= removed_clips(
                            ps.subrange(0, k as int),
                            m,
                        ).push((id.0, c@)));
                        assert(clip_list_view(clips@.push((id, c))) =~= clip_list_view(clips@).push(
                            (id.0, c@),
                        ));
                    }
                    clips.push((id, c));
                    k += 1;
                }
                assert(ps.subrange(0, ps.len() as int) =~= ps);
                Ok(Event::TrackRemoved { track: t, index: i, clips })
            },
            Command::SetTrackGain { track, gain_db } => {
                if !gain_db.within(GAIN_MIN_BITS, GAIN_MAX_BITS) {
                    return Err(
                        DomainError::OutOfRange(
                            "gain_db",
                            Float32 { bits: GAIN_MIN_BITS },
                            Float32 { bits: GAIN_MAX_BITS },
                        ),
                    );
                }
                let i = find_track(&self.tracks, track);
                proof {
                    lemma_track_index(tracks_view(self.tracks@), track.0);
                }
                if i == self.tracks.len() {
                    return Err(DomainError::UnknownTrack(track));
                }
                Ok(Event::TrackGainSet { track, from: self.tracks[i].mix.gain_db, to: gain_db })
            },
            Command::SetTrackPan { track, pan } => {
                if !pan.within(PAN_MIN_BITS, PAN_MAX_BITS) {
                    return Err(
                        DomainError::OutOfRange(
                            "pan",
                            Float32 { bits: PAN_MIN_BITS },
                            Float32 { bits: PAN_MAX_BITS },
                        ),
                    );
                }
                let i = find_track(&self.tracks, track);
                proof {
                    lemma_track_index(tracks_view(self.tracks@), track.0);
                }
                if i == self.tracks.len() {
                    return Err(DomainError::UnknownTrack(track));
                }
                Ok(Event::TrackPanSet { track, from: self.tracks[i].mix.pan, to: pan })
            },
            Command::SetTrackMute { track, muted } => {
                let i = find_track(&self.tracks, track);
                proof {
                    lemma_track_index(tracks_view(self.tracks@), track.0);
                }
                if i == self.tracks.len() {
                    return Err(DomainError::UnknownTrack(track));
                }
                Ok(Event::TrackMuteSet { track, from: self.tracks[i].mix.muted, to: muted })
            },
            Command::AddDevice { track, device } => {
                match validate_device(&device) {
                    Ok(()) => {},
                    Err(e) => return Err(e),
                }
                let i = find_track(&self.tracks, track);
                proof {
                    lemma_track_index(tracks_view(self.tracks@), track.0);
                }
                if i == self.tracks.len() {
                    return Err(DomainError::UnknownTrack(track));
                }
                Ok(Event::DeviceAdded { track, index: self.tracks[i].inserts.len(), device })
            },
            Command::RemoveDevice { track, index } => {
                let i = find_track(&self.tracks, track);
                proof {
                    lemma_track_index(tracks_view(self.tracks@), track.0);
                }
                if i == self.tracks.len() {
                    return Err(DomainError::UnknownTrack(track));
                }
                if index >= self.tracks[i].inserts.len() {
                    return Err(DomainError::NoSuchDevice(track, index));
                }
                let device = self.tracks[i].inserts[index].copy();
                Ok(Event::DeviceRemoved { track, index, device })
            },
            _ => Err(DomainError::EmptyName),
        }
    }

    /// Plans the commands that insert, remove, or place clips.
    fn plan_clip(&self, command: Command) -> (r: Result<Event, DomainError>)
        requires
            self.wf(),
            command_fits(self@, command@),
            command is InsertClip || command is RemoveClip || command is MoveClip
                || command is PlaceClip || command is UnplaceClip,
        ensures
            planned(self@, command@, r),
    {
        reveal(plan_spec);
        match command {
            Command::InsertClip { track, name, pattern, at } => {
                let n = match non_empty(name.as_str()) {
                    Ok(n) => n,
                    Err(e) => return Err(e),
                };
                if at.0 < 0 {
                    return Err(DomainError::NegativeTick(at));
                }
                let i = find_track(&self.tracks, track);
                proof {
                    lemma_track_index(tracks_view(self.tracks@), track.0);
                }
                if i == self.tracks.len() {
                    return Err(DomainError::UnknownTrack(track));
                }
                if self.tracks[i].kind == TrackKind::Bus {
                    return Err(DomainError::BusHoldsNoClips(track));
                }
                Ok(
                    Event::ClipInserted {
                        track,
                        clip_id: ClipId(self.next_clip),
                        clip: Clip { name: n, pattern },
                        at,
                        index: None,
                    },
                )
            },
            Command::RemoveClip { clip } => {
                let (track, placement) = match self.placement_of(clip) {
                    Ok(x) => x,
                    Err(e) => return Err(e),
                };
                let content = clips_get(&self.clips, clip).unwrap().copy();
                let k = self.placing_index(clip);
                proof {
                    assert(tracks_view(self.tracks@)[k as int].placements == self.tracks@[k as int].placements@);
                }
                let placements = positions_of_clip(&self.tracks[k].placements, clip);
                Ok(Event::ClipRemoved { track, clip_id: clip, clip: content, at: placement.at, placements })
            },
            Command::MoveClip { clip, at } => {
                if at.0 < 0 {
                    return Err(DomainError::NegativeTick(at));
                }
                let (track, placement) = match self.placement_of(clip) {
                    Ok(x) => x,
                    Err(e) => return Err(e),
                };
                Ok(Event::ClipMoved { track, clip, from: placement.at, to: at })
            },
            Command::PlaceClip { clip, at } => {
                if at.0 < 0 {
                    return Err(DomainError::NegativeTick(at));
                }
                let (track, _) = match self.placement_of(clip) {
                    Ok(x) => x,
                    Err(e) => return Err(e),
                };
                Ok(Event::ClipPlaced { track, clip, at, index: None })
            },
            Command::UnplaceClip { clip, at } => {
                let (track, _) = match self.placement_of(clip) {
                    Ok(x) => x,
                    Err(e) => return Err(e),
                };
                let ghost ts = tracks_view(self.tracks@);
                let ghost k = placing_track(ts, clip.0);
                proof {
                    lemma_placing_track(ts, clip.0);
                    lemma_track_index(ts, track.0);
                }
                let j = find_track(&self.tracks, track);
                if j == self.tracks.len() {
                    return Err(DomainError::UnknownTrack(track));
                }
                let n = count_placements(&self.tracks[j].placements, clip);
                if n <= 1 {
                    return Err(DomainError::LastPlacement(clip));
                }
                if !placed_at(&self.tracks[j].placements, clip, at) {
                    return Err(DomainError::NoSuchPlacement(clip, at));
                }
                let ghost ps = self.tracks@[j as int].placements@;
                proof {
                    lemma_last_match(ps, clip.0, at.0);
                    let w = choose|w: int| 0 <= w < ps.len() && ps[w].clip.0 == clip.0 && ps[w].at.0 == at.0;
                    assert(last_match(ps, clip.0, at.0) >= w);
                }
                let index = match find_last_match(&self.tracks[j].placements, clip, at) {
                    Some(x) => x,
                    None => return Err(DomainError::NoSuchPlacement(clip, at)),
                };
                Ok(Event::ClipUnplaced { track, clip, at, index: Some(index) })
            },
            _ => Err(DomainError::EmptyName),
        }
    }

    /// Plans a tempo change.
    fn plan_tempo(&self, command: Command) -> (r: Result<Event, DomainError>)
        requires
            self.wf(),
            command is SetTempo,
        ensures
            planned(self@, command@, r),
    {
        reveal(plan_spec);
        match command {
            Command::SetTempo { at, tempo } => {
                if at.0 < 0 {
                    return Err(DomainError::NegativeTick(at));
                }
                let from = tempo_entry(self.tempo_map.entries(), at);
                Ok(Event::TempoSet { at, from, to: tempo })
            },
            _ => Err(DomainError::EmptyName),
        }
    }

    /// Validates a command against the current state and produces its events
    /// without applying them; advances the id counters for the commands that
    /// hand out an id.
    fn plan(&mut self, command: Command) -> (r: Result<Vec<Event>, DomainError>)
        requires
            old(self).wf(),
            command_fits(old(self)@, command@),
        ensures
            final(self).wf(),
            match plan_spec(old(self)@, command@) {
                Ok(ev) => r matches Ok(v) && crate::project_event::events_view(v@) == seq![ev]
                    && final(self)@ == bumped(old(self)@, command@),
                Err(x) => r matches Err(e) && e@ == x && final(self)@ == old(self)@,
            },
    {
        let ghost cv = command@;
        let hands_track = match &command {
            Command::CreateTrack { .. } => true,
            _ => false,
        };
        let hands_clip = match &command {
            Command::InsertClip { .. } => true,
            _ => false,
        };
        let planned = match command {
            Command::RenameProject { .. } | Command::CreateTrack { .. } | Command::RenameTrack {
                ..
            } | Command::AddMarker { .. } | Command::RemoveMarker { .. } => self.plan_naming(command),
            Command::RemoveTrack { .. } | Command::SetTrackGain { .. } | Command::SetTrackPan {
                ..
            } | Command::SetTrackMute { .. } | Command::AddDevice { .. } | Command::RemoveDevice {
                ..
            } => self.plan_track_edit(command),
            Command::InsertClip { .. } | Command::RemoveClip { .. } | Command::MoveClip { .. }
            | Command::PlaceClip { .. } | Command::UnplaceClip { .. } => self.plan_clip(command),
            Command::SetTempo { .. } => self.plan_tempo(command),
        };
        match planned {
            Ok(ev) => {
                if hands_track {
                    self.next_track = self.next_track + 1;
                }
                if hands_clip {
                    self.next_clip = self.next_clip + 1;
                }
                let mut v: Vec<Event> = Vec::new();
                v.push(ev);
                proof {
                    assert(crate::project_event::events_view(v@) =~= seq![v@[0]@]);
                }
                Ok(v)
            },
            Err(e) => Err(e),
        }
    }

    /// Validates a command and applies its events, returning them.
    ///
    /// This is the only mutation entry point; every returned event has
    /// already been folded into the state. When validation fails the state is
    /// left untouched.
    pub fn dispatch(&mut self, command: Command) -> (r: Result<Vec<Event>, DomainError>)
        requires
            old(self).wf(),
            command_fits(old(self)@, command@),
        ensures
            final(self).wf(),
            dispatch_outcome(old(self)@, final(self)@, command@, r),
    {
        let ghost cv = command@;
        let events = match self.plan(command) {
            Ok(v) => v,
            Err(e) => return Err(e),
        };
        proof {
            reveal(plan_spec);
            assert(plan_spec(old(self)@, cv) is Ok);
            assert(crate::project_event::events_view(events@).len() == 1);
            assert(events@[0]@ == crate::project_event::events_view(events@)[0]);
        }
        match self.apply_event(&events[0]) {
            Ok(()) => Ok(events),
            Err(e) => Err(e),
        }
    }
}

} // verus!
