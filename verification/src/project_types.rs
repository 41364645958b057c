//! The project aggregate's data: tracks, clips, markers, devices, and their
//! abstract views.

use std::collections::BTreeMap;
use vstd::prelude::*;
use crate::core_types::{ClipId, ProjectId, Tempo, Tick, TrackId};
use crate::float::Float32;
use crate::pattern::{Pattern, PatternView};
use crate::text::{copy_string, seq_lt};
use crate::timeline::{SignatureMap, TempoMap, TimelineError};

verus! {

/// Current on-disk format version written by this library.
pub const FORMAT_VERSION: &'static str = "0.1.0";

/// Project identity and format metadata.
#[derive(Debug, Clone, PartialEq, Eq)]
pub struct ProjectMeta {
    /// Stable project identifier.
    pub id: ProjectId,
    /// Human-readable project name.
    pub name: String,
    /// Format version this state was written with.
    pub format_version: String,
}

/// What a track holds.
#[derive(Debug, Clone, Copy, PartialEq, Eq, Structural)]
pub enum TrackKind {
    /// Symbolic (MIDI) content.
    Midi,
    /// Audio content.
    Audio,
    /// A mix bus (no clips).
    Bus,
}

/// A clip placed on a track at a timeline position.
#[derive(Debug, Clone, Copy, PartialEq, Eq, Structural)]
pub struct Placement {
    /// The placed clip.
    pub clip: ClipId,
    /// Timeline position of the clip start.
    pub at: Tick,
}

/// Per-track mix settings.
#[derive(Debug, Clone, Copy, PartialEq, Eq, Structural)]
pub struct ChannelStrip {
    /// Gain in decibels (0.0 = unity). Valid range −96.0..=12.0.
    pub gain_db: Float32,
    /// Pan position −1.0 (left) ..= 1.0 (right).
    pub pan: Float32,
    /// Muted tracks produce silence.
    pub muted: bool,
}

impl ChannelStrip {
    /// Unity gain, centred, unmuted.
    pub fn unity() -> (c: ChannelStrip)
        ensures
            c.gain_db.bits == 0,
            c.pan.bits == 0,
            !c.muted,
    {
        ChannelStrip { gain_db: Float32 { bits: 0 }, pan: Float32 { bits: 0 }, muted: false }
    }
}

/// EQ filter modes.
#[derive(Debug, Clone, Copy, PartialEq, Eq, Structural)]
pub enum EqMode {
    /// 12 dB/oct low-pass.
    LowPass,
    /// 12 dB/oct high-pass.
    HighPass,
    /// Peaking band.
    Peak,
}

/// An insert effect on a track's channel strip.
#[derive(Debug, Clone, PartialEq, Eq)]
pub enum Device {
    /// Biquad EQ.
    Eq {
        /// Filter mode.
        mode: EqMode,
        /// Center/corner frequency in Hz (10..=20000).
        freq_hz: Float32,
        /// Resonance/quality (0.1..=18).
        q: Float32,
        /// Gain in dB for peak mode (−24..=24).
        gain_db: Float32,
    },
    /// Peak compressor.
    Compressor {
        /// Threshold in dBFS (−60..=0).
        threshold_db: Float32,
        /// Ratio (1..=20).
        ratio: Float32,
        /// Attack in ms (0.1..=200).
        attack_ms: Float32,
        /// Release in ms (1..=2000).
        release_ms: Float32,
        /// Makeup gain in dB (0..=24).
        makeup_db: Float32,
    },
    /// Feedback delay.
    Delay {
        /// Delay time in ms (1..=2000).
        time_ms: Float32,
        /// Feedback amount (0..=0.95).
        feedback: Float32,
        /// Wet mix (0..=1).
        mix: Float32,
    },
    /// Schroeder reverb.
    Reverb {
        /// Room size (0..=1).
        room: Float32,
        /// High-frequency damping (0..=1).
        damping: Float32,
        /// Wet mix (0..=1).
        mix: Float32,
    },
    /// A hosted plugin, by reverse-DNS id.
    Plugin {
        /// Plugin id.
        id: String,
        /// Parameter overrides applied after instantiation: `(param_id, value)`.
        params: Vec<(String, Float32)>,
    },
}

/// The abstract value of a device.
pub enum DeviceView {
    /// Biquad EQ.
    Eq { mode: EqMode, freq_hz: Float32, q: Float32, gain_db: Float32 },
    /// Peak compressor.
    Compressor {
        threshold_db: Float32,
        ratio: Float32,
        attack_ms: Float32,
        release_ms: Float32,
        makeup_db: Float32,
    },
    /// Feedback delay.
    Delay { time_ms: Float32, feedback: Float32, mix: Float32 },
    /// Schroeder reverb.
    Reverb { room: Float32, damping: Float32, mix: Float32 },
    /// A hosted plugin.
    Plugin { id: Seq<char>, params: Seq<(Seq<char>, Float32)> },
}

/// Plugin parameter list view.
pub open spec fn params_view(p: Seq<(String, Float32)>) -> Seq<(Seq<char>, Float32)> {
    p.map_values(|e: (String, Float32)| (e.0@, e.1))
}

impl View for Device {
    type V = DeviceView;

    open spec fn view(&self) -> DeviceView {
        match self {
            Device::Eq { mode, freq_hz, q, gain_db } => DeviceView::Eq {
                mode: *mode,
                freq_hz: *freq_hz,
                q: *q,
                gain_db: *gain_db,
            },
            Device::Compressor { threshold_db, ratio, attack_ms, release_ms, makeup_db } =>
                DeviceView::Compressor {
                threshold_db: *threshold_db,
                ratio: *ratio,
                attack_ms: *attack_ms,
                release_ms: *release_ms,
                makeup_db: *makeup_db,
            },
            Device::Delay { time_ms, feedback, mix } => DeviceView::Delay {
                time_ms: *time_ms,
                feedback: *feedback,
                mix: *mix,
            },
            Device::Reverb { room, damping, mix } => DeviceView::Reverb {
                room: *room,
                damping: *damping,
                mix: *mix,
            },
            Device::Plugin { id, params } => DeviceView::Plugin {
                id: id@,
                params: params_view(params@),
            },
        }
    }
}

impl Device {
    /// A copy of this device.
    pub fn copy(&self) -> (r: Device)
        ensures
            r@ == self@,
    {
        match self {
            Device::Eq { mode, freq_hz, q, gain_db } => Device::Eq {
                mode: *mode,
                freq_hz: *freq_hz,
                q: *q,
                gain_db: *gain_db,
            },
            Device::Compressor { threshold_db, ratio, attack_ms, release_ms, makeup_db } =>
                Device::Compressor {
                threshold_db: *threshold_db,
                ratio: *ratio,
                attack_ms: *attack_ms,
                release_ms: *release_ms,
                makeup_db: *makeup_db,
            },
            Device::Delay { time_ms, feedback, mix } => Device::Delay {
                time_ms: *time_ms,
                feedback: *feedback,
                mix: *mix,
            },
            Device::Reverb { room, damping, mix } => Device::Reverb {
                room: *room,
                damping: *damping,
                mix: *mix,
            },
            Device::Plugin { id, params } => {
                let mut ps: Vec<(String, Float32)> = Vec::new();
                let mut i: usize = 0;
                while i < params.len()
                    invariant
                        i <= params.len(),
                        params_view(ps@) == params_view(params@.subrange(0, i as int)),
                    decreases params.len() - i,
                {
                    let name = copy_string(&params[i].0);
                    let v = params[i].1;
                    proof {
                        assert(params_view(params@.subrange(0, i + 1)) =~= params_view(
                            params@.subrange(0, i as int),
                        ).push((name@, v)));
                        assert(params_view(ps@.push((name, v))) =~= params_view(ps@).push(
                            (name@, v),
                        ));
                    }
                    ps.push((name, v));
                    i += 1;
                }
                assert(params@.subrange(0, params.len() as int) =~= params@);
                Device::Plugin { id: copy_string(id), params: ps }
            },
        }
    }
}

/// Device list view.
pub open spec fn devices_view(d: Seq<Device>) -> Seq<DeviceView> {
    d.map_values(|x: Device| x@)
}

/// A track: name, kind, mix settings, insert chain, and clip placements.
#[derive(Debug, Clone, PartialEq, Eq)]
pub struct Track {
    /// Stable track identifier.
    pub id: TrackId,
    /// Display name.
    pub name: String,
    /// Content kind.
    pub kind: TrackKind,
    /// Mix settings.
    pub mix: ChannelStrip,
    /// Insert effects, processed in order before gain/pan.
    pub inserts: Vec<Device>,
    /// Clips placed on this track, in insertion order.
    pub placements: Vec<Placement>,
}

/// The abstract value of a track.
pub struct TrackView {
    pub id: u64,
    pub name: Seq<char>,
    pub kind: TrackKind,
    pub mix: ChannelStrip,
    pub inserts: Seq<DeviceView>,
    pub placements: Seq<Placement>,
}

impl View for Track {
    type V = TrackView;

    open spec fn view(&self) -> TrackView {
        TrackView {
            id: self.id.0,
            name: self.name@,
            kind: self.kind,
            mix: self.mix,
            inserts: devices_view(self.inserts@),
            placements: self.placements@,
        }
    }
}

/// Copies a device list.
pub fn copy_devices(d: &Vec<Device>) -> (r: Vec<Device>)
    ensures
        devices_view(r@) == devices_view(d@),
{
    let mut r: Vec<Device> = Vec::new();
    let mut i: usize = 0;
    while i < d.len()
        invariant
            i <= d.len(),
            devices_view(r@) == devices_view(d@.subrange(0, i as int)),
        decreases d.len() - i,
    {
        let x = d[i].copy();
        proof {
            assert(devices_view(d@.subrange(0, i + 1)) =~= devices_view(d@.subrange(0, i as int)).push(
                x@,
            ));
            assert(devices_view(r@.push(x)) =~= devices_view(r@).push(x@));
        }
        r.push(x);
        i += 1;
    }
    assert(d@.subrange(0, d.len() as int) =~= d@);
    r
}

/// Copies a placement list.
pub fn copy_placements(p: &Vec<Placement>) -> (r: Vec<Placement>)
    ensures
        r@ == p@,
{
    let mut r: Vec<Placement> = Vec::new();
    let mut i: usize = 0;
    while i < p.len()
        invariant
            i <= p.len(),
            r@ == p@.subrange(0, i as int),
        decreases p.len() - i,
    {
        r.push(p[i]);
        proof {
            assert(p@.subrange(0, i + 1) =~= p@.subrange(0, i as int).push(p@[i as int]));
        }
        i += 1;
    }
    assert(p@.subrange(0, p.len() as int) =~= p@);
    r
}

impl Track {
    /// A copy of this track.
    pub fn copy(&self) -> (r: Track)
        ensures
            r@ == self@,
    {
        Track {
            id: self.id,
            name: copy_string(&self.name),
            kind: self.kind,
            mix: self.mix,
            inserts: copy_devices(&self.inserts),
            placements: copy_placements(&self.placements),
        }
    }
}

/// A named timeline position.
#[derive(Debug, Clone, PartialEq, Eq)]
pub struct Marker {
    /// Timeline position.
    pub at: Tick,
    /// Display name.
    pub name: String,
}

/// The abstract value of a marker.
pub struct MarkerView {
    pub at: Tick,
    pub name: Seq<char>,
}

impl View for Marker {
    type V = MarkerView;

    open spec fn view(&self) -> MarkerView {
        MarkerView { at: self.at, name: self.name@ }
    }
}

/// Marker order: by position, then by name.
pub open spec fn marker_le(a: MarkerView, b: MarkerView) -> bool {
    a.at.0 < b.at.0 || (a.at.0 == b.at.0 && !seq_lt(b.name, a.name))
}

/// Marker list view.
pub open spec fn markers_view(m: Seq<Marker>) -> Seq<MarkerView> {
    m.map_values(|x: Marker| x@)
}

/// Markers sorted by position, then name.
pub open spec fn markers_sorted(m: Seq<MarkerView>) -> bool {
    forall|i: int, j: int| 0 <= i < j < m.len() ==> marker_le(m[i], m[j])
}

/// Clip content (symbolic).
#[derive(Debug, Clone, PartialEq, Eq)]
pub struct Clip {
    /// Display name.
    pub name: String,
    /// The symbolic content.
    pub pattern: Pattern,
}

/// The abstract value of a clip.
pub struct ClipView {
    pub name: Seq<char>,
    pub pattern: PatternView,
}

impl View for Clip {
    type V = ClipView;

    open spec fn view(&self) -> ClipView {
        ClipView { name: self.name@, pattern: self.pattern@ }
    }
}

impl Clip {
    /// A copy of this clip.
    pub fn copy(&self) -> (r: Clip)
        ensures
            r@ == self@,
    {
        Clip { name: copy_string(&self.name), pattern: self.pattern.copy() }
    }
}

/// Errors from command validation or event replay.
#[derive(Debug, Clone, PartialEq, Eq)]
pub enum DomainError {
    /// A name was empty or whitespace-only.
    EmptyName,
    /// A referenced track does not exist.
    UnknownTrack(TrackId),
    /// A referenced clip does not exist.
    UnknownClip(ClipId),
    /// A timeline position was negative.
    NegativeTick(Tick),
    /// Bus tracks hold no clips.
    BusHoldsNoClips(TrackId),
    /// A clip's final placement cannot be unplaced (use `RemoveClip`).
    LastPlacement(ClipId),
    /// No placement of the clip exists at that position.
    NoSuchPlacement(ClipId, Tick),
    /// No marker with that position and name.
    NoSuchMarker(Tick, String),
    /// A device parameter was outside its valid range.
    DeviceParams,
    /// No device at that index on the track.
    NoSuchDevice(TrackId, usize),
    /// A numeric parameter was outside its valid range.
    OutOfRange(&'static str, Float32, Float32),
    /// A timeline map invariant was violated.
    Timeline(TimelineError),
}

/// The abstract value of a domain error.
pub enum DomainErrorView {
    EmptyName,
    UnknownTrack(u64),
    UnknownClip(u64),
    NegativeTick(i64),
    BusHoldsNoClips(u64),
    LastPlacement(u64),
    NoSuchPlacement(u64, i64),
    NoSuchMarker(i64, Seq<char>),
    DeviceParams,
    NoSuchDevice(u64, usize),
    OutOfRange(Seq<char>, u32, u32),
    Timeline(TimelineError),
}

impl View for DomainError {
    type V = DomainErrorView;

    open spec fn view(&self) -> DomainErrorView {
        match self {
            DomainError::EmptyName => DomainErrorView::EmptyName,
            DomainError::UnknownTrack(t) => DomainErrorView::UnknownTrack(t.0),
            DomainError::UnknownClip(c) => DomainErrorView::UnknownClip(c.0),
            DomainError::NegativeTick(t) => DomainErrorView::NegativeTick(t.0),
            DomainError::BusHoldsNoClips(t) => DomainErrorView::BusHoldsNoClips(t.0),
            DomainError::LastPlacement(c) => DomainErrorView::LastPlacement(c.0),
            DomainError::NoSuchPlacement(c, t) => DomainErrorView::NoSuchPlacement(c.0, t.0),
            DomainError::NoSuchMarker(t, n) => DomainErrorView::NoSuchMarker(t.0, n@),
            DomainError::DeviceParams => DomainErrorView::DeviceParams,
            DomainError::NoSuchDevice(t, i) => DomainErrorView::NoSuchDevice(t.0, *i),
            DomainError::OutOfRange(n, lo, hi) => DomainErrorView::OutOfRange(n@, lo.bits, hi.bits),
            DomainError::Timeline(e) => DomainErrorView::Timeline(*e),
        }
    }
}

/// Track list view.
pub open spec fn tracks_view(t: Seq<Track>) -> Seq<TrackView> {
    t.map_values(|x: Track| x@)
}

/// The contents of a clip map, by id.
pub open spec fn clips_map(c: Map<u64, Clip>) -> Map<u64, ClipView> {
    c.map_values(|x: Clip| x@)
}

/// The abstract value of a project.
pub struct ProjectView {
    pub id: u64,
    pub name: Seq<char>,
    pub format_version: Seq<char>,
    pub tempo: Seq<(Tick, Tempo)>,
    pub signatures: Seq<(Tick, crate::core_types::TimeSignature)>,
    pub tracks: Seq<TrackView>,
    pub clips: Map<u64, ClipView>,
    pub markers: Seq<MarkerView>,
    pub next_track: u64,
    pub next_clip: u64,
}

/// The project aggregate root.
#[derive(Debug, Clone, PartialEq, Eq)]
pub struct ProjectState {
    /// Identity and format metadata.
    pub meta: ProjectMeta,
    /// Tempo changes.
    pub tempo_map: TempoMap,
    /// Meter changes.
    pub signature_map: crate::timeline::SignatureMap,
    /// Tracks in mixer order.
    pub tracks: Vec<Track>,
    /// Clip contents by id; referenced by placements.
    pub clips: BTreeMap<u64, Clip>,
    /// Named timeline positions, sorted by tick then name.
    pub markers: Vec<Marker>,
    /// Next track id to issue (ids are never reissued, even across undo).
    pub next_track: u64,
    /// Next clip id to issue.
    pub next_clip: u64,
}

impl View for ProjectState {
    type V = ProjectView;

    open spec fn view(&self) -> ProjectView {
        ProjectView {
            id: self.meta.id.0,
            name: self.meta.name@,
            format_version: self.meta.format_version@,
            tempo: self.tempo_map@,
            signatures: self.signature_map@,
            tracks: tracks_view(self.tracks@),
            clips: clips_map(self.clips@),
            markers: markers_view(self.markers@),
            next_track: self.next_track,
            next_clip: self.next_clip,
        }
    }
}

} // verus!
