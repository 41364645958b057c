//! Events: past-tense facts about a project, each carrying enough data to be
//! inverted.

use vstd::prelude::*;
use crate::core_types::{ClipId, Tempo, Tick, TrackId};
use crate::float::Float32;
use crate::project_types::{Clip, ClipView, Device, DeviceView, Track, TrackView};
use crate::text::copy_string;

verus! {

/// Past-tense facts. Each event carries enough data to compute its inverse.
#[derive(Debug, Clone, PartialEq, Eq)]
pub enum Event {
    /// The project was renamed.
    ProjectRenamed {
        /// Previous name.
        from: String,
        /// New name.
        to: String,
    },
    /// A track was created.
    TrackCreated {
        /// The created track.
        track: Track,
        /// Position in the track list.
        index: usize,
    },
    /// A track was renamed.
    TrackRenamed {
        /// Target track.
        track: TrackId,
        /// Previous name.
        from: String,
        /// New name.
        to: String,
    },
    /// A track was removed, with everything needed to restore it.
    TrackRemoved {
        /// The removed track (including placements).
        track: Track,
        /// Its previous position in the track list.
        index: usize,
        /// The removed clip contents.
        clips: Vec<(ClipId, Clip)>,
    },
    /// A clip was inserted.
    ClipInserted {
        /// Host track.
        track: TrackId,
        /// New clip id.
        clip_id: ClipId,
        /// Clip content.
        clip: Clip,
        /// Timeline position.
        at: Tick,
        /// Where the new placement goes in the track's placement list;
        /// `None`, or a position at or past the end, appends it.
        index: Option<usize>,
    },
    /// A clip was removed.
    ClipRemoved {
        /// Host track.
        track: TrackId,
        /// Removed clip id.
        clip_id: ClipId,
        /// Removed clip content (for undo).
        clip: Clip,
        /// Its previous timeline position (that of its first placement).
        at: Tick,
        /// Every removed placement, in list order: its position in the
        /// track's placement list and its timeline position (for undo).
        placements: Vec<(usize, Tick)>,
    },
    /// A clip moved to a new position.
    ClipMoved {
        /// Host track.
        track: TrackId,
        /// Target clip.
        clip: ClipId,
        /// Previous position.
        from: Tick,
        /// New position.
        to: Tick,
    },
    /// A clip gained an additional placement.
    ClipPlaced {
        /// Host track.
        track: TrackId,
        /// Target clip.
        clip: ClipId,
        /// New placement position.
        at: Tick,
        /// Where the placement goes in the track's placement list; `None`,
        /// or a position at or past the end, appends it.
        index: Option<usize>,
    },
    /// One placement of a clip was removed (content untouched).
    ClipUnplaced {
        /// Host track.
        track: TrackId,
        /// Target clip.
        clip: ClipId,
        /// Removed placement position.
        at: Tick,
        /// Where the removed placement stood in the track's placement list
        /// (for undo).
        index: Option<usize>,
    },
    /// A marker was added.
    MarkerAdded {
        /// Timeline position.
        at: Tick,
        /// Marker name.
        name: String,
    },
    /// A marker was removed.
    MarkerRemoved {
        /// Timeline position.
        at: Tick,
        /// Marker name.
        name: String,
    },
    /// A track's gain changed.
    TrackGainSet {
        /// Target track.
        track: TrackId,
        /// Previous gain (dB).
        from: Float32,
        /// New gain (dB).
        to: Float32,
    },
    /// A track's pan changed.
    TrackPanSet {
        /// Target track.
        track: TrackId,
        /// Previous pan.
        from: Float32,
        /// New pan.
        to: Float32,
    },
    /// A track's mute state changed.
    TrackMuteSet {
        /// Target track.
        track: TrackId,
        /// Previous state.
        from: bool,
        /// New state.
        to: bool,
    },
    /// A device was added to a track's insert chain.
    DeviceAdded {
        /// Target track.
        track: TrackId,
        /// Position in the chain.
        index: usize,
        /// The device.
        device: Device,
    },
    /// A device was removed from a track's insert chain.
    DeviceRemoved {
        /// Target track.
        track: TrackId,
        /// Its previous position.
        index: usize,
        /// The removed device (for undo).
        device: Device,
    },
    /// A tempo entry was set (added or changed).
    TempoSet {
        /// Timeline position.
        at: Tick,
        /// Previous tempo at this exact position, if any.
        from: Option<Tempo>,
        /// New tempo.
        to: Tempo,
    },
    /// A tempo entry was removed (only produced as an inverse).
    TempoUnset {
        /// Timeline position.
        at: Tick,
        /// The removed tempo.
        tempo: Tempo,
    },
}

/// The abstract value of an event.
pub enum EventView {
    ProjectRenamed { from: Seq<char>, to: Seq<char> },
    TrackCreated { track: TrackView, index: usize },
    TrackRenamed { track: u64, from: Seq<char>, to: Seq<char> },
    TrackRemoved { track: TrackView, index: usize, clips: Seq<(u64, ClipView)> },
    ClipInserted { track: u64, clip_id: u64, clip: ClipView, at: Tick, index: Option<usize> },
    ClipRemoved { track: u64, clip_id: u64, clip: ClipView, at: Tick, placements: Seq<(usize, Tick)> },
    ClipMoved { track: u64, clip: u64, from: Tick, to: Tick },
    ClipPlaced { track: u64, clip: u64, at: Tick, index: Option<usize> },
    ClipUnplaced { track: u64, clip: u64, at: Tick, index: Option<usize> },
    MarkerAdded { at: Tick, name: Seq<char> },
    MarkerRemoved { at: Tick, name: Seq<char> },
    TrackGainSet { track: u64, from: Float32, to: Float32 },
    TrackPanSet { track: u64, from: Float32, to: Float32 },
    TrackMuteSet { track: u64, from: bool, to: bool },
    DeviceAdded { track: u64, index: usize, device: DeviceView },
    DeviceRemoved { track: u64, index: usize, device: DeviceView },
    TempoSet { at: Tick, from: Option<Tempo>, to: Tempo },
    TempoUnset { at: Tick, tempo: Tempo },
}

/// The view of a list of removed clips.
pub open spec fn clip_list_view(c: Seq<(ClipId, Clip)>) -> Seq<(u64, ClipView)> {
    c.map_values(|e: (ClipId, Clip)| (e.0.0, e.1@))
}

impl View for Event {
    type V = EventView;

    open spec fn view(&self) -> EventView {
        match self {
            Event::ProjectRenamed { from, to } => EventView::ProjectRenamed { from: from@, to: to@ },
            Event::TrackCreated { track, index } => EventView::TrackCreated {
                track: track@,
                index: *index,
            },
            Event::TrackRenamed { track, from, to } => EventView::TrackRenamed {
                track: track.0,
                from: from@,
                to: to@,
            },
            Event::TrackRemoved { track, index, clips } => EventView::TrackRemoved {
                track: track@,
                index: *index,
                clips: clip_list_view(clips@),
            },
            Event::ClipInserted { track, clip_id, clip, at, index } => EventView::ClipInserted {
                track: track.0,
                clip_id: clip_id.0,
                clip: clip@,
                at: *at,
                index: *index,
            },
            Event::ClipRemoved { track, clip_id, clip, at, placements } => EventView::ClipRemoved {
                track: track.0,
                clip_id: clip_id.0,
                clip: clip@,
                at: *at,
                placements: placements@,
            },
            Event::ClipMoved { track, clip, from, to } => EventView::ClipMoved {
                track: track.0,
                clip: clip.0,
                from: *from,
                to: *to,
            },
            Event::ClipPlaced { track, clip, at, index } => EventView::ClipPlaced {
                track: track.0,
                clip: clip.0,
                at: *at,
                index: *index,
            },
            Event::ClipUnplaced { track, clip, at, index } => EventView::ClipUnplaced {
                track: track.0,
                clip: clip.0,
                at: *at,
                index: *index,
            },
            Event::MarkerAdded { at, name } => EventView::MarkerAdded { at: *at, name: name@ },
            Event::MarkerRemoved { at, name } => EventView::MarkerRemoved { at: *at, name: name@ },
            Event::TrackGainSet { track, from, to } => EventView::TrackGainSet {
                track: track.0,
                from: *from,
                to: *to,
            },
            Event::TrackPanSet { track, from, to } => EventView::TrackPanSet {
                track: track.0,
                from: *from,
                to: *to,
            },
            Event::TrackMuteSet { track, from, to } => EventView::TrackMuteSet {
                track: track.0,
                from: *from,
                to: *to,
            },
            Event::DeviceAdded { track, index, device } => EventView::DeviceAdded {
                track: track.0,
                index: *index,
                device: device@,
            },
            Event::DeviceRemoved { track, index, device } => EventView::DeviceRemoved {
                track: track.0,
                index: *index,
                device: device@,
            },
            Event::TempoSet { at, from, to } => EventView::TempoSet { at: *at, from: *from, to: *to },
            Event::TempoUnset { at, tempo } => EventView::TempoUnset { at: *at, tempo: *tempo },
        }
    }
}

/// The view of an event list.
pub open spec fn events_view(v: Seq<Event>) -> Seq<EventView> {
    v.map_values(|e: Event| e@)
}

/// Copies a list of removed clips.
pub fn copy_clip_list(c: &Vec<(ClipId, Clip)>) -> (r: Vec<(ClipId, Clip)>)
    ensures
        clip_list_view(r@) == clip_list_view(c@),
{
    let mut r: Vec<(ClipId, Clip)> = Vec::new();
    let mut i: usize = 0;
    while i < c.len()
        invariant
            i <= c.len(),
            clip_list_view(r@) == clip_list_view(c@.subrange(0, i as int)),
        decreases c.len() - i,
    {
        let e = (c[i].0, c[i].1.copy());
        proof {
            assert(clip_list_view(c@.subrange(0, i + 1)) =~= clip_list_view(
                c@.subrange(0, i as int),
            ).push((e.0.0, e.1@)));
            assert(clip_list_view(r@.push(e)) =~= clip_list_view(r@).push((e.0.0, e.1@)));
        }
        r.push(e);
        i += 1;
    }
    assert(c@.subrange(0, c.len() as int) =~= c@);
    r
}

/// Copies a list of placement positions.
pub fn copy_positions(v: &Vec<(usize, Tick)>) -> (r: Vec<(usize, Tick)>)
    ensures
        r@ == v@,
{
    let mut r: Vec<(usize, Tick)> = Vec::new();
    let mut i: usize = 0;
    while i < v.len()
        invariant
            i <= v.len(),
            r@ == v@.subrange(0, i as int),
        decreases v.len() - i,
    {
        r.push(v[i]);
        i += 1;
    }
    assert(v@.subrange(0, v.len() as int) =~= v@);
    r
}

impl Event {
    /// A copy of this event.
    pub fn copy(&self) -> (r: Event)
        ensures
            r@ == self@,
    {
        match self {
            Event::ProjectRenamed { from, to } => Event::ProjectRenamed {
                from: copy_string(from),
                to: copy_string(to),
            },
            Event::TrackCreated { track, index } => Event::TrackCreated {
                track: track.copy(),
                index: *index,
            },
            Event::TrackRenamed { track, from, to } => Event::TrackRenamed {
                track: *track,
                from: copy_string(from),
                to: copy_string(to),
            },
            Event::TrackRemoved { track, index, clips } => Event::TrackRemoved {
                track: track.copy(),
                index: *index,
                clips: copy_clip_list(clips),
            },
            Event::ClipInserted { track, clip_id, clip, at, index } => Event::ClipInserted {
                track: *track,
                clip_id: *clip_id,
                clip: clip.copy(),
                at: *at,
                index: *index,
            },
            Event::ClipRemoved { track, clip_id, clip, at, placements } => Event::ClipRemoved {
                track: *track,
                clip_id: *clip_id,
                clip: clip.copy(),
                at: *at,
                placements: copy_positions(placements),
            },
            Event::ClipMoved { track, clip, from, to } => Event::ClipMoved {
                track: *track,
                clip: *clip,
                from: *from,
                to: *to,
            },
            Event::ClipPlaced { track, clip, at, index } => Event::ClipPlaced {
                track: *track,
                clip: *clip,
                at: *at,
                index: *index,
            },
            Event::ClipUnplaced { track, clip, at, index } => Event::ClipUnplaced {
                track: *track,
                clip: *clip,
                at: *at,
                index: *index,
            },
            Event::MarkerAdded { at, name } => Event::MarkerAdded { at: *at, name: copy_string(name) },
            Event::MarkerRemoved { at, name } => Event::MarkerRemoved {
                at: *at,
                name: copy_string(name),
            },
            Event::TrackGainSet { track, from, to } => Event::TrackGainSet {
                track: *track,
                from: *from,
                to: *to,
            },
            Event::TrackPanSet { track, from, to } => Event::TrackPanSet {
                track: *track,
                from: *from,
                to: *to,
            },
            Event::TrackMuteSet { track, from, to } => Event::TrackMuteSet {
                track: *track,
                from: *from,
                to: *to,
            },
            Event::DeviceAdded { track, index, device } => Event::DeviceAdded {
                track: *track,
                index: *index,
                device: device.copy(),
            },
            Event::DeviceRemoved { track, index, device } => Event::DeviceRemoved {
                track: *track,
                index: *index,
                device: device.copy(),
            },
            Event::TempoSet { at, from, to } => Event::TempoSet { at: *at, from: *from, to: *to },
            Event::TempoUnset { at, tempo } => Event::TempoUnset { at: *at, tempo: *tempo },
        }
    }
}

} // verus!
