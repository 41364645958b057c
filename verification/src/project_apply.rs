//! Folding events into the project state.

use std::collections::BTreeMap;
use vstd::prelude::*;
use crate::core_types::{ClipId, Tick};
use crate::project_event::{Event, EventView};
use crate::project_store::{
    clips_insert, clips_remove, drop_clip, find_first_clip, find_last_match, find_marker,
    find_track, first_with_clip, lemma_devices_view_edits,
    lemma_first_with_clip, lemma_last_match, lemma_marker_index, lemma_track_index,
    lemma_tracks_view_edits, last_match, marker_index, retain_other_clips, sort_marker_vec,
    sort_markers, track_index,
};
use crate::project_types::{
    clips_map, devices_view, markers_view, tracks_view, ChannelStrip, Clip,
    DomainError, DomainErrorView, Marker, MarkerView, Placement, ProjectState, ProjectView,
    Track, TrackView,
};
use crate::timeline::{remove_entry, set_entry, TimelineError};

verus! {

broadcast use vstd::seq_lib::group_seq_properties;

/// The ids of the clips placed by `ps`.
pub open spec fn placed_ids(ps: Seq<Placement>) -> Set<u64> {
    Set::new(|k: u64| exists|i: int| 0 <= i < ps.len() && ps[i].clip.0 == k)
}

/// The project with track `i` replaced.
pub open spec fn set_track(s: ProjectView, i: int, t: TrackView) -> ProjectView {
    ProjectView { tracks: s.tracks.update(i, t), ..s }
}

/// `ps` with `p` inserted at position `index`, or appended when there is no
/// position or it is at or past the end.
pub open spec fn put_at(ps: Seq<Placement>, index: Option<usize>, p: Placement) -> Seq<Placement> {
    match index {
        Some(i) => if i < ps.len() {
            ps.insert(i as int, p)
        } else {
            ps.push(p)
        },
        None => ps.push(p),
    }
}

/// The answer to an event naming a track that does not exist.
pub open spec fn unknown_track(s: ProjectView, id: u64) -> (ProjectView, Option<DomainErrorView>) {
    (s, Some(DomainErrorView::UnknownTrack(id)))
}

/// Folds one event into a project: the resulting state and, where the event
/// does not fit the state, the error reported. A failed fold leaves the state
/// as it was, but for `ClipInserted`, whose clip content is stored before the
/// host track is looked up.
#[verifier::opaque]
pub open spec fn apply_spec(s: ProjectView, e: EventView) -> (ProjectView, Option<DomainErrorView>) {
    match e {
        EventView::ProjectRenamed { to, .. } => (ProjectView { name: to, ..s }, None),
        EventView::TrackCreated { track, index } => {
            let i = if index <= s.tracks.len() {
                index as int
            } else {
                s.tracks.len() as int
            };
            let next = if s.next_track > track.id {
                s.next_track
            } else {
                (track.id + 1) as u64
            };
            (ProjectView { tracks: s.tracks.insert(i, track), next_track: next, ..s }, None)
        },
        EventView::TrackRenamed { track, to, .. } => {
            let i = track_index(s.tracks, track);
            if i < s.tracks.len() {
                (set_track(s, i, TrackView { name: to, ..s.tracks[i] }), None)
            } else {
                unknown_track(s, track)
            }
        },
        EventView::TrackRemoved { track, .. } => {
            let i = track_index(s.tracks, track.id);
            if i < s.tracks.len() {
                (
                    ProjectView {
                        tracks: s.tracks.remove(i),
                        clips: s.clips.remove_keys(placed_ids(s.tracks[i].placements)),
                        ..s
                    },
                    None,
                )
            } else {
                unknown_track(s, track.id)
            }
        },
        EventView::ClipInserted { track, clip_id, clip, at, index } => {
            let next = if s.next_clip > clip_id {
                s.next_clip
            } else {
                (clip_id + 1) as u64
            };
            let s1 = ProjectView { clips: s.clips.insert(clip_id, clip), next_clip: next, ..s };
            let i = track_index(s.tracks, track);
            if i < s.tracks.len() {
                let t = s.tracks[i];
                (
                    set_track(
                        s1,
                        i,
                        TrackView {
                            placements: put_at(t.placements, index, Placement { clip: ClipId(clip_id), at }),
                            ..t
                        },
                    ),
                    None,
                )
            } else {
                unknown_track(s1, track)
            }
        },
        EventView::ClipRemoved { track, clip_id, .. } => {
            let i = track_index(s.tracks, track);
            if i < s.tracks.len() {
                let t = s.tracks[i];
                let s1 = set_track(s, i, TrackView { placements: drop_clip(t.placements, clip_id), ..t });
                (ProjectView { clips: s.clips.remove(clip_id), ..s1 }, None)
            } else {
                unknown_track(s, track)
            }
        },
        EventView::ClipMoved { track, clip, to, .. } => {
            let i = track_index(s.tracks, track);
            if i < s.tracks.len() {
                let t = s.tracks[i];
                let j = first_with_clip(t.placements, clip);
                if j < t.placements.len() {
                    (
                        set_track(
                            s,
                            i,
                            TrackView {
                                placements: t.placements.update(j, Placement { clip: ClipId(clip), at: to }),
                                ..t
                            },
                        ),
                        None,
                    )
                } else {
                    (s, Some(DomainErrorView::UnknownClip(clip)))
                }
            } else {
                unknown_track(s, track)
            }
        },
        EventView::ClipPlaced { track, clip, at, index } => {
            let i = track_index(s.tracks, track);
            if i < s.tracks.len() {
                let t = s.tracks[i];
                (
                    set_track(
                        s,
                        i,
                        TrackView {
                            placements: put_at(t.placements, index, Placement { clip: ClipId(clip), at }),
                            ..t
                        },
                    ),
                    None,
                )
            } else {
                unknown_track(s, track)
            }
        },
        EventView::ClipUnplaced { track, clip, at, .. } => {
            let i = track_index(s.tracks, track);
            if i < s.tracks.len() {
                let t = s.tracks[i];
                let j = last_match(t.placements, clip, at.0);
                let ps = if j >= 0 {
                    t.placements.remove(j)
                } else {
                    t.placements
                };
                (set_track(s, i, TrackView { placements: ps, ..t }), None)
            } else {
                unknown_track(s, track)
            }
        },
        EventView::MarkerAdded { at, name } => (
            ProjectView { markers: sort_markers(s.markers.push(MarkerView { at, name })), ..s },
            None,
        ),
        EventView::MarkerRemoved { at, name } => {
            let j = marker_index(s.markers, at.0, name);
            let ms = if j < s.markers.len() {
                s.markers.remove(j)
            } else {
                s.markers
            };
            (ProjectView { markers: ms, ..s }, None)
        },
        EventView::TrackGainSet { track, to, .. } => {
            let i = track_index(s.tracks, track);
            if i < s.tracks.len() {
                let t = s.tracks[i];
                (set_track(s, i, TrackView { mix: ChannelStrip { gain_db: to, ..t.mix }, ..t }), None)
            } else {
                unknown_track(s, track)
            }
        },
        EventView::TrackPanSet { track, to, .. } => {
            let i = track_index(s.tracks, track);
            if i < s.tracks.len() {
                let t = s.tracks[i];
                (set_track(s, i, TrackView { mix: ChannelStrip { pan: to, ..t.mix }, ..t }), None)
            } else {
                unknown_track(s, track)
            }
        },
        EventView::TrackMuteSet { track, to, .. } => {
            let i = track_index(s.tracks, track);
            if i < s.tracks.len() {
                let t = s.tracks[i];
                (set_track(s, i, TrackView { mix: ChannelStrip { muted: to, ..t.mix }, ..t }), None)
            } else {
                unknown_track(s, track)
            }
        },
        EventView::DeviceAdded { track, index, device } => {
            let i = track_index(s.tracks, track);
            if i < s.tracks.len() {
                let t = s.tracks[i];
                let k = if index <= t.inserts.len() {
                    index as int
                } else {
                    t.inserts.len() as int
                };
                (set_track(s, i, TrackView { inserts: t.inserts.insert(k, device), ..t }), None)
            } else {
                unknown_track(s, track)
            }
        },
        EventView::DeviceRemoved { track, index, .. } => {
            let i = track_index(s.tracks, track);
            if i < s.tracks.len() {
                let t = s.tracks[i];
                let ds = if index < t.inserts.len() {
                    t.inserts.remove(index as int)
                } else {
                    t.inserts
                };
                (set_track(s, i, TrackView { inserts: ds, ..t }), None)
            } else {
                unknown_track(s, track)
            }
        },
        EventView::TempoSet { at, to, .. } => {
            if at.0 < 0 {
                (s, Some(DomainErrorView::Timeline(TimelineError::NegativeTick)))
            } else {
                (ProjectView { tempo: set_entry(s.tempo, at.0 as int, to), ..s }, None)
            }
        },
        EventView::TempoUnset { at, .. } => {
            if at.0 == 0 {
                (s, Some(DomainErrorView::Timeline(TimelineError::NoOrigin)))
            } else {
                (ProjectView { tempo: remove_entry(s.tempo, at.0 as int), ..s }, None)
            }
        },
    }
}

/// Ids that an event hands out fit below the id counters' limit.
pub open spec fn event_ids_fit(e: EventView) -> bool {
    match e {
        EventView::TrackCreated { track, .. } => track.id < u64::MAX,
        EventView::ClipInserted { clip_id, .. } => clip_id < u64::MAX,
        _ => true,
    }
}

/// Inserts `p` at position `index` of `ps`, or appends it when there is no
/// position or it is at or past the end.
fn put_placement(ps: &mut Vec<Placement>, index: Option<usize>, p: Placement)
    ensures
        final(ps)@ == put_at(old(ps)@, index, p),
{
    match index {
        Some(i) => if i < ps.len() {
            ps.insert(i, p);
        } else {
            ps.push(p);
        },
        None => ps.push(p),
    }
}

/// Removes the clips placed by `ps` from the clip vector.
fn remove_placed_clips(c: &mut BTreeMap<u64, Clip>, ps: &Vec<Placement>)
    ensures
        clips_map(final(c)@) == clips_map(old(c)@).remove_keys(placed_ids(ps@)),
{
    let ghost m0 = clips_map(c@);
    let mut k: usize = 0;
    assert(clips_map(c@) =~= m0.remove_keys(placed_ids(ps@.subrange(0, 0))));
    while k < ps.len()
        invariant
            k <= ps.len(),
            clips_map(c@) == m0.remove_keys(placed_ids(ps@.subrange(0, k as int))),
        decreases ps.len() - k,
    {
        let id = ps[k].clip;
        clips_remove(c, id);
        proof {
            let a = ps@.subrange(0, k as int);
            let b = ps@.subrange(0, k + 1);
            assert(placed_ids(b) =~= placed_ids(a).insert(id.0)) by {
                assert forall|x: u64| placed_ids(b).contains(x) implies placed_ids(a).insert(id.0).contains(x) by {
                    let i = choose|i: int| 0 <= i < b.len() && b[i].clip.0 == x;
                    if i < k {
                        assert(a[i] == b[i]);
                    }
                }
                assert forall|x: u64| placed_ids(a).insert(id.0).contains(x) implies placed_ids(b).contains(x) by {
                    if x == id.0 {
                        assert(b[k as int].clip.0 == x);
                    } else {
                        let i = choose|i: int| 0 <= i < a.len() && a[i].clip.0 == x;
                        assert(b[i] == a[i]);
                    }
                }
            }
            assert(clips_map(c@) =~= m0.remove_keys(placed_ids(b)));
        }
        k += 1;
    }
    assert(ps@.subrange(0, ps.len() as int) =~= ps@);
}

/// What folding `e` into `before` must give: the state `after` and the
/// result `r`.
pub open spec fn apply_outcome(
    before: ProjectView,
    after: ProjectView,
    r: Result<(), DomainError>,
    e: EventView,
) -> bool {
    &&& after == apply_spec(before, e).0
    &&& (r is Ok <==> apply_spec(before, e).1 is None)
    &&& (r matches Err(x) ==> apply_spec(before, e).1 == Some(x@))
}

impl ProjectState {
    /// The state invariant that folding relies on: a well-formed tempo map.
    pub open spec fn wf(&self) -> bool {
        self.tempo_map.wf()
    }

    /// Folds one event into the state. Total for events produced by
    /// `dispatch`; returns an error only when replaying a log that does not
    /// match the state.
    pub fn apply_event(&mut self, event: &Event) -> (r: Result<(), DomainError>)
        requires
            old(self).wf(),
            event_ids_fit(event@),
        ensures
            final(self).wf(),
            apply_outcome(old(self)@, final(self)@, r, event@),
    {
        match event {
            Event::ProjectRenamed { .. } => self.apply_project_level(event),
            Event::TrackCreated { .. } => self.apply_project_level(event),
            Event::TrackRemoved { .. } => self.apply_project_level(event),
            Event::ClipInserted { .. } => self.apply_clip_content(event),
            Event::ClipRemoved { .. } => self.apply_clip_content(event),
            Event::ClipMoved { .. } => self.apply_placement(event),
            Event::ClipPlaced { .. } => self.apply_placement(event),
            Event::ClipUnplaced { .. } => self.apply_placement(event),
            Event::TrackRenamed { .. } => self.apply_track_rename(event),
            Event::TrackGainSet { .. } => self.apply_mix(event),
            Event::TrackPanSet { .. } => self.apply_mix(event),
            Event::TrackMuteSet { .. } => self.apply_mix(event),
            Event::DeviceAdded { .. } => self.apply_devices(event),
            Event::DeviceRemoved { .. } => self.apply_devices(event),
            Event::MarkerAdded { .. } => self.apply_markers(event),
            Event::MarkerRemoved { .. } => self.apply_markers(event),
            Event::TempoSet { .. } => self.apply_tempo(event),
            Event::TempoUnset { .. } => self.apply_tempo(event),
        }
    }

    fn apply_project_level(&mut self, event: &Event) -> (r: Result<(), DomainError>)
        requires
            old(self).wf(),
            event_ids_fit(event@),
            event is ProjectRenamed || event is TrackCreated || event is TrackRemoved,
        ensures
            final(self).wf(),
            apply_outcome(old(self)@, final(self)@, r, event@),
    {
        reveal(apply_spec);
        match event {
            Event::ProjectRenamed { to, .. } => {
                self.meta.name = crate::text::copy_string(to);
                Ok(())
            },
            Event::TrackCreated { track, index } => {
                let i = if *index <= self.tracks.len() {
                    *index
                } else {
                    self.tracks.len()
                };
                let t = track.copy();
                proof {
                    lemma_tracks_view_edits(self.tracks@, i as int, t);
                }
                self.tracks.insert(i, t);
                if self.next_track <= track.id.0 {
                    self.next_track = track.id.0 + 1;
                }
                Ok(())
            },
            Event::TrackRemoved { track, .. } => {
                let i = find_track(&self.tracks, track.id);
                proof {
                    lemma_track_index(tracks_view(self.tracks@), track.id.0);
                }
                if i == self.tracks.len() {
                    return Err(DomainError::UnknownTrack(track.id));
                }
                proof {
                    lemma_tracks_view_edits(self.tracks@, i as int, self.tracks@[i as int]);
                }
                let removed = self.tracks.remove(i);
                remove_placed_clips(&mut self.clips, &removed.placements);
                Ok(())
            },
            _ => Ok(()),
        }
    }

    fn apply_clip_content(&mut self, event: &Event) -> (r: Result<(), DomainError>)
        requires
            old(self).wf(),
            event_ids_fit(event@),
            event is ClipInserted || event is ClipRemoved,
        ensures
            final(self).wf(),
            apply_outcome(old(self)@, final(self)@, r, event@),
    {
        reveal(apply_spec);
        match event {
            Event::ClipInserted { track, clip_id, clip, at, index } => {
                clips_insert(&mut self.clips, *clip_id, clip.copy());
                if self.next_clip <= clip_id.0 {
                    self.next_clip = clip_id.0 + 1;
                }
                let i = find_track(&self.tracks, *track);
                proof {
                    lemma_track_index(tracks_view(self.tracks@), track.0);
                }
                if i == self.tracks.len() {
                    return Err(DomainError::UnknownTrack(*track));
                }
                let ghost before = self.tracks@;
                put_placement(&mut self.tracks[i].placements, *index, Placement { clip: *clip_id, at: *at });
                proof {
                    lemma_tracks_view_edits(before, i as int, self.tracks@[i as int]);
                }
                Ok(())
            },
            Event::ClipRemoved { track, clip_id, .. } => {
                let i = find_track(&self.tracks, *track);
                proof {
                    lemma_track_index(tracks_view(self.tracks@), track.0);
                }
                if i == self.tracks.len() {
                    return Err(DomainError::UnknownTrack(*track));
                }
                let kept = retain_other_clips(&self.tracks[i].placements, *clip_id);
                let ghost before = self.tracks@;
                self.tracks[i].placements = kept;
                proof {
                    lemma_tracks_view_edits(before, i as int, self.tracks@[i as int]);
                }
                clips_remove(&mut self.clips, *clip_id);
                Ok(())
            },
            _ => Ok(()),
        }
    }

    fn apply_placement(&mut self, event: &Event) -> (r: Result<(), DomainError>)
        requires
            old(self).wf(),
            event_ids_fit(event@),
            event is ClipMoved || event is ClipPlaced || event is ClipUnplaced,
        ensures
            final(self).wf(),
            apply_outcome(old(self)@, final(self)@, r, event@),
    {
        reveal(apply_spec);
        match event {
            Event::ClipMoved { track, clip, to, .. } => {
                let i = find_track(&self.tracks, *track);
                proof {
                    lemma_track_index(tracks_view(self.tracks@), track.0);
                }
                if i == self.tracks.len() {
                    return Err(DomainError::UnknownTrack(*track));
                }
                let j = find_first_clip(&self.tracks[i].placements, *clip);
                proof {
                    lemma_first_with_clip(self.tracks@[i as int].placements@, clip.0);
                }
                if j == self.tracks[i].placements.len() {
                    return Err(DomainError::UnknownClip(*clip));
                }
                let ghost before = self.tracks@;
                self.tracks[i].placements.set(j, Placement { clip: *clip, at: *to });
                proof {
                    lemma_tracks_view_edits(before, i as int, self.tracks@[i as int]);
                }
                Ok(())
            },
            Event::ClipPlaced { track, clip, at, index } => {
                let i = find_track(&self.tracks, *track);
                proof {
                    lemma_track_index(tracks_view(self.tracks@), track.0);
                }
                if i == self.tracks.len() {
                    return Err(DomainError::UnknownTrack(*track));
                }
                let ghost before = self.tracks@;
                put_placement(&mut self.tracks[i].placements, *index, Placement { clip: *clip, at: *at });
                proof {
                    lemma_tracks_view_edits(before, i as int, self.tracks@[i as int]);
                }
                Ok(())
            },
            Event::ClipUnplaced { track, clip, at, .. } => {
                let i = find_track(&self.tracks, *track);
                proof {
                    lemma_track_index(tracks_view(self.tracks@), track.0);
                }
                if i == self.tracks.len() {
                    return Err(DomainError::UnknownTrack(*track));
                }
                let pos = find_last_match(&self.tracks[i].placements, *clip, *at);
                proof {
                    lemma_last_match(self.tracks@[i as int].placements@, clip.0, at.0);
                }
                let ghost before = self.tracks@;
                match pos {
                    Some(j) => {
                        let _ = self.tracks[i].placements.remove(j);
                    },
                    None => {},
                }
                proof {
                    lemma_tracks_view_edits(before, i as int, self.tracks@[i as int]);
                    assert(tracks_view(before).update(i as int, tracks_view(before)[i as int])
                        =~= tracks_view(before));
                }
                Ok(())
            },
            _ => Ok(()),
        }
    }

    fn apply_track_rename(&mut self, event: &Event) -> (r: Result<(), DomainError>)
        requires
            old(self).wf(),
            event_ids_fit(event@),
            event is TrackRenamed,
        ensures
            final(self).wf(),
            apply_outcome(old(self)@, final(self)@, r, event@),
    {
        reveal(apply_spec);
        match event {
            Event::TrackRenamed { track, to, .. } => {
                let i = find_track(&self.tracks, *track);
                proof {
                    lemma_track_index(tracks_view(self.tracks@), track.0);
                }
                if i == self.tracks.len() {
                    return Err(DomainError::UnknownTrack(*track));
                }
                let name = crate::text::copy_string(to);
                let ghost before = self.tracks@;
                self.tracks[i].name = name;
                proof {
                    lemma_tracks_view_edits(before, i as int, self.tracks@[i as int]);
                    assert(self.tracks@ == before.update(i as int, self.tracks@[i as int]));
                }
                Ok(())
            },
            _ => Ok(()),
        }
    }

    fn apply_mix(&mut self, event: &Event) -> (r: Result<(), DomainError>)
        requires
            old(self).wf(),
            event_ids_fit(event@),
            event is TrackGainSet || event is TrackPanSet || event is TrackMuteSet,
        ensures
            final(self).wf(),
            apply_outcome(old(self)@, final(self)@, r, event@),
    {
        reveal(apply_spec);
        match event {
            Event::TrackGainSet { track, to, .. } => {
                let i = find_track(&self.tracks, *track);
                proof {
                    lemma_track_index(tracks_view(self.tracks@), track.0);
                }
                if i == self.tracks.len() {
                    return Err(DomainError::UnknownTrack(*track));
                }
                let ghost before = self.tracks@;
                self.tracks[i].mix.gain_db = *to;
                proof {
                    lemma_tracks_view_edits(before, i as int, self.tracks@[i as int]);
                }
                Ok(())
            },
            Event::TrackPanSet { track, to, .. } => {
                let i = find_track(&self.tracks, *track);
                proof {
                    lemma_track_index(tracks_view(self.tracks@), track.0);
                }
                if i == self.tracks.len() {
                    return Err(DomainError::UnknownTrack(*track));
                }
                let ghost before = self.tracks@;
                self.tracks[i].mix.pan = *to;
                proof {
                    lemma_tracks_view_edits(before, i as int, self.tracks@[i as int]);
                }
                Ok(())
            },
            Event::TrackMuteSet { track, to, .. } => {
                let i = find_track(&self.tracks, *track);
                proof {
                    lemma_track_index(tracks_view(self.tracks@), track.0);
                }
                if i == self.tracks.len() {
                    return Err(DomainError::UnknownTrack(*track));
                }
                let ghost before = self.tracks@;
                self.tracks[i].mix.muted = *to;
                proof {
                    lemma_tracks_view_edits(before, i as int, self.tracks@[i as int]);
                }
                Ok(())
            },
            _ => Ok(()),
        }
    }

    fn apply_devices(&mut self, event: &Event) -> (r: Result<(), DomainError>)
        requires
            old(self).wf(),
            event_ids_fit(event@),
            event is DeviceAdded || event is DeviceRemoved,
        ensures
            final(self).wf(),
            apply_outcome(old(self)@, final(self)@, r, event@),
    {
        reveal(apply_spec);
        match event {
            Event::DeviceAdded { track, index, device } => {
                let i = find_track(&self.tracks, *track);
                proof {
                    lemma_track_index(tracks_view(self.tracks@), track.0);
                }
                if i == self.tracks.len() {
                    return Err(DomainError::UnknownTrack(*track));
                }
                let n = self.tracks[i].inserts.len();
                let k = if *index <= n {
                    *index
                } else {
                    n
                };
                let d = device.copy();
                proof {
                    lemma_devices_view_edits(self.tracks@[i as int].inserts@, k as int, d);
                }
                let ghost before = self.tracks@;
                self.tracks[i].inserts.insert(k, d);
                proof {
                    lemma_tracks_view_edits(before, i as int, self.tracks@[i as int]);
                }
                Ok(())
            },
            Event::DeviceRemoved { track, index, .. } => {
                let i = find_track(&self.tracks, *track);
                proof {
                    lemma_track_index(tracks_view(self.tracks@), track.0);
                }
                if i == self.tracks.len() {
                    return Err(DomainError::UnknownTrack(*track));
                }
                let ghost before = self.tracks@;
                if *index < self.tracks[i].inserts.len() {
                    proof {
                        lemma_devices_view_edits(
                            self.tracks@[i as int].inserts@,
                            *index as int,
                            self.tracks@[i as int].inserts@[*index as int],
                        );
                    }
                    let _ = self.tracks[i].inserts.remove(*index);
                }
                proof {
                    lemma_tracks_view_edits(before, i as int, self.tracks@[i as int]);
                    assert(tracks_view(before).update(i as int, tracks_view(before)[i as int])
                        =~= tracks_view(before));
                }
                Ok(())
            },
            _ => Ok(()),
        }
    }

    fn apply_markers(&mut self, event: &Event) -> (r: Result<(), DomainError>)
        requires
            old(self).wf(),
            event_ids_fit(event@),
            event is MarkerAdded || event is MarkerRemoved,
        ensures
            final(self).wf(),
            apply_outcome(old(self)@, final(self)@, r, event@),
    {
        reveal(apply_spec);
        match event {
            Event::MarkerAdded { at, name } => {
                let mut ms: Vec<Marker> = Vec::new();
                std::mem::swap(&mut ms, &mut self.markers);
                let m = Marker { at: *at, name: crate::text::copy_string(name) };
                let ghost mv = m@;
                proof {
                    assert(markers_view(ms@.push(m)) =~= markers_view(ms@).push(mv));
                }
                ms.push(m);
                self.markers = sort_marker_vec(ms);
                Ok(())
            },
            Event::MarkerRemoved { at, name } => {
                let j = find_marker(&self.markers, *at, name.as_str());
                proof {
                    lemma_marker_index(markers_view(self.markers@), at.0, name@);
                }
                if j < self.markers.len() {
                    proof {
                        assert(markers_view(self.markers@.remove(j as int)) =~= markers_view(
                            self.markers@,
                        ).remove(j as int));
                    }
                    let _ = self.markers.remove(j);
                }
                Ok(())
            },
            _ => Ok(()),
        }
    }

    fn apply_tempo(&mut self, event: &Event) -> (r: Result<(), DomainError>)
        requires
            old(self).wf(),
            event_ids_fit(event@),
            event is TempoSet || event is TempoUnset,
        ensures
            final(self).wf(),
            apply_outcome(old(self)@, final(self)@, r, event@),
    {
        reveal(apply_spec);
        match event {
            Event::TempoSet { at, to, .. } => {
                match self.tempo_map.set(*at, *to) {
                    Ok(_) => Ok(()),
                    Err(e) => Err(DomainError::Timeline(e)),
                }
            },
            Event::TempoUnset { at, .. } => {
                match self.tempo_map.remove(*at) {
                    Ok(_) => Ok(()),
                    Err(e) => Err(DomainError::Timeline(e)),
                }
            },
            _ => Ok(()),
        }
    }
}

} // verus!
