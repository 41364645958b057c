//! Inverting events and transactions: the basis of undo.

use vstd::prelude::*;
use crate::core_types::{ClipId, Tick, TrackId};
use crate::project_event::{clip_list_view, events_view, Event, EventView};
use crate::project_types::{devices_view, Clip, ClipView, Placement, Track, TrackView};
use crate::text::copy_string;

verus! {

broadcast use vstd::seq_lib::group_seq_properties;

/// The event that undoes `e`. A removed track gets back only its shell, and
/// a removed clip only its first placement: the rest comes back from the
/// transaction inverse ([`undo_events`]).
pub open spec fn inverse_spec(e: EventView) -> EventView {
    match e {
        EventView::ProjectRenamed { from, to } => EventView::ProjectRenamed { from: to, to: from },
        EventView::TrackCreated { track, index } => EventView::TrackRemoved {
            track,
            index,
            clips: Seq::empty(),
        },
        EventView::TrackRenamed { track, from, to } => EventView::TrackRenamed {
            track,
            from: to,
            to: from,
        },
        EventView::TrackRemoved { track, index, .. } => EventView::TrackCreated { track, index },
        EventView::ClipInserted { track, clip_id, clip, at, index } => EventView::ClipRemoved {
            track,
            clip_id,
            clip,
            at,
            placements: match index {
                Some(i) => seq![(i, at)],
                None => Seq::empty(),
            },
        },
        EventView::ClipRemoved { track, clip_id, clip, at, placements } => if placements.len() > 0 {
            EventView::ClipInserted {
                track,
                clip_id,
                clip,
                at: placements[0].1,
                index: Some(placements[0].0),
            }
        } else {
            EventView::ClipInserted { track, clip_id, clip, at, index: None }
        },
        EventView::ClipMoved { track, clip, from, to } => EventView::ClipMoved {
            track,
            clip,
            from: to,
            to: from,
        },
        EventView::ClipPlaced { track, clip, at, index } => EventView::ClipUnplaced { track, clip, at, index },
        EventView::ClipUnplaced { track, clip, at, index } => EventView::ClipPlaced { track, clip, at, index },
        EventView::MarkerAdded { at, name } => EventView::MarkerRemoved { at, name },
        EventView::MarkerRemoved { at, name } => EventView::MarkerAdded { at, name },
        EventView::TrackGainSet { track, from, to } => EventView::TrackGainSet {
            track,
            from: to,
            to: from,
        },
        EventView::TrackPanSet { track, from, to } => EventView::TrackPanSet {
            track,
            from: to,
            to: from,
        },
        EventView::TrackMuteSet { track, from, to } => EventView::TrackMuteSet {
            track,
            from: to,
            to: from,
        },
        EventView::DeviceAdded { track, index, device } => EventView::DeviceRemoved {
            track,
            index,
            device,
        },
        EventView::DeviceRemoved { track, index, device } => EventView::DeviceAdded {
            track,
            index,
            device,
        },
        EventView::TempoSet { at, from, to } => match from {
            Some(prev) => EventView::TempoSet { at, from: Some(to), to: prev },
            None => EventView::TempoUnset { at, tempo: to },
        },
        EventView::TempoUnset { at, tempo } => EventView::TempoSet { at, from: None, to: tempo },
    }
}

/// Index of the first removed clip with id `id` (the length when none).
pub open spec fn clip_entry_index(cs: Seq<(u64, ClipView)>, id: u64) -> int
    decreases cs.len(),
{
    if cs.len() == 0 {
        0
    } else if cs[0].0 == id {
        0
    } else {
        1 + clip_entry_index(cs.drop_first(), id)
    }
}

/// The events that rebuild a removed track: its shell, then each placement
/// with its clip content.
pub open spec fn restore_events(
    track: TrackView,
    index: usize,
    clips: Seq<(u64, ClipView)>,
) -> Seq<EventView> {
    seq![EventView::TrackCreated { track: TrackView { placements: Seq::empty(), ..track }, index }]
        + track.placements.map_values(
        |p: Placement|
            EventView::ClipInserted {
                track: track.id,
                clip_id: p.clip.0,
                clip: clips[clip_entry_index(clips, p.clip.0)].1,
                at: p.at,
                index: None,
            },
    )
}

/// The events that put back the placements of a removed clip after the
/// first: each at its former position, in list order.
pub open spec fn replace_events(track: u64, clip: u64, qs: Seq<(usize, Tick)>) -> Seq<EventView> {
    qs.map_values(|q: (usize, Tick)| EventView::ClipPlaced { track, clip, at: q.1, index: Some(q.0) })
}

/// The events that undo one event of a transaction.
pub open spec fn undo_events(e: EventView) -> Seq<EventView> {
    match e {
        EventView::TrackRemoved { track, index, clips } => restore_events(track, index, clips),
        EventView::ClipRemoved { track, clip_id, placements, .. } => if placements.len() > 0 {
            seq![inverse_spec(e)] + replace_events(track, clip_id, placements.drop_first())
        } else {
            seq![inverse_spec(e)]
        },
        _ => seq![inverse_spec(e)],
    }
}

/// The inverse of a transaction: each event undone, last event first.
pub open spec fn inverse_txn(evs: Seq<EventView>) -> Seq<EventView>
    decreases evs.len(),
{
    if evs.len() == 0 {
        Seq::empty()
    } else {
        inverse_txn(evs.drop_first()) + undo_events(evs[0])
    }
}

/// Every removed track in the transaction carries the content of each clip it placed.
pub open spec fn txn_restorable(evs: Seq<EventView>) -> bool {
    forall|i: int|
        0 <= i < evs.len() ==> match #[trigger] evs[i] {
            EventView::TrackRemoved { track, clips, .. } => forall|k: int|
                0 <= k < track.placements.len() ==> clip_entry_index(
                    clips,
                    #[trigger] track.placements[k].clip.0,
                ) < clips.len(),
            _ => true,
        }
}

pub proof fn lemma_clip_entry_index(cs: Seq<(u64, ClipView)>, id: u64)
    ensures
        0 <= clip_entry_index(cs, id) <= cs.len(),
        forall|k: int| 0 <= k < clip_entry_index(cs, id) ==> cs[k].0 != id,
        clip_entry_index(cs, id) < cs.len() ==> cs[clip_entry_index(cs, id)].0 == id,
    decreases cs.len(),
{
    if cs.len() > 0 && cs[0].0 != id {
        lemma_clip_entry_index(cs.drop_first(), id);
        assert forall|k: int| 0 <= k < clip_entry_index(cs, id) implies cs[k].0 != id by {
            if k > 0 {
                assert(cs[k] == cs.drop_first()[k - 1]);
            }
        }
    }
}

proof fn lemma_clip_entry_index_at(cs: Seq<(u64, ClipView)>, id: u64, i: int)
    requires
        0 <= i <= cs.len(),
        forall|k: int| 0 <= k < i ==> cs[k].0 != id,
        i < cs.len() ==> cs[i].0 == id,
    ensures
        clip_entry_index(cs, id) == i,
    decreases cs.len(),
{
    if cs.len() > 0 && i > 0 {
        assert forall|k: int| 0 <= k < i - 1 implies cs.drop_first()[k].0 != id by {
            assert(cs.drop_first()[k] == cs[k + 1]);
        }
        lemma_clip_entry_index_at(cs.drop_first(), id, i - 1);
    }
}

/// Finds the first removed clip with the given id.
fn find_clip_entry(cs: &Vec<(ClipId, Clip)>, id: ClipId) -> (r: usize)
    ensures
        r == clip_entry_index(clip_list_view(cs@), id.0),
{
    let ghost v = clip_list_view(cs@);
    let mut i: usize = 0;
    while i < cs.len() && cs[i].0.0 != id.0
        invariant
            i <= cs.len(),
            v == clip_list_view(cs@),
            forall|k: int| 0 <= k < i ==> v[k].0 != id.0,
        decreases cs.len() - i,
    {
        i += 1;
    }
    proof {
        lemma_clip_entry_index_at(v, id.0, i as int);
    }
    i
}

/// Appends the events that rebuild a removed track.
fn push_restore_events(out: &mut Vec<Event>, track: &Track, index: usize, clips: &Vec<(ClipId, Clip)>)
    requires
        forall|k: int|
            0 <= k < track.placements@.len() ==> clip_entry_index(
                clip_list_view(clips@),
                #[trigger] track.placements@[k].clip.0,
            ) < clips@.len(),
    ensures
        events_view(final(out)@) == events_view(old(out)@) + restore_events(
            track@,
            index,
            clip_list_view(clips@),
        ),
{
    let ghost cv = clip_list_view(clips@);
    let ghost start = events_view(out@);
    let shell = Track {
        id: track.id,
        name: copy_string(&track.name),
        kind: track.kind,
        mix: track.mix,
        inserts: crate::project_types::copy_devices(&track.inserts),
        placements: Vec::new(),
    };
    let ghost first = EventView::TrackCreated {
        track: TrackView { placements: Seq::empty(), ..track@ },
        index,
    };
    let created = Event::TrackCreated { track: shell, index };
    proof {
        assert(created@ == first);
        assert(events_view(out@.push(created)) =~= events_view(out@).push(first));
    }
    out.push(created);
    let ghost tail = track@.placements.map_values(
        |p: Placement|
            EventView::ClipInserted {
                track: track@.id,
                clip_id: p.clip.0,
                clip: cv[clip_entry_index(cv, p.clip.0)].1,
                at: p.at,
                index: None,
            },
    );
    let mut k: usize = 0;
    while k < track.placements.len()
        invariant
            k <= track.placements.len(),
            cv == clip_list_view(clips@),
            forall|j: int|
                0 <= j < track.placements@.len() ==> clip_entry_index(
                    cv,
                    #[trigger] track.placements@[j].clip.0,
                ) < clips@.len(),
            events_view(out@) == start + seq![first] + tail.subrange(0, k as int),
            tail.len() == track.placements@.len(),
            forall|j: int| 0 <= j < tail.len() ==> #[trigger] tail[j] == (EventView::ClipInserted {
                track: track@.id,
                clip_id: track.placements@[j].clip.0,
                clip: cv[clip_entry_index(cv, track.placements@[j].clip.0)].1,
                at: track.placements@[j].at,
                index: None,
            }),
        decreases track.placements.len() - k,
    {
        let p = track.placements[k];
        let i = find_clip_entry(clips, p.clip);
        assert(cv[i as int] == (clips@[i as int].0.0, clips@[i as int].1@));
        let c = clips[i].1.copy();
        let ev = Event::ClipInserted { track: track.id, clip_id: p.clip, clip: c, at: p.at, index: None };
        proof {
            assert(ev@ == tail[k as int]);
            assert(events_view(out@.push(ev)) =~= events_view(out@).push(ev@));
            assert(tail.subrange(0, k + 1) =~= tail.subrange(0, k as int).push(tail[k as int]));
        }
        out.push(ev);
        k += 1;
    }
    proof {
        assert(tail.subrange(0, tail.len() as int) =~= tail);
        assert(start + seq![first] + tail =~= start + (seq![first] + tail));
    }
}

/// Appends the events that put back the placements of a removed clip after
/// the first.
fn push_replace_events(out: &mut Vec<Event>, track: TrackId, clip: ClipId, placements: &Vec<(usize, Tick)>)
    requires
        placements@.len() > 0,
    ensures
        events_view(final(out)@) == events_view(old(out)@) + replace_events(track.0, clip.0, placements@.drop_first()),
{
    let ghost start = events_view(out@);
    let ghost tail = replace_events(track.0, clip.0, placements@.drop_first());
    let mut k: usize = 1;
    assert(tail.subrange(0, 0) =~= Seq::<EventView>::empty());
    while k < placements.len()
        invariant
            1 <= k <= placements@.len(),
            tail == replace_events(track.0, clip.0, placements@.drop_first()),
            events_view(out@) == start + tail.subrange(0, k - 1),
        decreases placements.len() - k,
    {
        let q = placements[k];
        let ev = Event::ClipPlaced { track, clip, at: q.1, index: Some(q.0) };
        proof {
            assert(placements@.drop_first()[k - 1] == q);
            assert(ev@ == tail[k - 1]);
            assert(events_view(out@.push(ev)) =~= events_view(out@).push(ev@));
            assert(tail.subrange(0, k as int) =~= tail.subrange(0, k - 1).push(tail[k - 1]));
        }
        out.push(ev);
        k += 1;
    }
    assert(tail.subrange(0, tail.len() as int) =~= tail);
}

impl Event {
    /// The event that undoes this one. A removed track gets back only its
    /// shell, and a removed clip only its first placement: the rest comes
    /// back from [`Event::inverse_transaction`].
    pub fn inverse(&self) -> (r: Event)
        ensures
            r@ == inverse_spec(self@),
    {
        match self {
            Event::ProjectRenamed { from, to } => Event::ProjectRenamed {
                from: copy_string(to),
                to: copy_string(from),
            },
            Event::TrackCreated { track, index } => {
                let clips: Vec<(ClipId, Clip)> = Vec::new();
                assert(clip_list_view(clips@) =~= Seq::<(u64, ClipView)>::empty());
                Event::TrackRemoved { track: track.copy(), index: *index, clips }
            },
            Event::TrackRenamed { track, from, to } => Event::TrackRenamed {
                track: *track,
                from: copy_string(to),
                to: copy_string(from),
            },
            Event::TrackRemoved { track, index, .. } => Event::TrackCreated {
                track: track.copy(),
                index: *index,
            },
            Event::ClipInserted { track, clip_id, clip, at, index } => {
                let mut placements: Vec<(usize, Tick)> = Vec::new();
                match index {
                    Some(i) => placements.push((*i, *at)),
                    None => {},
                }
                proof {
                    match index {
                        Some(i) => assert(placements@ =~= seq![(*i, *at)]),
                        None => assert(placements@ =~= Seq::<(usize, Tick)>::empty()),
                    }
                }
                Event::ClipRemoved { track: *track, clip_id: *clip_id, clip: clip.copy(), at: *at, placements }
            },
            Event::ClipRemoved { track, clip_id, clip, at, placements } => if placements.len() > 0 {
                Event::ClipInserted {
                    track: *track,
                    clip_id: *clip_id,
                    clip: clip.copy(),
                    at: placements[0].1,
                    index: Some(placements[0].0),
                }
            } else {
                Event::ClipInserted { track: *track, clip_id: *clip_id, clip: clip.copy(), at: *at, index: None }
            },
            Event::ClipMoved { track, clip, from, to } => Event::ClipMoved {
                track: *track,
                clip: *clip,
                from: *to,
                to: *from,
            },
            Event::ClipPlaced { track, clip, at, index } => Event::ClipUnplaced {
                track: *track,
                clip: *clip,
                at: *at,
                index: *index,
            },
            Event::ClipUnplaced { track, clip, at, index } => Event::ClipPlaced {
                track: *track,
                clip: *clip,
                at: *at,
                index: *index,
            },
            Event::MarkerAdded { at, name } => Event::MarkerRemoved { at: *at, name: copy_string(name) },
            Event::MarkerRemoved { at, name } => Event::MarkerAdded { at: *at, name: copy_string(name) },
            Event::DeviceAdded { track, index, device } => Event::DeviceRemoved {
                track: *track,
                index: *index,
                device: device.copy(),
            },
            Event::DeviceRemoved { track, index, device } => Event::DeviceAdded {
                track: *track,
                index: *index,
                device: device.copy(),
            },
            Event::TrackGainSet { track, from, to } => Event::TrackGainSet {
                track: *track,
                from: *to,
                to: *from,
            },
            Event::TrackPanSet { track, from, to } => Event::TrackPanSet {
                track: *track,
                from: *to,
                to: *from,
            },
            Event::TrackMuteSet { track, from, to } => Event::TrackMuteSet {
                track: *track,
                from: *to,
                to: *from,
            },
            Event::TempoSet { at, from, to } => match from {
                Some(prev) => Event::TempoSet { at: *at, from: Some(*to), to: *prev },
                None => Event::TempoUnset { at: *at, tempo: *to },
            },
            Event::TempoUnset { at, tempo } => Event::TempoSet { at: *at, from: None, to: *tempo },
        }
    }

    /// Inverse of a whole transaction: each event inverted, in reverse order,
    /// with a removed track's clips and a removed clip's further placements
    /// put back where they were.
    pub fn inverse_transaction(events: &[Event]) -> (r: Vec<Event>)
        requires
            txn_restorable(events_view(events@)),
        ensures
            events_view(r@) == inverse_txn(events_view(events@)),
    {
        let ghost evs = events_view(events@);
        let mut out: Vec<Event> = Vec::new();
        let mut i: usize = events.len();
        assert(evs.subrange(i as int, evs.len() as int) =~= Seq::<EventView>::empty());
        assert(events_view(out@) =~= Seq::<EventView>::empty());
        while i > 0
            invariant
                i <= events@.len(),
                evs == events_view(events@),
                txn_restorable(evs),
                events_view(out@) == inverse_txn(evs.subrange(i as int, evs.len() as int)),
            decreases i,
        {
            let ghost before = events_view(out@);
            let ghost e = evs[i - 1];
            assert(e == events@[i - 1]@);
            match &events[i - 1] {
                Event::TrackRemoved { track, index, clips } => {
                    assert(match evs[i - 1] {
                        EventView::TrackRemoved { track, clips, .. } => forall|k: int|
                            0 <= k < track.placements.len() ==> clip_entry_index(
                                clips,
                                #[trigger] track.placements[k].clip.0,
                            ) < clips.len(),
                        _ => true,
                    });
                    push_restore_events(&mut out, track, *index, clips);
                },
                Event::ClipRemoved { track, clip_id, placements, .. } => {
                    let inv = events[i - 1].inverse();
                    proof {
                        assert(events_view(out@.push(inv)) =~= events_view(out@).push(inv@));
                    }
                    out.push(inv);
                    if placements.len() > 0 {
                        push_replace_events(&mut out, *track, *clip_id, placements);
                    }
                    proof {
                        if placements@.len() > 0 {
                            assert(undo_events(e) =~= seq![inv@] + replace_events(track.0, clip_id.0, placements@.drop_first()));
                        } else {
                            assert(undo_events(e) =~= seq![inv@]);
                        }
                    }
                },
                other => {
                    let inv = other.inverse();
                    proof {
                        assert(events_view(out@.push(inv)) =~= events_view(out@).push(inv@));
                        assert(undo_events(e) =~= seq![inv@]);
                    }
                    out.push(inv);
                },
            }
            proof {
                let suffix = evs.subrange(i - 1, evs.len() as int);
                assert(suffix.drop_first() =~= evs.subrange(i as int, evs.len() as int));
                assert(suffix[0] == e);
                assert(events_view(out@) == before + undo_events(e));
            }
            i -= 1;
        }
        assert(evs.subrange(0, evs.len() as int) =~= evs);
        out
    }
}

} // verus!
