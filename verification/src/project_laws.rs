//! What the project aggregate promises across operations: replaying the
//! event log reproduces the state, dispatch keeps the consistency invariant
//! and fails only before mutating, and the inverse of a transaction restores
//! the prior state.

use vstd::prelude::*;
use crate::core_types::{ClipId, Tick};
use crate::project_apply::{apply_spec, placed_ids, put_at, set_track};
use crate::project_event::EventView;
use crate::project_plan::{
    bumped, command_fits, count_clip, has_placement, lemma_placing_track, new_track_view,
    placing_track, plan_spec, removed_clips, CommandView,
};
use crate::project_store::{
    clip_positions, drop_clip, first_with_clip, last_match, lemma_first_with_clip, lemma_last_match,
    lemma_marker_index, lemma_sort_markers, lemma_sorted_unique, lemma_track_index,
    lemma_track_index_at, marker_index, sort_markers, track_index,
};
use crate::project_types::{
    markers_sorted, ClipView, DomainErrorView, MarkerView, Placement, ProjectView, TrackView,
};
use crate::project_undo::{inverse_spec, inverse_txn, undo_events};
use crate::timeline::map_wf;

verus! {

broadcast use vstd::seq_lib::group_seq_properties;

// ---------------------------------------------------------------- the invariant

/// Track ids are unique.
pub open spec fn unique_track_ids(ts: Seq<TrackView>) -> bool {
    forall|i: int, j: int|
        0 <= i < ts.len() && 0 <= j < ts.len() && i != j ==> #[trigger] ts[i].id != #[trigger] ts[j].id
}

/// Every placement refers to stored clip content.
pub open spec fn placements_resolve(ts: Seq<TrackView>, clips: Map<u64, ClipView>) -> bool {
    forall|i: int, p: int|
        0 <= i < ts.len() && 0 <= p < ts[i].placements.len() ==> clips.dom().contains(
            #[trigger] ts[i].placements[p].clip.0,
        )
}

/// No clip is placed by two different tracks.
pub open spec fn clips_single_owner(ts: Seq<TrackView>) -> bool {
    forall|i: int, j: int, p: int, q: int|
        0 <= i < ts.len() && 0 <= j < ts.len() && i != j && 0 <= p < ts[i].placements.len() && 0
            <= q < ts[j].placements.len() ==> #[trigger] ts[i].placements[p].clip
            != #[trigger] ts[j].placements[q].clip
}

/// The consistency invariant of a project built through commands: a valid
/// tempo map, unique track ids below the track counter, stored clip ids below
/// the clip counter, every placement resolving to stored content (no dangling
/// references), each clip placed by one track only, and markers sorted.
pub open spec fn proj_inv(s: ProjectView) -> bool {
    &&& map_wf(s.tempo)
    &&& unique_track_ids(s.tracks)
    &&& forall|i: int| 0 <= i < s.tracks.len() ==> #[trigger] s.tracks[i].id < s.next_track
    &&& forall|k: u64| #[trigger] s.clips.dom().contains(k) ==> k < s.next_clip
    &&& placements_resolve(s.tracks, s.clips)
    &&& clips_single_owner(s.tracks)
    &&& markers_sorted(s.markers)
}

/// Folds events in order, stopping at the first one that does not fit.
pub open spec fn apply_seq(s: ProjectView, evs: Seq<EventView>) -> (ProjectView, Option<DomainErrorView>)
    decreases evs.len(),
{
    if evs.len() == 0 {
        (s, None)
    } else {
        let (s1, e) = apply_spec(s, evs[0]);
        if e is Some {
            (s1, e)
        } else {
            apply_seq(s1, evs.drop_first())
        }
    }
}

/// `a` with the id counters of `b`.
pub open spec fn with_counters_of(a: ProjectView, b: ProjectView) -> ProjectView {
    ProjectView { next_track: b.next_track, next_clip: b.next_clip, ..a }
}

// ---------------------------------------------------------------- replay

proof fn lemma_replay_step(s: ProjectView, c: CommandView)
    requires
        command_fits(s, c),
        plan_spec(s, c) is Ok,
    ensures
        apply_spec(s, plan_spec(s, c)->Ok_0) == apply_spec(bumped(s, c), plan_spec(s, c)->Ok_0),
{
    reveal(apply_spec);
    reveal(plan_spec);
    let ev = plan_spec(s, c)->Ok_0;
    match c {
        CommandView::CreateTrack { .. } => {
            assert(apply_spec(s, ev).0 =~= apply_spec(bumped(s, c), ev).0);
        },
        CommandView::InsertClip { track, .. } => {
            let i = track_index(s.tracks, track);
            assert(i < s.tracks.len());
            assert(apply_spec(s, ev).0 =~= apply_spec(bumped(s, c), ev).0);
        },
        _ => {},
    }
}

/// Replaying the events of a run of successful dispatches, starting from the
/// state the run started from, reproduces the state it ended in.
pub proof fn law_replay_reproduces_state(
    states: Seq<ProjectView>,
    cmds: Seq<CommandView>,
    evs: Seq<EventView>,
)
    requires
        states.len() == cmds.len() + 1,
        evs.len() == cmds.len(),
        forall|i: int|
            0 <= i < cmds.len() ==> command_fits(#[trigger] states[i], cmds[i]) && plan_spec(
                states[i],
                cmds[i],
            ) == Ok::<EventView, DomainErrorView>(evs[i]) && apply_spec(
                bumped(states[i], cmds[i]),
                evs[i],
            ) == (states[i + 1], None::<DomainErrorView>),
    ensures
        apply_seq(states[0], evs) == (states.last(), None::<DomainErrorView>),
    decreases cmds.len(),
{
    if cmds.len() > 0 {
        assert(command_fits(states[0], cmds[0]));
        lemma_replay_step(states[0], cmds[0]);
        let st = states.drop_first();
        let cs = cmds.drop_first();
        let es = evs.drop_first();
        assert forall|i: int| 0 <= i < cs.len() implies command_fits(#[trigger] st[i], cs[i])
            && plan_spec(st[i], cs[i]) == Ok::<EventView, DomainErrorView>(es[i]) && apply_spec(
            bumped(st[i], cs[i]),
            es[i],
        ) == (st[i + 1], None::<DomainErrorView>) by {
            assert(st[i] == states[i + 1]);
            assert(command_fits(states[i + 1], cmds[i + 1]));
        }
        law_replay_reproduces_state(st, cs, es);
    }
}

/// A successful dispatch and its events: folding the events that
/// dispatching `c` returned into the state it started from, in order, gives
/// exactly the state it left, id counters included.
pub proof fn law_dispatch_events_replay(
    before: ProjectView,
    after: ProjectView,
    c: CommandView,
    r: Result<Vec<crate::project_event::Event>, crate::project_types::DomainError>,
)
    requires
        command_fits(before, c),
        crate::project_plan::dispatch_outcome(before, after, c, r),
        r is Ok,
    ensures
        apply_seq(before, crate::project_event::events_view(r->Ok_0@)) == (after, None::<DomainErrorView>),
{
    let ev = plan_spec(before, c)->Ok_0;
    assert(plan_spec(before, c) is Ok);
    lemma_replay_step(before, c);
    lemma_apply_seq_single(before, ev);
}

// ---------------------------------------------------------------- helpers

/// With unique ids, a track's id leads back to its own index.
pub proof fn lemma_unique_index(ts: Seq<TrackView>, k: int)
    requires
        unique_track_ids(ts),
        0 <= k < ts.len(),
    ensures
        track_index(ts, ts[k].id) == k,
{
    lemma_track_index(ts, ts[k].id);
    let i = track_index(ts, ts[k].id);
    if i < k {
        assert(ts[i].id == ts[k].id);
    }
}

/// `track_index` only looks at the ids.
proof fn lemma_track_index_ids(a: Seq<TrackView>, b: Seq<TrackView>, id: u64)
    requires
        a.len() == b.len(),
        forall|i: int| 0 <= i < a.len() ==> #[trigger] a[i].id == b[i].id,
    ensures
        track_index(a, id) == track_index(b, id),
{
    lemma_track_index(a, id);
    assert forall|k: int| 0 <= k < track_index(a, id) implies b[k].id != id by {
        assert(a[k].id == b[k].id);
    }
    lemma_track_index_at(b, id, track_index(a, id));
}

/// Whether some placement in `ps` places clip `c`.
pub open spec fn places(ps: Seq<Placement>, c: ClipId) -> bool {
    exists|q: int| 0 <= q < ps.len() && #[trigger] ps[q].clip == c
}

/// Every placement of `new` places a clip that `old` places.
pub open spec fn clips_drawn_from(old: Seq<Placement>, new: Seq<Placement>) -> bool {
    forall|p: int| 0 <= p < new.len() ==> places(old, #[trigger] new[p].clip)
}

/// Replacing a track by one with the same id, placing only clips it already
/// placed, keeps the invariant.
#[verifier::spinoff_prover]
proof fn lemma_inv_set_track(s: ProjectView, i: int, t: TrackView)
    requires
        proj_inv(s),
        0 <= i < s.tracks.len(),
        t.id == s.tracks[i].id,
        clips_drawn_from(s.tracks[i].placements, t.placements),
    ensures
        proj_inv(set_track(s, i, t)),
{
    let ts = set_track(s, i, t).tracks;
    assert forall|a: int| 0 <= a < ts.len() && a != i implies #[trigger] ts[a] == s.tracks[a] by {}
    assert forall|a: int| 0 <= a < ts.len() implies #[trigger] ts[a].id == s.tracks[a].id by {}
    assert(unique_track_ids(ts)) by {
        assert forall|a: int, b: int| 0 <= a < ts.len() && 0 <= b < ts.len() && a != b implies
            #[trigger] ts[a].id != #[trigger] ts[b].id by {
            assert(s.tracks[a].id != s.tracks[b].id);
        }
    }
    assert forall|a: int, p: int| #![trigger ts[a].placements[p]]
        0 <= a < ts.len() && 0 <= p < ts[a].placements.len() implies exists|q: int|
            0 <= q < s.tracks[a].placements.len() && #[trigger] s.tracks[a].placements[q].clip
                == ts[a].placements[p].clip by {
        if a == i {
            assert(ts[a] == t);
            assert(t.placements[p] == ts[a].placements[p]);
            let q = choose|q: int|
                0 <= q < s.tracks[i].placements.len() && s.tracks[i].placements[q].clip
                    == t.placements[p].clip;
            assert(s.tracks[a].placements[q].clip == ts[a].placements[p].clip);
        } else {
            assert(s.tracks[a].placements[p].clip == ts[a].placements[p].clip);
        }
    }
    assert(placements_resolve(ts, s.clips)) by {
        assert forall|a: int, p: int| 0 <= a < ts.len() && 0 <= p < ts[a].placements.len() implies
            s.clips.dom().contains(#[trigger] ts[a].placements[p].clip.0) by {
            let q = choose|q: int|
                0 <= q < s.tracks[a].placements.len() && #[trigger] s.tracks[a].placements[q].clip
                    == ts[a].placements[p].clip;
            assert(s.clips.dom().contains(s.tracks[a].placements[q].clip.0));
        }
    }
    assert(clips_single_owner(ts)) by {
        assert forall|a: int, b: int, p: int, q: int|
            0 <= a < ts.len() && 0 <= b < ts.len() && a != b && 0 <= p < ts[a].placements.len()
                && 0 <= q < ts[b].placements.len() implies #[trigger] ts[a].placements[p].clip
            != #[trigger] ts[b].placements[q].clip by {
            let p0 = choose|x: int|
                0 <= x < s.tracks[a].placements.len() && #[trigger] s.tracks[a].placements[x].clip
                    == ts[a].placements[p].clip;
            let q0 = choose|x: int|
                0 <= x < s.tracks[b].placements.len() && #[trigger] s.tracks[b].placements[x].clip
                    == ts[b].placements[q].clip;
            assert(s.tracks[a].placements[p0].clip != s.tracks[b].placements[q0].clip);
        }
    }
}

proof fn lemma_drawn_from_self(ps: Seq<Placement>)
    ensures
        clips_drawn_from(ps, ps),
{
    assert forall|p: int| 0 <= p < ps.len() implies places(ps, #[trigger] ps[p].clip) by {
        assert(ps[p].clip == ps[p].clip);
    }
}

/// The placements kept by `drop_clip` are placements of other clips.
proof fn lemma_drop_clip_members(ps: Seq<Placement>, c: u64)
    ensures
        drop_clip(ps, c).len() <= ps.len(),
        forall|k: int|
            0 <= k < drop_clip(ps, c).len() ==> exists|j: int|
                0 <= j < ps.len() && ps[j] == #[trigger] drop_clip(ps, c)[k],
        forall|k: int| 0 <= k < drop_clip(ps, c).len() ==> (#[trigger] drop_clip(ps, c)[k]).clip.0 != c,
    decreases ps.len(),
{
    if ps.len() > 0 {
        let d = ps.drop_last();
        lemma_drop_clip_members(d, c);
        let r = drop_clip(ps, c);
        assert forall|k: int| 0 <= k < r.len() implies exists|j: int|
            0 <= j < ps.len() && ps[j] == #[trigger] r[k] by {
            if k < drop_clip(d, c).len() {
                let j = choose|j: int| 0 <= j < d.len() && d[j] == drop_clip(d, c)[k];
                assert(ps[j] == r[k]);
            } else {
                assert(ps[ps.len() - 1] == r[k]);
            }
        }
    }
}

/// Dropping a clip that is not placed changes nothing.
proof fn lemma_drop_absent_clip(ps: Seq<Placement>, c: u64)
    requires
        forall|k: int| 0 <= k < ps.len() ==> (#[trigger] ps[k]).clip.0 != c,
    ensures
        drop_clip(ps, c) == ps,
    decreases ps.len(),
{
    if ps.len() > 0 {
        lemma_drop_absent_clip(ps.drop_last(), c);
        assert(ps.drop_last().push(ps.last()) =~= ps);
    }
}

/// Counting placements of a clip, split at the last element.
proof fn lemma_count_clip_zero(ps: Seq<Placement>, c: u64)
    requires
        count_clip(ps, c) == 0,
    ensures
        forall|k: int| 0 <= k < ps.len() ==> (#[trigger] ps[k]).clip.0 != c,
    decreases ps.len(),
{
    if ps.len() > 0 {
        lemma_count_clip_zero(ps.drop_last(), c);
        assert forall|k: int| 0 <= k < ps.len() implies (#[trigger] ps[k]).clip.0 != c by {
            if k < ps.len() - 1 {
                assert(ps[k] == ps.drop_last()[k]);
            }
        }
    }
}

// ---------------------------------------------------------------- invariant

#[verifier::spinoff_prover]
proof fn lemma_inv_create_track(s: ProjectView, c: CommandView)
    requires
        proj_inv(s),
        command_fits(s, c),
        c is CreateTrack,
        plan_spec(s, c) is Ok,
    ensures
        apply_spec(bumped(s, c), plan_spec(s, c)->Ok_0).1 is None,
        proj_inv(apply_spec(bumped(s, c), plan_spec(s, c)->Ok_0).0),
{
    reveal(apply_spec);
    reveal(plan_spec);
    let ev = plan_spec(s, c)->Ok_0;
    let r = apply_spec(bumped(s, c), ev).0;
    let nt = ev->TrackCreated_track;
    let n = s.tracks.len();
    let k: int = if ev->TrackCreated_index <= n {
        ev->TrackCreated_index as int
    } else {
        n as int
    };
    assert(r.tracks == s.tracks.insert(k, nt));
    let ts = r.tracks;
    assert forall|a: int| 0 <= a < ts.len() && a != k implies #[trigger] ts[a] == s.tracks[if a < k {
        a
    } else {
        a - 1
    }] by {}
    assert(ts[k] == nt);
    assert(nt.placements.len() == 0);
    assert(unique_track_ids(ts)) by {
        assert forall|a: int, b: int| 0 <= a < ts.len() && 0 <= b < ts.len() && a != b implies
            #[trigger] ts[a].id != #[trigger] ts[b].id by {
            let a0 = if a < k { a } else { a - 1 };
            let b0 = if b < k { b } else { b - 1 };
            if a != k && b != k {
                assert(ts[a] == s.tracks[a0] && ts[b] == s.tracks[b0]);
                assert(s.tracks[a0].id != s.tracks[b0].id);
            } else if a != k {
                assert(ts[a] == s.tracks[a0]);
                assert(s.tracks[a0].id < s.next_track);
            } else {
                assert(ts[b] == s.tracks[b0]);
                assert(s.tracks[b0].id < s.next_track);
            }
        }
    }
    assert forall|a: int| 0 <= a < ts.len() implies #[trigger] ts[a].id < r.next_track by {
        if a != k {
            let a0 = if a < k { a } else { a - 1 };
            assert(ts[a] == s.tracks[a0]);
            assert(s.tracks[a0].id < s.next_track);
        }
    }
    assert(placements_resolve(ts, r.clips)) by {
        assert forall|a: int, p: int| 0 <= a < ts.len() && 0 <= p < ts[a].placements.len() implies
            r.clips.dom().contains(#[trigger] ts[a].placements[p].clip.0) by {
            let a0 = if a < k { a } else { a - 1 };
            assert(a != k);
            assert(ts[a] == s.tracks[a0]);
            assert(s.clips.dom().contains(s.tracks[a0].placements[p].clip.0));
        }
    }
    assert(clips_single_owner(ts)) by {
        assert forall|a: int, b: int, p: int, q: int|
            0 <= a < ts.len() && 0 <= b < ts.len() && a != b && 0 <= p < ts[a].placements.len()
                && 0 <= q < ts[b].placements.len() implies #[trigger] ts[a].placements[p].clip
            != #[trigger] ts[b].placements[q].clip by {
            let a0 = if a < k { a } else { a - 1 };
            let b0 = if b < k { b } else { b - 1 };
            assert(a != k && b != k);
            assert(ts[a] == s.tracks[a0] && ts[b] == s.tracks[b0]);
            assert(s.tracks[a0].placements[p].clip != s.tracks[b0].placements[q].clip);
        }
    }
}

#[verifier::spinoff_prover]
proof fn lemma_inv_track_settings(s: ProjectView, c: CommandView)
    requires
        proj_inv(s),
        c is RenameTrack || c is SetTrackGain || c is SetTrackPan || c is SetTrackMute
            || c is AddDevice || c is RemoveDevice,
        plan_spec(s, c) is Ok,
    ensures
        apply_spec(bumped(s, c), plan_spec(s, c)->Ok_0).1 is None,
        proj_inv(apply_spec(bumped(s, c), plan_spec(s, c)->Ok_0).0),
{
    reveal(apply_spec);
    reveal(plan_spec);
    let ev = plan_spec(s, c)->Ok_0;
    let id = match c {
        CommandView::RenameTrack { track, .. } => track,
        CommandView::SetTrackGain { track, .. } => track,
        CommandView::SetTrackPan { track, .. } => track,
        CommandView::SetTrackMute { track, .. } => track,
        CommandView::AddDevice { track, .. } => track,
        CommandView::RemoveDevice { track, .. } => track,
        _ => 0,
    };
    lemma_track_index(s.tracks, id);
    let i = track_index(s.tracks, id);
    assert(bumped(s, c) == s);
    let r = apply_spec(s, ev).0;
    assert(i < s.tracks.len());
    let t = r.tracks[i];
    assert(r == set_track(s, i, t));
    assert(t.placements == s.tracks[i].placements);
    lemma_drawn_from_self(s.tracks[i].placements);
    lemma_inv_set_track(s, i, t);
}

#[verifier::spinoff_prover]
proof fn lemma_inv_remove_track(s: ProjectView, c: CommandView)
    requires
        proj_inv(s),
        c is RemoveTrack,
        plan_spec(s, c) is Ok,
    ensures
        apply_spec(bumped(s, c), plan_spec(s, c)->Ok_0).1 is None,
        proj_inv(apply_spec(bumped(s, c), plan_spec(s, c)->Ok_0).0),
{
    reveal(apply_spec);
    reveal(plan_spec);
    let ev = plan_spec(s, c)->Ok_0;
    let id = c->RemoveTrack_track;
    lemma_track_index(s.tracks, id);
    let i = track_index(s.tracks, id);
    lemma_unique_index(s.tracks, i);
    let r = apply_spec(s, ev).0;
    let ts = r.tracks;
    let gone = placed_ids(s.tracks[i].placements);
    assert(ts == s.tracks.remove(i));
    assert(r.clips == s.clips.remove_keys(gone));
    assert forall|a: int| 0 <= a < ts.len() implies #[trigger] ts[a] == s.tracks[if a < i {
        a
    } else {
        a + 1
    }] by {}
    assert(unique_track_ids(ts)) by {
        assert forall|a: int, b: int| 0 <= a < ts.len() && 0 <= b < ts.len() && a != b implies
            #[trigger] ts[a].id != #[trigger] ts[b].id by {
            let a0 = if a < i { a } else { a + 1 };
            let b0 = if b < i { b } else { b + 1 };
            assert(ts[a] == s.tracks[a0] && ts[b] == s.tracks[b0]);
            assert(s.tracks[a0].id != s.tracks[b0].id);
        }
    }
    assert forall|a: int| 0 <= a < ts.len() implies #[trigger] ts[a].id < r.next_track by {
        let a0 = if a < i { a } else { a + 1 };
        assert(ts[a] == s.tracks[a0]);
        assert(s.tracks[a0].id < s.next_track);
    }
    assert(placements_resolve(ts, r.clips)) by {
        assert forall|a: int, p: int| 0 <= a < ts.len() && 0 <= p < ts[a].placements.len() implies
            r.clips.dom().contains(#[trigger] ts[a].placements[p].clip.0) by {
            let a0 = if a < i { a } else { a + 1 };
            assert(ts[a] == s.tracks[a0]);
            let x = s.tracks[a0].placements[p].clip.0;
            assert(s.clips.dom().contains(x));
            if gone.contains(x) {
                let q = choose|q: int|
                    0 <= q < s.tracks[i].placements.len() && s.tracks[i].placements[q].clip.0 == x;
                assert(s.tracks[a0].placements[p].clip != s.tracks[i].placements[q].clip);
            }
        }
    }
    assert(clips_single_owner(ts)) by {
        assert forall|a: int, b: int, p: int, q: int|
            0 <= a < ts.len() && 0 <= b < ts.len() && a != b && 0 <= p < ts[a].placements.len()
                && 0 <= q < ts[b].placements.len() implies #[trigger] ts[a].placements[p].clip
            != #[trigger] ts[b].placements[q].clip by {
            let a0 = if a < i { a } else { a + 1 };
            let b0 = if b < i { b } else { b + 1 };
            assert(ts[a] == s.tracks[a0] && ts[b] == s.tracks[b0]);
            assert(s.tracks[a0].placements[p].clip != s.tracks[b0].placements[q].clip);
        }
    }
}

#[verifier::spinoff_prover]
proof fn lemma_inv_insert_clip(s: ProjectView, c: CommandView)
    requires
        proj_inv(s),
        command_fits(s, c),
        c is InsertClip,
        plan_spec(s, c) is Ok,
    ensures
        apply_spec(bumped(s, c), plan_spec(s, c)->Ok_0).1 is None,
        proj_inv(apply_spec(bumped(s, c), plan_spec(s, c)->Ok_0).0),
{
    reveal(apply_spec);
    reveal(plan_spec);
    let ev = plan_spec(s, c)->Ok_0;
    let id = c->InsertClip_track;
    lemma_track_index(s.tracks, id);
    let i = track_index(s.tracks, id);
    let n = s.next_clip;
    let b = bumped(s, c);
    assert(b.tracks == s.tracks);
    let r = apply_spec(b, ev).0;
    let ts = r.tracks;
    assert(ts == s.tracks.update(i, ts[i]));
    assert(ts[i].placements == s.tracks[i].placements.push(Placement { clip: ClipId(n), at: c->InsertClip_at }));
    assert(r.clips == s.clips.insert(n, ev->ClipInserted_clip));
    assert(r.next_clip == n + 1);
    assert forall|a: int| 0 <= a < ts.len() implies #[trigger] ts[a].id == s.tracks[a].id by {}
    assert(unique_track_ids(ts)) by {
        assert forall|a: int, b: int| 0 <= a < ts.len() && 0 <= b < ts.len() && a != b implies
            #[trigger] ts[a].id != #[trigger] ts[b].id by {
            assert(s.tracks[a].id != s.tracks[b].id);
        }
    }
    assert forall|a: int| 0 <= a < ts.len() implies #[trigger] ts[a].id < r.next_track by {
        assert(s.tracks[a].id < s.next_track);
    }
    assert forall|k: u64| #[trigger] r.clips.dom().contains(k) implies k < r.next_clip by {
        if k != n {
            assert(s.clips.dom().contains(k));
        }
    }
    // every placement of the old state names a stored clip, hence not the new id
    assert forall|a: int, p: int| 0 <= a < s.tracks.len() && 0 <= p < s.tracks[a].placements.len()
        implies (#[trigger] s.tracks[a].placements[p]).clip.0 != n by {
        assert(s.clips.dom().contains(s.tracks[a].placements[p].clip.0));
    }
    assert(placements_resolve(ts, r.clips)) by {
        assert forall|a: int, p: int| 0 <= a < ts.len() && 0 <= p < ts[a].placements.len() implies
            r.clips.dom().contains(#[trigger] ts[a].placements[p].clip.0) by {
            if a == i && p == s.tracks[i].placements.len() {
            } else {
                assert(ts[a].placements[p] == s.tracks[a].placements[p]);
                assert(s.clips.dom().contains(s.tracks[a].placements[p].clip.0));
            }
        }
    }
    assert(clips_single_owner(ts)) by {
        assert forall|a: int, b: int, p: int, q: int|
            0 <= a < ts.len() && 0 <= b < ts.len() && a != b && 0 <= p < ts[a].placements.len()
                && 0 <= q < ts[b].placements.len() implies #[trigger] ts[a].placements[p].clip
            != #[trigger] ts[b].placements[q].clip by {
            let pa = s.tracks[a].placements.len();
            let pb = s.tracks[b].placements.len();
            if a == i && p == pa {
                assert(ts[b].placements[q] == s.tracks[b].placements[q]);
                assert(s.tracks[b].placements[q].clip.0 != n);
            } else if b == i && q == pb {
                assert(ts[a].placements[p] == s.tracks[a].placements[p]);
                assert(s.tracks[a].placements[p].clip.0 != n);
            } else {
                assert(ts[a].placements[p] == s.tracks[a].placements[p]);
                assert(ts[b].placements[q] == s.tracks[b].placements[q]);
                assert(s.tracks[a].placements[p].clip != s.tracks[b].placements[q].clip);
            }
        }
    }
}

/// The track found by `placing_track`, and the first placement there, place `c`.
proof fn lemma_placing(s: ProjectView, c: u64)
    requires
        proj_inv(s),
        placing_track(s.tracks, c) < s.tracks.len(),
    ensures
        ({
            let k = placing_track(s.tracks, c);
            let ps = s.tracks[k].placements;
            let j = first_with_clip(ps, c);
            &&& 0 <= k
            &&& 0 <= j < ps.len()
            &&& ps[j].clip.0 == c
            &&& track_index(s.tracks, s.tracks[k].id) == k
            &&& places(ps, ClipId(c))
            &&& s.clips.dom().contains(c)
        }),
{
    lemma_placing_track(s.tracks, c);
    let k = placing_track(s.tracks, c);
    let ps = s.tracks[k].placements;
    lemma_first_with_clip(ps, c);
    lemma_unique_index(s.tracks, k);
    let j = first_with_clip(ps, c);
    assert(ps[j].clip == ClipId(c));
    assert(s.clips.dom().contains(s.tracks[k].placements[j].clip.0));
}

#[verifier::spinoff_prover]
proof fn lemma_inv_move_clip(s: ProjectView, clip: u64, at: Tick)
    requires
        proj_inv(s),
        plan_spec(s, CommandView::MoveClip { clip, at }) is Ok,
    ensures
        ({
            let c = CommandView::MoveClip { clip, at };
            &&& apply_spec(bumped(s, c), plan_spec(s, c)->Ok_0).1 is None
            &&& proj_inv(apply_spec(bumped(s, c), plan_spec(s, c)->Ok_0).0)
        }),
{
    let c = CommandView::MoveClip { clip, at };
    let k = placing_track(s.tracks, clip);
    assert(k < s.tracks.len()) by {
        reveal(plan_spec);
    }
    lemma_placing(s, clip);
    let ps = s.tracks[k].placements;
    let j = first_with_clip(ps, clip);
    let ev = EventView::ClipMoved { track: s.tracks[k].id, clip, from: ps[j].at, to: at };
    assert(plan_spec(s, c) == Ok::<EventView, DomainErrorView>(ev) && bumped(s, c) == s) by {
        reveal(plan_spec);
    }
    let t = TrackView { placements: ps.update(j, Placement { clip: ClipId(clip), at }), ..s.tracks[k] };
    assert(apply_spec(s, ev) == (set_track(s, k, t), None::<DomainErrorView>)) by {
        reveal(apply_spec);
    }
    assert forall|p: int| 0 <= p < t.placements.len() implies places(
        ps,
        #[trigger] t.placements[p].clip,
    ) by {
        if p == j {
            assert(ps[j].clip == t.placements[p].clip);
        } else {
            assert(ps[p].clip == t.placements[p].clip);
        }
    }
    lemma_inv_set_track(s, k, t);
}

#[verifier::spinoff_prover]
proof fn lemma_inv_place_clip(s: ProjectView, clip: u64, at: Tick)
    requires
        proj_inv(s),
        plan_spec(s, CommandView::PlaceClip { clip, at }) is Ok,
    ensures
        ({
            let c = CommandView::PlaceClip { clip, at };
            &&& apply_spec(bumped(s, c), plan_spec(s, c)->Ok_0).1 is None
            &&& proj_inv(apply_spec(bumped(s, c), plan_spec(s, c)->Ok_0).0)
        }),
{
    let c = CommandView::PlaceClip { clip, at };
    let k = placing_track(s.tracks, clip);
    assert(k < s.tracks.len()) by {
        reveal(plan_spec);
    }
    lemma_placing(s, clip);
    let ps = s.tracks[k].placements;
    let j = first_with_clip(ps, clip);
    let ev = EventView::ClipPlaced { track: s.tracks[k].id, clip, at, index: None };
    assert(plan_spec(s, c) == Ok::<EventView, DomainErrorView>(ev) && bumped(s, c) == s) by {
        reveal(plan_spec);
    }
    let t = TrackView { placements: ps.push(Placement { clip: ClipId(clip), at }), ..s.tracks[k] };
    assert(apply_spec(s, ev) == (set_track(s, k, t), None::<DomainErrorView>)) by {
        reveal(apply_spec);
    }
    assert forall|p: int| 0 <= p < t.placements.len() implies places(
        ps,
        #[trigger] t.placements[p].clip,
    ) by {
        if p < ps.len() {
            assert(ps[p].clip == t.placements[p].clip);
        } else {
            assert(ps[j].clip == t.placements[p].clip);
        }
    }
    lemma_inv_set_track(s, k, t);
}

#[verifier::spinoff_prover]
proof fn lemma_inv_unplace_clip(s: ProjectView, clip: u64, at: Tick)
    requires
        proj_inv(s),
        plan_spec(s, CommandView::UnplaceClip { clip, at }) is Ok,
    ensures
        ({
            let c = CommandView::UnplaceClip { clip, at };
            &&& apply_spec(bumped(s, c), plan_spec(s, c)->Ok_0).1 is None
            &&& proj_inv(apply_spec(bumped(s, c), plan_spec(s, c)->Ok_0).0)
        }),
{
    let c = CommandView::UnplaceClip { clip, at };
    let k = placing_track(s.tracks, clip);
    assert(k < s.tracks.len()) by {
        reveal(plan_spec);
    }
    lemma_placing(s, clip);
    let ps = s.tracks[k].placements;
    let ev = EventView::ClipUnplaced {
        track: s.tracks[k].id,
        clip,
        at,
        index: Some(last_match(s.tracks[track_index(s.tracks, s.tracks[k].id)].placements, clip, at.0) as usize),
    };
    assert(plan_spec(s, c) == Ok::<EventView, DomainErrorView>(ev) && bumped(s, c) == s) by {
        reveal(plan_spec);
    }
    let j = last_match(ps, clip, at.0);
    lemma_last_match(ps, clip, at.0);
    let nps = if j >= 0 {
        ps.remove(j)
    } else {
        ps
    };
    let t = TrackView { placements: nps, ..s.tracks[k] };
    assert(apply_spec(s, ev) == (set_track(s, k, t), None::<DomainErrorView>)) by {
        reveal(apply_spec);
    }
    assert forall|p: int| 0 <= p < t.placements.len() implies places(
        ps,
        #[trigger] t.placements[p].clip,
    ) by {
        if j >= 0 {
            if p < j {
                assert(ps[p].clip == t.placements[p].clip);
            } else {
                assert(ps[p + 1].clip == t.placements[p].clip);
            }
        } else {
            assert(ps[p].clip == t.placements[p].clip);
        }
    }
    lemma_inv_set_track(s, k, t);
}

#[verifier::spinoff_prover]
proof fn lemma_inv_remove_clip(s: ProjectView, c: CommandView)
    requires
        proj_inv(s),
        c is RemoveClip,
        plan_spec(s, c) is Ok,
    ensures
        apply_spec(bumped(s, c), plan_spec(s, c)->Ok_0).1 is None,
        proj_inv(apply_spec(bumped(s, c), plan_spec(s, c)->Ok_0).0),
{
    let clip = c->RemoveClip_clip;
    let k = placing_track(s.tracks, clip);
    assert(k < s.tracks.len()) by {
        reveal(plan_spec);
    }
    lemma_placing(s, clip);
    let ps = s.tracks[k].placements;
    let j = first_with_clip(ps, clip);
    let ev = EventView::ClipRemoved {
        track: s.tracks[k].id,
        clip_id: clip,
        clip: s.clips[clip],
        at: ps[j].at,
        placements: clip_positions(ps, clip),
    };
    assert(plan_spec(s, c) == Ok::<EventView, DomainErrorView>(ev) && bumped(s, c) == s) by {
        reveal(plan_spec);
    }
    let t = TrackView { placements: drop_clip(ps, clip), ..s.tracks[k] };
    let mid = set_track(s, k, t);
    let r = ProjectView { clips: s.clips.remove(clip), ..mid };
    assert(apply_spec(s, ev) == (r, None::<DomainErrorView>)) by {
        reveal(apply_spec);
    }
    lemma_drop_clip_members(ps, clip);
    assert forall|p: int| 0 <= p < t.placements.len() implies places(
        ps,
        #[trigger] t.placements[p].clip,
    ) by {
        let q = choose|q: int| 0 <= q < ps.len() && ps[q] == t.placements[p];
        assert(ps[q].clip == t.placements[p].clip);
    }
    lemma_inv_set_track(s, k, t);
    let ts = r.tracks;
    assert forall|k2: u64| #[trigger] r.clips.dom().contains(k2) implies k2 < r.next_clip by {
        assert(s.clips.dom().contains(k2));
    }
    assert(placements_resolve(ts, r.clips)) by {
        assert forall|a: int, p: int| 0 <= a < ts.len() && 0 <= p < ts[a].placements.len() implies
            r.clips.dom().contains(#[trigger] ts[a].placements[p].clip.0) by {
            assert(mid.clips.dom().contains(ts[a].placements[p].clip.0));
            if a == k {
                assert(ts[a].placements[p] == drop_clip(ps, clip)[p]);
            } else {
                assert(ts[a].placements[p] == s.tracks[a].placements[p]);
                assert(s.tracks[a].placements[p].clip != s.tracks[k].placements[j].clip);
            }
        }
    }
}

#[verifier::spinoff_prover]
proof fn lemma_inv_markers_tempo(s: ProjectView, c: CommandView)
    requires
        proj_inv(s),
        c is RenameProject || c is AddMarker || c is RemoveMarker || c is SetTempo,
        plan_spec(s, c) is Ok,
    ensures
        apply_spec(bumped(s, c), plan_spec(s, c)->Ok_0).1 is None,
        proj_inv(apply_spec(bumped(s, c), plan_spec(s, c)->Ok_0).0),
{
    reveal(apply_spec);
    reveal(plan_spec);
    let ev = plan_spec(s, c)->Ok_0;
    assert(bumped(s, c) == s);
    let r = apply_spec(s, ev).0;
    match c {
        CommandView::AddMarker { at, name } => {
            lemma_sort_markers(s.markers.push(MarkerView { at, name: crate::text::trim(name) }), r.markers);
        },
        CommandView::RemoveMarker { at, name } => {
            lemma_marker_index(s.markers, at.0, name);
            let j = marker_index(s.markers, at.0, name);
            assert(r.markers == s.markers.remove(j));
            assert forall|a: int, b: int| 0 <= a < b < r.markers.len() implies crate::project_types::marker_le(
                r.markers[a],
                r.markers[b],
            ) by {
                let a0 = if a < j { a } else { a + 1 };
                let b0 = if b < j { b } else { b + 1 };
                assert(r.markers[a] == s.markers[a0] && r.markers[b] == s.markers[b0]);
            }
        },
        CommandView::SetTempo { at, tempo } => {
            crate::timeline::lemma_set_remove_wf(s.tempo, at.0 as int, tempo);
        },
        _ => {},
    }
}

// ---------------------------------------------------------------- the laws

/// Dispatch keeps the consistency invariant (in particular, no command can
/// leave a placement without clip content), and the event of a validated
/// command always folds into the state.
pub proof fn law_dispatch_keeps_invariant(s: ProjectView, c: CommandView)
    requires
        proj_inv(s),
        command_fits(s, c),
    ensures
        plan_spec(s, c) is Ok ==> apply_spec(bumped(s, c), plan_spec(s, c)->Ok_0).1 is None
            && proj_inv(apply_spec(bumped(s, c), plan_spec(s, c)->Ok_0).0),
{
    if plan_spec(s, c) is Ok {
        match c {
            CommandView::CreateTrack { .. } => lemma_inv_create_track(s, c),
            CommandView::RemoveTrack { .. } => lemma_inv_remove_track(s, c),
            CommandView::InsertClip { .. } => lemma_inv_insert_clip(s, c),
            CommandView::RemoveClip { .. } => lemma_inv_remove_clip(s, c),
            CommandView::MoveClip { clip, at } => lemma_inv_move_clip(s, clip, at),
            CommandView::PlaceClip { clip, at } => lemma_inv_place_clip(s, clip, at),
            CommandView::UnplaceClip { clip, at } => lemma_inv_unplace_clip(s, clip, at),
            CommandView::RenameProject { .. } | CommandView::AddMarker { .. }
            | CommandView::RemoveMarker { .. } | CommandView::SetTempo { .. } => lemma_inv_markers_tempo(s, c),
            _ => lemma_inv_track_settings(s, c),
        }
    }
}

/// Under the invariant, a dispatch that fails leaves the state exactly as it was.
pub proof fn law_failed_dispatch_leaves_state(
    before: ProjectView,
    after: ProjectView,
    c: CommandView,
    r: Result<Vec<crate::project_event::Event>, crate::project_types::DomainError>,
)
    requires
        proj_inv(before),
        command_fits(before, c),
        crate::project_plan::dispatch_outcome(before, after, c, r),
        r is Err,
    ensures
        after == before,
{
    law_dispatch_keeps_invariant(before, c);
}

/// Under the invariant, a dispatch that succeeds yields a state that again
/// satisfies the invariant.
pub proof fn law_dispatch_result_consistent(
    before: ProjectView,
    after: ProjectView,
    c: CommandView,
    r: Result<Vec<crate::project_event::Event>, crate::project_types::DomainError>,
)
    requires
        proj_inv(before),
        command_fits(before, c),
        crate::project_plan::dispatch_outcome(before, after, c, r),
    ensures
        proj_inv(after),
{
    law_dispatch_keeps_invariant(before, c);
}

// ---------------------------------------------------------------- undo

/// The lengths of the track list and of every insert chain and placement
/// list fit in `usize`, as they do for any state held in memory.
pub open spec fn lists_fit(s: ProjectView) -> bool {
    &&& s.tracks.len() <= usize::MAX
    &&& forall|i: int| 0 <= i < s.tracks.len() ==> #[trigger] s.tracks[i].inserts.len() <= usize::MAX
    &&& forall|i: int| 0 <= i < s.tracks.len() ==> #[trigger] s.tracks[i].placements.len() <= usize::MAX
}

/// Applying the inverse of the transaction that dispatching `c` produced
/// brings the project back to `s`, up to the id counters (which never go
/// back, so that ids are never reissued).
pub open spec fn undo_outcome(s: ProjectView, c: CommandView) -> bool {
    let ev = plan_spec(s, c)->Ok_0;
    let after = apply_spec(bumped(s, c), ev).0;
    let back = apply_seq(after, inverse_txn(seq![ev]));
    &&& crate::project_undo::txn_restorable(seq![ev])
    &&& back.1 is None
    &&& with_counters_of(back.0, s) == s
}

proof fn lemma_apply_seq_single(s: ProjectView, x: EventView)
    ensures
        apply_seq(s, seq![x]) == apply_spec(s, x),
{
    reveal_with_fuel(apply_seq, 2);
    assert(seq![x].drop_first() =~= Seq::<EventView>::empty());
}

proof fn lemma_apply_seq_cons(s: ProjectView, x: EventView, rest: Seq<EventView>)
    ensures
        apply_seq(s, seq![x] + rest) == (if apply_spec(s, x).1 is Some {
            apply_spec(s, x)
        } else {
            apply_seq(apply_spec(s, x).0, rest)
        }),
{
    assert((seq![x] + rest).drop_first() =~= rest);
}

proof fn lemma_inverse_txn_single(ev: EventView)
    ensures
        inverse_txn(seq![ev]) == undo_events(ev),
{
    reveal_with_fuel(inverse_txn, 2);
    assert(seq![ev].drop_first() =~= Seq::<EventView>::empty());
    assert(Seq::<EventView>::empty() + undo_events(ev) =~= undo_events(ev));
}

/// Undo for a command whose event is inverted by a single event.
proof fn lemma_undo_single(
    s: ProjectView,
    c: CommandView,
    ev: EventView,
    after: ProjectView,
    back: ProjectView,
)
    requires
        plan_spec(s, c) == Ok::<EventView, DomainErrorView>(ev),
        !(ev is TrackRemoved),
        !(ev is ClipRemoved),
        apply_spec(bumped(s, c), ev).0 == after,
        apply_spec(after, inverse_spec(ev)) == (back, None::<DomainErrorView>),
        with_counters_of(back, s) == s,
    ensures
        undo_outcome(s, c),
{
    lemma_inverse_txn_single(ev);
    lemma_apply_seq_single(after, inverse_spec(ev));
    assert(undo_events(ev) == seq![inverse_spec(ev)]);
    assert(crate::project_undo::txn_restorable(seq![ev]));
}

#[verifier::spinoff_prover]
proof fn lemma_undo_rename_project(s: ProjectView, name: Seq<char>)
    requires
        plan_spec(s, CommandView::RenameProject { name }) is Ok,
    ensures
        undo_outcome(s, CommandView::RenameProject { name }),
{
    let c = CommandView::RenameProject { name };
    let n = crate::text::trim(name);
    let ev = EventView::ProjectRenamed { from: s.name, to: n };
    assert(plan_spec(s, c) == Ok::<EventView, DomainErrorView>(ev) && bumped(s, c) == s) by {
        reveal(plan_spec);
    }
    let after = ProjectView { name: n, ..s };
    assert(apply_spec(s, ev).0 == after) by {
        reveal(apply_spec);
    }
    assert(apply_spec(after, inverse_spec(ev)) == (s, None::<DomainErrorView>)) by {
        reveal(apply_spec);
    }
    lemma_undo_single(s, c, ev, after, s);
}

#[verifier::spinoff_prover]
proof fn lemma_undo_create_track(s: ProjectView, name: Seq<char>, kind: crate::project_types::TrackKind)
    requires
        proj_inv(s),
        command_fits(s, CommandView::CreateTrack { name, kind }),
        plan_spec(s, CommandView::CreateTrack { name, kind }) is Ok,
    ensures
        undo_outcome(s, CommandView::CreateTrack { name, kind }),
{
    let c = CommandView::CreateTrack { name, kind };
    let nt = new_track_view(s.next_track, crate::text::trim(name), kind);
    let ev = EventView::TrackCreated { track: nt, index: s.tracks.len() as usize };
    assert(plan_spec(s, c) == Ok::<EventView, DomainErrorView>(ev)) by {
        reveal(plan_spec);
    }
    let b = ProjectView { next_track: (s.next_track + 1) as u64, ..s };
    assert(bumped(s, c) == b);
    let n = s.tracks.len();
    let k: int = if (n as usize) <= n {
        (n as usize) as int
    } else {
        n as int
    };
    let after = ProjectView { tracks: s.tracks.insert(k, nt), ..b };
    assert(apply_spec(b, ev).0 == after) by {
        reveal(apply_spec);
    }
    let ts = after.tracks;
    assert forall|a: int| 0 <= a < k implies ts[a].id != nt.id by {
        assert(ts[a] == s.tracks[a]);
        assert(s.tracks[a].id < s.next_track);
    }
    lemma_track_index_at(ts, nt.id, k);
    assert(ts.remove(k) =~= s.tracks);
    assert(s.clips.remove_keys(placed_ids(nt.placements)) =~= s.clips);
    let back = ProjectView { tracks: s.tracks, ..after };
    assert(apply_spec(after, inverse_spec(ev)) == (back, None::<DomainErrorView>)) by {
        reveal(apply_spec);
    }
    lemma_undo_single(s, c, ev, after, back);
}

/// Replacing a track by one with the same id keeps every `track_index`.
proof fn lemma_track_index_set(s: ProjectView, i: int, t: TrackView, id: u64)
    requires
        0 <= i < s.tracks.len(),
        t.id == s.tracks[i].id,
    ensures
        track_index(set_track(s, i, t).tracks, id) == track_index(s.tracks, id),
{
    let a = set_track(s, i, t).tracks;
    assert forall|k: int| 0 <= k < a.len() implies #[trigger] a[k].id == s.tracks[k].id by {}
    lemma_track_index_ids(a, s.tracks, id);
}

/// Setting a track and then setting it back gives the project back.
proof fn lemma_set_track_back(s: ProjectView, i: int, t: TrackView)
    requires
        0 <= i < s.tracks.len(),
    ensures
        set_track(set_track(s, i, t), i, s.tracks[i]) == s,
{
    assert(set_track(set_track(s, i, t), i, s.tracks[i]).tracks =~= s.tracks);
}

#[verifier::spinoff_prover]
proof fn lemma_undo_track_settings(s: ProjectView, c: CommandView)
    requires
        proj_inv(s),
        lists_fit(s),
        c is RenameTrack || c is SetTrackGain || c is SetTrackPan || c is SetTrackMute
            || c is AddDevice || c is RemoveDevice,
        plan_spec(s, c) is Ok,
    ensures
        undo_outcome(s, c),
{
    let id = match c {
        CommandView::RenameTrack { track, .. } => track,
        CommandView::SetTrackGain { track, .. } => track,
        CommandView::SetTrackPan { track, .. } => track,
        CommandView::SetTrackMute { track, .. } => track,
        CommandView::AddDevice { track, .. } => track,
        CommandView::RemoveDevice { track, .. } => track,
        _ => 0,
    };
    lemma_track_index(s.tracks, id);
    let i = track_index(s.tracks, id);
    assert(i < s.tracks.len() && bumped(s, c) == s) by {
        reveal(plan_spec);
    }
    let t = s.tracks[i];
    let ev = plan_spec(s, c)->Ok_0;
    let t1 = match c {
        CommandView::RenameTrack { name, .. } => TrackView { name: crate::text::trim(name), ..t },
        CommandView::SetTrackGain { gain_db, .. } => TrackView {
            mix: crate::project_types::ChannelStrip { gain_db, ..t.mix },
            ..t
        },
        CommandView::SetTrackPan { pan, .. } => TrackView {
            mix: crate::project_types::ChannelStrip { pan, ..t.mix },
            ..t
        },
        CommandView::SetTrackMute { muted, .. } => TrackView {
            mix: crate::project_types::ChannelStrip { muted, ..t.mix },
            ..t
        },
        CommandView::AddDevice { device, .. } => TrackView {
            inserts: t.inserts.push(device),
            ..t
        },
        CommandView::RemoveDevice { index, .. } => TrackView {
            inserts: t.inserts.remove(index as int),
            ..t
        },
        _ => t,
    };
    assert(t.inserts.len() <= usize::MAX);
    assert(ev == match c {
        CommandView::RenameTrack { name, .. } => EventView::TrackRenamed {
            track: id,
            from: t.name,
            to: crate::text::trim(name),
        },
        CommandView::SetTrackGain { gain_db, .. } => EventView::TrackGainSet {
            track: id,
            from: t.mix.gain_db,
            to: gain_db,
        },
        CommandView::SetTrackPan { pan, .. } => EventView::TrackPanSet {
            track: id,
            from: t.mix.pan,
            to: pan,
        },
        CommandView::SetTrackMute { muted, .. } => EventView::TrackMuteSet {
            track: id,
            from: t.mix.muted,
            to: muted,
        },
        CommandView::AddDevice { device, .. } => EventView::DeviceAdded {
            track: id,
            index: t.inserts.len() as usize,
            device,
        },
        CommandView::RemoveDevice { index, .. } => EventView::DeviceRemoved {
            track: id,
            index,
            device: t.inserts[index as int],
        },
        _ => ev,
    }) by {
        reveal(plan_spec);
    }
    if c is RemoveDevice {
        assert(c->RemoveDevice_index < t.inserts.len()) by {
            reveal(plan_spec);
        }
    }
    if c is AddDevice {
        assert(t.inserts.insert(t.inserts.len() as int, c->AddDevice_device) =~= t.inserts.push(
            c->AddDevice_device,
        ));
    }
    let after = set_track(s, i, t1);
    assert(apply_spec(s, ev).0 == after) by {
        reveal(apply_spec);
    }
    lemma_track_index_set(s, i, t1, id);
    lemma_set_track_back(s, i, t1);
    if c is AddDevice {
        assert(t1.inserts.remove(t.inserts.len() as int) =~= t.inserts);
    }
    if c is RemoveDevice {
        let index = c->RemoveDevice_index;
        assert(t.inserts.remove(index as int).insert(index as int, t.inserts[index as int]) =~= t.inserts);
    }
    assert(apply_spec(after, inverse_spec(ev)) == (s, None::<DomainErrorView>)) by {
        reveal(apply_spec);
    }
    lemma_undo_single(s, c, ev, after, s);
}

/// `first_with_clip` only looks at the clips.
proof fn lemma_first_with_clip_update(ps: Seq<Placement>, c: u64, j: int, p: Placement)
    requires
        0 <= j < ps.len(),
        p.clip == ps[j].clip,
    ensures
        first_with_clip(ps.update(j, p), c) == first_with_clip(ps, c),
{
    lemma_first_with_clip(ps, c);
    let q = ps.update(j, p);
    let f = first_with_clip(ps, c);
    assert forall|k: int| 0 <= k < f implies q[k].clip.0 != c by {
        assert(q[k].clip == ps[k].clip);
    }
    if f < ps.len() {
        assert(q[f].clip == ps[f].clip);
    }
    crate::project_store::lemma_first_with_clip(q, c);
    let g = first_with_clip(q, c);
    if g < f {
        assert(q[g].clip == ps[g].clip);
    }
    if f < g {
        assert(q[f].clip == ps[f].clip);
    }
}

#[verifier::spinoff_prover]
proof fn lemma_undo_insert_clip(
    s: ProjectView,
    track: u64,
    name: Seq<char>,
    pattern: crate::pattern::PatternView,
    at: Tick,
)
    requires
        proj_inv(s),
        command_fits(s, CommandView::InsertClip { track, name, pattern, at }),
        plan_spec(s, CommandView::InsertClip { track, name, pattern, at }) is Ok,
    ensures
        undo_outcome(s, CommandView::InsertClip { track, name, pattern, at }),
{
    let c = CommandView::InsertClip { track, name, pattern, at };
    lemma_track_index(s.tracks, track);
    let i = track_index(s.tracks, track);
    let n = s.next_clip;
    let cv = ClipView { name: crate::text::trim(name), pattern };
    let ev = EventView::ClipInserted { track, clip_id: n, clip: cv, at, index: None };
    assert(i < s.tracks.len() && plan_spec(s, c) == Ok::<EventView, DomainErrorView>(ev)) by {
        reveal(plan_spec);
    }
    let b = ProjectView { next_clip: (n + 1) as u64, ..s };
    assert(bumped(s, c) == b);
    let t = s.tracks[i];
    let t1 = TrackView { placements: t.placements.push(Placement { clip: ClipId(n), at }), ..t };
    let b1 = ProjectView { clips: s.clips.insert(n, cv), ..b };
    let after = set_track(b1, i, t1);
    assert(apply_spec(b, ev).0 == after) by {
        reveal(apply_spec);
    }
    lemma_track_index_set(b1, i, t1, track);
    assert forall|k: int| 0 <= k < t.placements.len() implies (#[trigger] t.placements[k]).clip.0 != n by {
        assert(s.clips.dom().contains(s.tracks[i].placements[k].clip.0));
    }
    lemma_drop_absent_clip(t.placements, n);
    assert(t1.placements.drop_last() =~= t.placements);
    assert(drop_clip(t1.placements, n) == t.placements);
    assert(!s.clips.dom().contains(n));
    assert(s.clips.insert(n, cv).remove(n) =~= s.clips);
    let back = ProjectView { clips: s.clips, ..set_track(b1, i, t) };
    assert(apply_spec(after, inverse_spec(ev)) == (back, None::<DomainErrorView>)) by {
        reveal(apply_spec);
        assert(set_track(after, i, t).tracks =~= set_track(b1, i, t).tracks);
    }
    assert(set_track(b1, i, t).tracks =~= s.tracks);
    lemma_undo_single(s, c, ev, after, back);
}

/// Puts back the placements `qs` of clip `clip`, in order, each at its
/// recorded position.
pub open spec fn put_all(ps: Seq<Placement>, clip: u64, qs: Seq<(usize, Tick)>) -> Seq<Placement>
    decreases qs.len(),
{
    if qs.len() == 0 {
        ps
    } else {
        put_all(
            put_at(ps, Some(qs[0].0), Placement { clip: ClipId(clip), at: qs[0].1 }),
            clip,
            qs.drop_first(),
        )
    }
}

proof fn lemma_put_all_push(ps: Seq<Placement>, clip: u64, qs: Seq<(usize, Tick)>, q: (usize, Tick))
    ensures
        put_all(ps, clip, qs.push(q)) == put_at(
            put_all(ps, clip, qs),
            Some(q.0),
            Placement { clip: ClipId(clip), at: q.1 },
        ),
    decreases qs.len(),
{
    let p = Placement { clip: ClipId(clip), at: q.1 };
    if qs.len() == 0 {
        assert(qs.push(q).drop_first() =~= Seq::<(usize, Tick)>::empty());
        assert(qs.push(q)[0] == q);
        let y = put_at(ps, Some(q.0), p);
        assert(put_all(y, clip, Seq::<(usize, Tick)>::empty()) == y);
        assert(put_all(ps, clip, qs) == ps);
    } else {
        let ps1 = put_at(ps, Some(qs[0].0), Placement { clip: ClipId(clip), at: qs[0].1 });
        assert(qs.push(q).drop_first() =~= qs.drop_first().push(q));
        assert(qs.push(q)[0] == qs[0]);
        lemma_put_all_push(ps1, clip, qs.drop_first(), q);
    }
}

proof fn lemma_put_all_len(ps: Seq<Placement>, clip: u64, qs: Seq<(usize, Tick)>)
    ensures
        put_all(ps, clip, qs).len() == ps.len() + qs.len(),
    decreases qs.len(),
{
    if qs.len() > 0 {
        let ps1 = put_at(ps, Some(qs[0].0), Placement { clip: ClipId(clip), at: qs[0].1 });
        lemma_put_all_len(ps1, clip, qs.drop_first());
    }
}

/// Putting placements back in front of a later one leaves it last.
proof fn lemma_put_all_before(b: Seq<Placement>, x: Placement, clip: u64, qs: Seq<(usize, Tick)>)
    requires
        forall|j: int| 0 <= j < qs.len() ==> (#[trigger] qs[j]).0 <= b.len() + j,
    ensures
        put_all(b.push(x), clip, qs) == put_all(b, clip, qs).push(x),
    decreases qs.len(),
{
    if qs.len() > 0 {
        let p = Placement { clip: ClipId(clip), at: qs[0].1 };
        let i = qs[0].0;
        assert(qs[0].0 <= b.len() + 0);
        let b1 = put_at(b, Some(i), p);
        if i < b.len() {
            assert(b.push(x).insert(i as int, p) =~= b.insert(i as int, p).push(x));
        } else {
            assert(b.push(x).insert(i as int, p) =~= b.push(p).push(x));
        }
        assert(put_at(b.push(x), Some(i), p) == b1.push(x));
        let rest = qs.drop_first();
        assert forall|j: int| 0 <= j < rest.len() implies (#[trigger] rest[j]).0 <= b1.len() + j by {
            assert(rest[j] == qs[j + 1]);
        }
        lemma_put_all_before(b1, x, clip, rest);
    }
}

/// The positions of a clip's placements and the other placements share out
/// the list, and the `j`-th position has at most `j` of the clip's
/// placements and all the others before it.
proof fn lemma_clip_positions(ps: Seq<Placement>, c: u64)
    requires
        ps.len() <= usize::MAX,
    ensures
        drop_clip(ps, c).len() + clip_positions(ps, c).len() == ps.len(),
        forall|j: int|
            0 <= j < clip_positions(ps, c).len() ==> (#[trigger] clip_positions(ps, c)[j]).0 <= drop_clip(ps, c).len() + j,
        (exists|j: int| 0 <= j < ps.len() && ps[j].clip.0 == c) ==> clip_positions(ps, c).len() > 0,
    decreases ps.len(),
{
    if ps.len() > 0 {
        let ps0 = ps.drop_last();
        lemma_clip_positions(ps0, c);
        let q0 = clip_positions(ps0, c);
        let q = clip_positions(ps, c);
        assert forall|j: int| 0 <= j < q.len() implies (#[trigger] q[j]).0 <= drop_clip(ps, c).len() + j by {
            if j < q0.len() {
                assert(q[j] == q0[j]);
                assert(q0[j].0 <= drop_clip(ps0, c).len() + j);
            }
        }
        if exists|j: int| 0 <= j < ps.len() && ps[j].clip.0 == c {
            if ps.last().clip.0 != c {
                let j = choose|j: int| 0 <= j < ps.len() && ps[j].clip.0 == c;
                assert(ps0[j] == ps[j]);
            }
        }
    }
}

/// Removing every placement of a clip and putting them back at their
/// recorded positions gives the list back.
proof fn lemma_put_back_positions(ps: Seq<Placement>, c: u64)
    requires
        ps.len() <= usize::MAX,
    ensures
        put_all(drop_clip(ps, c), c, clip_positions(ps, c)) == ps,
    decreases ps.len(),
{
    if ps.len() > 0 {
        let ps0 = ps.drop_last();
        let x = ps.last();
        lemma_put_back_positions(ps0, c);
        lemma_clip_positions(ps0, c);
        if x.clip.0 == c {
            let q = ((ps.len() - 1) as usize, x.at);
            lemma_put_all_push(drop_clip(ps0, c), c, clip_positions(ps0, c), q);
            assert(Placement { clip: ClipId(c), at: x.at } == x);
            assert(ps0.push(x) =~= ps);
        } else {
            lemma_put_all_before(drop_clip(ps0, c), x, c, clip_positions(ps0, c));
            assert(ps0.push(x) =~= ps);
        }
    }
}

/// Folding the re-placement events into a state puts the placements back on
/// the track and changes nothing else.
proof fn lemma_apply_replace(st: ProjectView, i: int, clip: u64, qs: Seq<(usize, Tick)>)
    requires
        0 <= i < st.tracks.len(),
        track_index(st.tracks, st.tracks[i].id) == i,
    ensures
        apply_seq(st, crate::project_undo::replace_events(st.tracks[i].id, clip, qs)) == (
            set_track(st, i, TrackView { placements: put_all(st.tracks[i].placements, clip, qs), ..st.tracks[i] }),
            None::<DomainErrorView>,
        ),
    decreases qs.len(),
{
    let id = st.tracks[i].id;
    let evs = crate::project_undo::replace_events(id, clip, qs);
    let t = st.tracks[i];
    if qs.len() == 0 {
        assert(evs.len() == 0);
        assert(set_track(st, i, TrackView { placements: t.placements, ..t }).tracks =~= st.tracks);
    } else {
        let x = EventView::ClipPlaced { track: id, clip, at: qs[0].1, index: Some(qs[0].0) };
        assert(evs[0] == x);
        assert(evs.drop_first() =~= crate::project_undo::replace_events(id, clip, qs.drop_first()));
        let p = Placement { clip: ClipId(clip), at: qs[0].1 };
        let t1 = TrackView { placements: put_at(t.placements, Some(qs[0].0), p), ..t };
        let st1 = set_track(st, i, t1);
        assert(apply_spec(st, x) == (st1, None::<DomainErrorView>)) by {
            reveal(apply_spec);
        }
        lemma_track_index_set(st, i, t1, id);
        lemma_apply_replace(st1, i, clip, qs.drop_first());
        assert(set_track(st1, i, TrackView { placements: put_all(t1.placements, clip, qs.drop_first()), ..t1 }).tracks
            =~= set_track(st, i, TrackView { placements: put_all(t.placements, clip, qs), ..t }).tracks);
    }
}

#[verifier::spinoff_prover]
proof fn lemma_undo_remove_clip(s: ProjectView, clip: u64)
    requires
        proj_inv(s),
        lists_fit(s),
        plan_spec(s, CommandView::RemoveClip { clip }) is Ok,
    ensures
        undo_outcome(s, CommandView::RemoveClip { clip }),
{
    let c = CommandView::RemoveClip { clip };
    let k = placing_track(s.tracks, clip);
    assert(k < s.tracks.len()) by {
        reveal(plan_spec);
    }
    lemma_placing(s, clip);
    let t = s.tracks[k];
    let ps = t.placements;
    let j = first_with_clip(ps, clip);
    let cv = s.clips[clip];
    let pos = clip_positions(ps, clip);
    let ev = EventView::ClipRemoved { track: t.id, clip_id: clip, clip: cv, at: ps[j].at, placements: pos };
    assert(plan_spec(s, c) == Ok::<EventView, DomainErrorView>(ev) && bumped(s, c) == s) by {
        reveal(plan_spec);
    }
    let t1 = TrackView { placements: drop_clip(ps, clip), ..t };
    let after = ProjectView { clips: s.clips.remove(clip), ..set_track(s, k, t1) };
    assert(apply_spec(s, ev).0 == after) by {
        reveal(apply_spec);
    }
    assert(ps.len() <= usize::MAX);
    lemma_clip_positions(ps, clip);
    assert(pos.len() > 0);
    lemma_put_back_positions(ps, clip);
    // the inverse: the clip with its first placement, then the others
    let x0 = EventView::ClipInserted { track: t.id, clip_id: clip, clip: cv, at: pos[0].1, index: Some(pos[0].0) };
    let rest = crate::project_undo::replace_events(t.id, clip, pos.drop_first());
    assert(crate::project_undo::txn_restorable(seq![ev]));
    lemma_inverse_txn_single(ev);
    assert(inverse_txn(seq![ev]) == seq![x0] + rest);
    lemma_apply_seq_cons(after, x0, rest);
    lemma_track_index_set(s, k, t1, t.id);
    let nc = if s.next_clip > clip {
        s.next_clip
    } else {
        (clip + 1) as u64
    };
    let p0 = Placement { clip: ClipId(clip), at: pos[0].1 };
    let t2 = TrackView { placements: put_at(drop_clip(ps, clip), Some(pos[0].0), p0), ..t };
    let mid = ProjectView { clips: s.clips.remove(clip).insert(clip, cv), next_clip: nc, ..after };
    let st1 = set_track(mid, k, t2);
    assert(apply_spec(after, x0) == (st1, None::<DomainErrorView>)) by {
        reveal(apply_spec);
    }
    lemma_track_index_set(mid, k, t2, t.id);
    lemma_apply_replace(st1, k, clip, pos.drop_first());
    assert(put_all(drop_clip(ps, clip), clip, pos) == put_all(t2.placements, clip, pos.drop_first()));
    let back = apply_seq(after, inverse_txn(seq![ev]));
    assert(back.0.tracks =~= s.tracks);
    assert(s.clips.remove(clip).insert(clip, cv) =~= s.clips);
    assert(with_counters_of(back.0, s) == s);
}

#[verifier::spinoff_prover]
proof fn lemma_undo_move_clip(s: ProjectView, clip: u64, at: Tick)
    requires
        proj_inv(s),
        plan_spec(s, CommandView::MoveClip { clip, at }) is Ok,
    ensures
        undo_outcome(s, CommandView::MoveClip { clip, at }),
{
    let c = CommandView::MoveClip { clip, at };
    let k = placing_track(s.tracks, clip);
    assert(k < s.tracks.len()) by {
        reveal(plan_spec);
    }
    lemma_placing(s, clip);
    let t = s.tracks[k];
    let ps = t.placements;
    let j = first_with_clip(ps, clip);
    let ev = EventView::ClipMoved { track: t.id, clip, from: ps[j].at, to: at };
    assert(plan_spec(s, c) == Ok::<EventView, DomainErrorView>(ev) && bumped(s, c) == s) by {
        reveal(plan_spec);
    }
    let np = Placement { clip: ClipId(clip), at };
    let t1 = TrackView { placements: ps.update(j, np), ..t };
    let after = set_track(s, k, t1);
    assert(apply_spec(s, ev).0 == after) by {
        reveal(apply_spec);
    }
    lemma_track_index_set(s, k, t1, t.id);
    assert(np.clip == ps[j].clip);
    lemma_first_with_clip_update(ps, clip, j, np);
    assert(ps.update(j, np).update(j, Placement { clip: ClipId(clip), at: ps[j].at }) =~= ps);
    lemma_set_track_back(s, k, t1);
    assert(apply_spec(after, inverse_spec(ev)) == (s, None::<DomainErrorView>)) by {
        reveal(apply_spec);
    }
    lemma_undo_single(s, c, ev, after, s);
}

#[verifier::spinoff_prover]
proof fn lemma_undo_place_clip(s: ProjectView, clip: u64, at: Tick)
    requires
        proj_inv(s),
        plan_spec(s, CommandView::PlaceClip { clip, at }) is Ok,
    ensures
        undo_outcome(s, CommandView::PlaceClip { clip, at }),
{
    let c = CommandView::PlaceClip { clip, at };
    let k = placing_track(s.tracks, clip);
    assert(k < s.tracks.len()) by {
        reveal(plan_spec);
    }
    lemma_placing(s, clip);
    let t = s.tracks[k];
    let ps = t.placements;
    let ev = EventView::ClipPlaced { track: t.id, clip, at, index: None };
    assert(plan_spec(s, c) == Ok::<EventView, DomainErrorView>(ev) && bumped(s, c) == s) by {
        reveal(plan_spec);
    }
    let np = Placement { clip: ClipId(clip), at };
    let t1 = TrackView { placements: ps.push(np), ..t };
    let after = set_track(s, k, t1);
    assert(apply_spec(s, ev).0 == after) by {
        reveal(apply_spec);
    }
    lemma_track_index_set(s, k, t1, t.id);
    lemma_last_match(ps.push(np), clip, at.0);
    assert(last_match(ps.push(np), clip, at.0) == ps.len());
    assert(ps.push(np).remove(ps.len() as int) =~= ps);
    lemma_set_track_back(s, k, t1);
    assert(apply_spec(after, inverse_spec(ev)) == (s, None::<DomainErrorView>)) by {
        reveal(apply_spec);
    }
    lemma_undo_single(s, c, ev, after, s);
}

#[verifier::spinoff_prover]
proof fn lemma_undo_unplace_clip(s: ProjectView, clip: u64, at: Tick)
    requires
        proj_inv(s),
        lists_fit(s),
        plan_spec(s, CommandView::UnplaceClip { clip, at }) is Ok,
    ensures
        undo_outcome(s, CommandView::UnplaceClip { clip, at }),
{
    let c = CommandView::UnplaceClip { clip, at };
    let k = placing_track(s.tracks, clip);
    assert(k < s.tracks.len()) by {
        reveal(plan_spec);
    }
    lemma_placing(s, clip);
    let t = s.tracks[k];
    let ps = t.placements;
    let ev = EventView::ClipUnplaced { track: t.id, clip, at, index: Some(last_match(s.tracks[track_index(s.tracks, t.id)].placements, clip, at.0) as usize) };
    assert(plan_spec(s, c) == Ok::<EventView, DomainErrorView>(ev) && bumped(s, c) == s) by {
        reveal(plan_spec);
    }
    let j = last_match(ps, clip, at.0);
    lemma_last_match(ps, clip, at.0);
    assert(has_placement(ps, clip, at.0)) by {
        reveal(plan_spec);
    }
    let w = choose|w: int| 0 <= w < ps.len() && ps[w].clip.0 == clip && ps[w].at.0 == at.0;
    assert(j >= w);
    assert(ps.len() <= usize::MAX);
    let t1 = TrackView { placements: ps.remove(j), ..t };
    let after = set_track(s, k, t1);
    assert(apply_spec(s, ev).0 == after) by {
        reveal(apply_spec);
    }
    lemma_track_index_set(s, k, t1, t.id);
    assert(ps[j] == Placement { clip: ClipId(clip), at });
    if j < ps.len() - 1 {
        assert(ps.remove(j).insert(j, Placement { clip: ClipId(clip), at }) =~= ps);
    } else {
        assert(ps.remove(j).push(Placement { clip: ClipId(clip), at }) =~= ps);
    }
    lemma_set_track_back(s, k, t1);
    assert(apply_spec(after, inverse_spec(ev)) == (s, None::<DomainErrorView>)) by {
        reveal(apply_spec);
    }
    lemma_undo_single(s, c, ev, after, s);
}

#[verifier::spinoff_prover]
proof fn lemma_undo_add_marker(s: ProjectView, at: Tick, name: Seq<char>)
    requires
        proj_inv(s),
        plan_spec(s, CommandView::AddMarker { at, name }) is Ok,
    ensures
        undo_outcome(s, CommandView::AddMarker { at, name }),
{
    let c = CommandView::AddMarker { at, name };
    let n = crate::text::trim(name);
    let m = MarkerView { at, name: n };
    let ev = EventView::MarkerAdded { at, name: n };
    assert(plan_spec(s, c) == Ok::<EventView, DomainErrorView>(ev) && bumped(s, c) == s) by {
        reveal(plan_spec);
    }
    let ms = s.markers;
    let sorted = sort_markers(ms.push(m));
    let after = ProjectView { markers: sorted, ..s };
    assert(apply_spec(s, ev).0 == after) by {
        reveal(apply_spec);
    }
    lemma_sort_markers(ms.push(m), sorted);
    ms.to_multiset_ensures();
    ms.push(m).to_multiset_ensures();
    sorted.to_multiset_ensures();
    assert(sorted.to_multiset().count(m) > 0);
    assert(sorted.contains(m));
    let w = choose|w: int| 0 <= w < sorted.len() && sorted[w] == m;
    lemma_marker_index(sorted, at.0, n);
    let j = marker_index(sorted, at.0, n);
    assert(j <= w);
    assert(j < sorted.len());
    assert(sorted[j] == m);
    let rest = sorted.remove(j);
    assert(rest.to_multiset() =~= ms.to_multiset());
    assert(markers_sorted(rest)) by {
        assert forall|a: int, b: int| 0 <= a < b < rest.len() implies crate::project_types::marker_le(
            rest[a],
            rest[b],
        ) by {
            let a0 = if a < j { a } else { a + 1 };
            let b0 = if b < j { b } else { b + 1 };
            assert(rest[a] == sorted[a0] && rest[b] == sorted[b0]);
        }
    }
    lemma_sorted_unique(rest, ms);
    assert(apply_spec(after, inverse_spec(ev)) == (s, None::<DomainErrorView>)) by {
        reveal(apply_spec);
    }
    lemma_undo_single(s, c, ev, after, s);
}

#[verifier::spinoff_prover]
proof fn lemma_undo_remove_marker(s: ProjectView, at: Tick, name: Seq<char>)
    requires
        proj_inv(s),
        plan_spec(s, CommandView::RemoveMarker { at, name }) is Ok,
    ensures
        undo_outcome(s, CommandView::RemoveMarker { at, name }),
{
    let c = CommandView::RemoveMarker { at, name };
    let ms = s.markers;
    let j = marker_index(ms, at.0, name);
    let ev = EventView::MarkerRemoved { at, name };
    assert(j < ms.len() && plan_spec(s, c) == Ok::<EventView, DomainErrorView>(ev) && bumped(s, c)
        == s) by {
        reveal(plan_spec);
    }
    lemma_marker_index(ms, at.0, name);
    let after = ProjectView { markers: ms.remove(j), ..s };
    assert(apply_spec(s, ev).0 == after) by {
        reveal(apply_spec);
    }
    let m = MarkerView { at, name };
    assert(ms[j] == m);
    let x = ms.remove(j).push(m);
    ms.to_multiset_ensures();
    ms.remove(j).to_multiset_ensures();
    assert(x.to_multiset() =~= ms.to_multiset());
    lemma_sort_markers(x, ms);
    assert(apply_spec(after, inverse_spec(ev)) == (s, None::<DomainErrorView>)) by {
        reveal(apply_spec);
    }
    lemma_undo_single(s, c, ev, after, s);
}

#[verifier::spinoff_prover]
proof fn lemma_undo_set_tempo(s: ProjectView, at: Tick, tempo: crate::core_types::Tempo)
    requires
        proj_inv(s),
        plan_spec(s, CommandView::SetTempo { at, tempo }) is Ok,
    ensures
        undo_outcome(s, CommandView::SetTempo { at, tempo }),
{
    let c = CommandView::SetTempo { at, tempo };
    let from = crate::timeline::entry_at(s.tempo, at.0 as int);
    let ev = EventView::TempoSet { at, from, to: tempo };
    assert(at.0 >= 0 && plan_spec(s, c) == Ok::<EventView, DomainErrorView>(ev) && bumped(s, c)
        == s) by {
        reveal(plan_spec);
    }
    let t1 = crate::timeline::set_entry(s.tempo, at.0 as int, tempo);
    let after = ProjectView { tempo: t1, ..s };
    assert(apply_spec(s, ev).0 == after) by {
        reveal(apply_spec);
    }
    match from {
        Some(prev) => {
            crate::timeline::lemma_set_existing_then_restore(s.tempo, at.0 as int, tempo);
            assert(apply_spec(after, inverse_spec(ev)) == (s, None::<DomainErrorView>)) by {
                reveal(apply_spec);
            }
        },
        None => {
            if at.0 == 0 {
                crate::timeline::lemma_count_lt_prefix(s.tempo, 0);
                assert(crate::timeline::count_lt(s.tempo, 0) == 0);
            }
            crate::timeline::lemma_set_fresh_then_remove(s.tempo, at.0 as int, tempo);
            assert(apply_spec(after, inverse_spec(ev)) == (s, None::<DomainErrorView>)) by {
                reveal(apply_spec);
            }
        },
    }
    lemma_undo_single(s, c, ev, after, s);
}

/// The clip insertions that put back the placements `q` on track `id`.
pub open spec fn restore_tail(id: u64, q: Seq<Placement>, content: Map<u64, ClipView>) -> Seq<EventView> {
    q.map_values(
        |p: Placement|
            EventView::ClipInserted { track: id, clip_id: p.clip.0, clip: content[p.clip.0], at: p.at, index: None },
    )
}

/// Re-inserting placements one by one appends them to the track and stores
/// their clip content.
#[verifier::spinoff_prover]
proof fn lemma_restore_placements(st: ProjectView, i: int, q: Seq<Placement>, content: Map<u64, ClipView>)
    requires
        0 <= i < st.tracks.len(),
        track_index(st.tracks, st.tracks[i].id) == i,
        forall|k: int| 0 <= k < q.len() ==> content.dom().contains(#[trigger] q[k].clip.0),
    ensures
        ({
            let r = apply_seq(st, restore_tail(st.tracks[i].id, q, content));
            &&& r.1 is None
            &&& r.0.tracks == st.tracks.update(
                i,
                TrackView { placements: st.tracks[i].placements + q, ..st.tracks[i] },
            )
            &&& r.0.clips == st.clips.union_prefer_right(content.restrict(placed_ids(q)))
            &&& r.0 == ProjectView { tracks: r.0.tracks, clips: r.0.clips, next_clip: r.0.next_clip, ..st }
        }),
    decreases q.len(),
{
    let id = st.tracks[i].id;
    let tail = restore_tail(id, q, content);
    if q.len() == 0 {
        assert(tail.len() == 0);
        assert(st.tracks.update(i, TrackView { placements: st.tracks[i].placements + q, ..st.tracks[i] })
            =~= st.tracks);
        assert(placed_ids(q) =~= Set::<u64>::empty());
        assert(st.clips.union_prefer_right(content.restrict(placed_ids(q))) =~= st.clips);
    } else {
        let q0 = q[0];
        let x = EventView::ClipInserted { track: id, clip_id: q0.clip.0, clip: content[q0.clip.0], at: q0.at, index: None };
        assert(tail[0] == x);
        let rest = q.drop_first();
        assert(tail.drop_first() =~= restore_tail(id, rest, content));
        let t = st.tracks[i];
        let t1 = TrackView { placements: t.placements.push(q0), ..t };
        let nc = if st.next_clip > q0.clip.0 {
            st.next_clip
        } else {
            (q0.clip.0 + 1) as u64
        };
        let s1 = ProjectView { clips: st.clips.insert(q0.clip.0, content[q0.clip.0]), next_clip: nc, ..st };
        let st1 = set_track(s1, i, t1);
        assert(Placement { clip: ClipId(q0.clip.0), at: q0.at } == q0);
        assert(apply_spec(st, x) == (st1, None::<DomainErrorView>)) by {
            reveal(apply_spec);
        }
        lemma_track_index_set(s1, i, t1, id);
        assert forall|k: int| 0 <= k < rest.len() implies content.dom().contains(#[trigger] rest[k].clip.0) by {
            assert(rest[k] == q[k + 1]);
        }
        lemma_restore_placements(st1, i, rest, content);
        assert(content.dom().contains(q[0].clip.0));
        assert(t1.placements + rest =~= t.placements + q);
        assert(st1.tracks.update(i, TrackView { placements: t1.placements + rest, ..t1 }) =~= st.tracks.update(
            i,
            TrackView { placements: t.placements + q, ..t },
        ));
        assert(placed_ids(q) =~= placed_ids(rest).insert(q0.clip.0)) by {
            assert forall|k: u64| placed_ids(q).contains(k) implies placed_ids(rest).insert(q0.clip.0).contains(k) by {
                let w = choose|w: int| 0 <= w < q.len() && q[w].clip.0 == k;
                if w > 0 {
                    assert(rest[w - 1] == q[w]);
                }
            }
            assert forall|k: u64| placed_ids(rest).insert(q0.clip.0).contains(k) implies placed_ids(q).contains(k) by {
                if k != q0.clip.0 {
                    let w = choose|w: int| 0 <= w < rest.len() && rest[w].clip.0 == k;
                    assert(q[w + 1] == rest[w]);
                } else {
                    assert(q[0].clip.0 == k);
                }
            }
        }
        assert(st1.clips.union_prefer_right(content.restrict(placed_ids(rest))) =~= st.clips.union_prefer_right(
            content.restrict(placed_ids(q)),
        ));
    }
}

#[verifier::spinoff_prover]
proof fn lemma_undo_remove_track(s: ProjectView, id: u64)
    requires
        proj_inv(s),
        lists_fit(s),
        plan_spec(s, CommandView::RemoveTrack { track: id }) is Ok,
    ensures
        undo_outcome(s, CommandView::RemoveTrack { track: id }),
{
    let c = CommandView::RemoveTrack { track: id };
    lemma_track_index(s.tracks, id);
    let i = track_index(s.tracks, id);
    assert(i < s.tracks.len()) by {
        reveal(plan_spec);
    }
    lemma_unique_index(s.tracks, i);
    let t = s.tracks[i];
    let ps = t.placements;
    let pids = placed_ids(ps);
    let cl = removed_clips(ps, s.clips);
    let ev = EventView::TrackRemoved { track: t, index: i as usize, clips: cl };
    assert(plan_spec(s, c) == Ok::<EventView, DomainErrorView>(ev) && bumped(s, c) == s) by {
        reveal(plan_spec);
    }
    let after = ProjectView { tracks: s.tracks.remove(i), clips: s.clips.remove_keys(pids), ..s };
    assert(apply_spec(s, ev).0 == after) by {
        reveal(apply_spec);
    }
    // every placed clip has its content in the removed list
    assert forall|k: int| 0 <= k < ps.len() implies crate::project_undo::clip_entry_index(
        cl,
        #[trigger] ps[k].clip.0,
    ) < cl.len() && cl[crate::project_undo::clip_entry_index(cl, ps[k].clip.0)].1 == s.clips[ps[k].clip.0] by {
        crate::project_undo::lemma_clip_entry_index(cl, ps[k].clip.0);
        let e = crate::project_undo::clip_entry_index(cl, ps[k].clip.0);
        if e >= cl.len() {
            assert(cl[k].0 == ps[k].clip.0);
        }
        assert(cl[e] == (ps[e].clip.0, s.clips[ps[e].clip.0]));
    }
    assert(crate::project_undo::txn_restorable(seq![ev]));
    // the inverse: the shell, then each placement with its content
    let shell = TrackView { placements: Seq::empty(), ..t };
    let created = EventView::TrackCreated { track: shell, index: i as usize };
    let tail = restore_tail(t.id, ps, s.clips);
    assert(crate::project_undo::restore_events(t, i as usize, cl) =~= seq![created] + tail);
    lemma_inverse_txn_single(ev);
    assert(inverse_txn(seq![ev]) == seq![created] + tail);
    let nt = if s.next_track > t.id {
        s.next_track
    } else {
        (t.id + 1) as u64
    };
    let s0 = ProjectView { tracks: s.tracks.update(i, shell), next_track: nt, ..after };
    assert(s.tracks.remove(i).insert(i, shell) =~= s.tracks.update(i, shell));
    assert(apply_spec(after, created) == (s0, None::<DomainErrorView>)) by {
        reveal(apply_spec);
    }
    lemma_apply_seq_cons(after, created, tail);
    assert(s0.tracks[i] == shell);
    assert forall|k: int| 0 <= k < s0.tracks.len() implies #[trigger] s0.tracks[k].id == s.tracks[k].id by {}
    lemma_track_index_ids(s0.tracks, s.tracks, t.id);
    assert forall|k: int| 0 <= k < ps.len() implies s.clips.dom().contains(#[trigger] ps[k].clip.0) by {
        assert(s.clips.dom().contains(s.tracks[i].placements[k].clip.0));
    }
    lemma_restore_placements(s0, i, ps, s.clips);
    let back = apply_seq(s0, tail);
    assert(Seq::<Placement>::empty() + ps =~= ps);
    assert(back.0.tracks =~= s.tracks);
    assert(pids.subset_of(s.clips.dom())) by {
        assert forall|x: u64| pids.contains(x) implies s.clips.dom().contains(x) by {
            let w = choose|w: int| 0 <= w < ps.len() && ps[w].clip.0 == x;
            assert(s.clips.dom().contains(s.tracks[i].placements[w].clip.0));
        }
    }
    assert(back.0.clips =~= s.clips);
}

// ---------------------------------------------------------------- undo law

/// Undo: applying the inverse of the transaction a validated command
/// produced brings the project back to the state before the command, up to
/// the id counters, which are never handed out twice. This holds of every
/// command.
pub proof fn law_undo_restores_prior_state(s: ProjectView, c: CommandView)
    requires
        proj_inv(s),
        lists_fit(s),
        command_fits(s, c),
        plan_spec(s, c) is Ok,
    ensures
        undo_outcome(s, c),
{
    match c {
        CommandView::RenameProject { name } => lemma_undo_rename_project(s, name),
        CommandView::CreateTrack { name, kind } => lemma_undo_create_track(s, name, kind),
        CommandView::RemoveTrack { track } => lemma_undo_remove_track(s, track),
        CommandView::InsertClip { track, name, pattern, at } => lemma_undo_insert_clip(
            s,
            track,
            name,
            pattern,
            at,
        ),
        CommandView::RemoveClip { clip } => lemma_undo_remove_clip(s, clip),
        CommandView::MoveClip { clip, at } => lemma_undo_move_clip(s, clip, at),
        CommandView::PlaceClip { clip, at } => lemma_undo_place_clip(s, clip, at),
        CommandView::UnplaceClip { clip, at } => lemma_undo_unplace_clip(s, clip, at),
        CommandView::AddMarker { at, name } => lemma_undo_add_marker(s, at, name),
        CommandView::RemoveMarker { at, name } => lemma_undo_remove_marker(s, at, name),
        CommandView::SetTempo { at, tempo } => lemma_undo_set_tempo(s, at, tempo),
        _ => lemma_undo_track_settings(s, c),
    }
}

} // verus!
