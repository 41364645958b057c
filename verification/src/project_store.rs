//! Collections inside the project aggregate: the track list, the clip map,
//! placements, and markers.

use std::collections::BTreeMap;
use vstd::prelude::*;
use vstd::relations::{sorted_by, total_ordering};
use crate::core_types::{ClipId, Tick, TrackId};
use crate::project_types::{
    clips_map, devices_view, marker_le, markers_sorted, markers_view, tracks_view,
    Clip, ClipView, Device, Marker, MarkerView, Placement, Track, TrackView,
};
use crate::text::{compare_text, lemma_seq_lt_asymmetric, lemma_seq_lt_irreflexive,
    lemma_seq_lt_total, lemma_seq_lt_transitive, seq_lt};

verus! {

broadcast use vstd::seq_lib::group_seq_properties, vstd::multiset::group_multiset_axioms;

// ---------------------------------------------------------------- tracks

/// Index of the first track with id `id` (the length when there is none).
pub open spec fn track_index(ts: Seq<TrackView>, id: u64) -> int
    decreases ts.len(),
{
    if ts.len() == 0 {
        0
    } else if ts[0].id == id {
        0
    } else {
        1 + track_index(ts.drop_first(), id)
    }
}

/// The characterisation of `track_index`.
pub proof fn lemma_track_index(ts: Seq<TrackView>, id: u64)
    ensures
        0 <= track_index(ts, id) <= ts.len(),
        forall|k: int| 0 <= k < track_index(ts, id) ==> ts[k].id != id,
        track_index(ts, id) < ts.len() ==> ts[track_index(ts, id)].id == id,
    decreases ts.len(),
{
    if ts.len() > 0 && ts[0].id != id {
        lemma_track_index(ts.drop_first(), id);
        assert forall|k: int| 0 <= k < track_index(ts, id) implies ts[k].id != id by {
            if k > 0 {
                assert(ts[k] == ts.drop_first()[k - 1]);
            }
        }
    }
}

/// `track_index` is determined by the first match.
pub proof fn lemma_track_index_at(ts: Seq<TrackView>, id: u64, i: int)
    requires
        0 <= i <= ts.len(),
        forall|k: int| 0 <= k < i ==> ts[k].id != id,
        i < ts.len() ==> ts[i].id == id,
    ensures
        track_index(ts, id) == i,
    decreases ts.len(),
{
    if ts.len() > 0 && i > 0 {
        assert forall|k: int| 0 <= k < i - 1 implies ts.drop_first()[k].id != id by {
            assert(ts.drop_first()[k] == ts[k + 1]);
        }
        lemma_track_index_at(ts.drop_first(), id, i - 1);
    }
}

/// Finds the first track with the given id.
pub fn find_track(tracks: &Vec<Track>, id: TrackId) -> (r: usize)
    ensures
        r == track_index(tracks_view(tracks@), id.0),
        r <= tracks@.len(),
{
    let mut i: usize = 0;
    while i < tracks.len() && tracks[i].id.0 != id.0
        invariant
            i <= tracks.len(),
            forall|k: int| 0 <= k < i ==> tracks_view(tracks@)[k].id != id.0,
        decreases tracks.len() - i,
    {
        i += 1;
    }
    proof {
        lemma_track_index_at(tracks_view(tracks@), id.0, i as int);
    }
    i
}

/// Views of track-list edits.
pub proof fn lemma_tracks_view_edits(ts: Seq<Track>, i: int, t: Track)
    ensures
        0 <= i <= ts.len() ==> tracks_view(ts.insert(i, t)) == tracks_view(ts).insert(i, t@),
        0 <= i < ts.len() ==> tracks_view(ts.remove(i)) == tracks_view(ts).remove(i),
        0 <= i < ts.len() ==> tracks_view(ts.update(i, t)) == tracks_view(ts).update(i, t@),
        tracks_view(ts.push(t)) == tracks_view(ts).push(t@),
{
    if 0 <= i <= ts.len() {
        assert(tracks_view(ts.insert(i, t)) =~= tracks_view(ts).insert(i, t@));
    }
    if 0 <= i < ts.len() {
        assert(tracks_view(ts.remove(i)) =~= tracks_view(ts).remove(i));
        assert(tracks_view(ts.update(i, t)) =~= tracks_view(ts).update(i, t@));
    }
    assert(tracks_view(ts.push(t)) =~= tracks_view(ts).push(t@));
}

/// Views of device-list edits.
pub proof fn lemma_devices_view_edits(ds: Seq<Device>, i: int, d: Device)
    ensures
        0 <= i <= ds.len() ==> devices_view(ds.insert(i, d)) == devices_view(ds).insert(i, d@),
        0 <= i < ds.len() ==> devices_view(ds.remove(i)) == devices_view(ds).remove(i),
{
    if 0 <= i <= ds.len() {
        assert(devices_view(ds.insert(i, d)) =~= devices_view(ds).insert(i, d@));
    }
    if 0 <= i < ds.len() {
        assert(devices_view(ds.remove(i)) =~= devices_view(ds).remove(i));
    }
}

// ---------------------------------------------------------------- placements

/// The placements whose clip is not `c`, in order.
pub open spec fn drop_clip(ps: Seq<Placement>, c: u64) -> Seq<Placement>
    decreases ps.len(),
{
    if ps.len() == 0 {
        Seq::empty()
    } else if ps.last().clip.0 == c {
        drop_clip(ps.drop_last(), c)
    } else {
        drop_clip(ps.drop_last(), c).push(ps.last())
    }
}

/// The placements of clip `c`, in list order, each as its position in `ps`
/// and its timeline position.
pub open spec fn clip_positions(ps: Seq<Placement>, c: u64) -> Seq<(usize, Tick)>
    decreases ps.len(),
{
    if ps.len() == 0 {
        Seq::empty()
    } else if ps.last().clip.0 == c {
        clip_positions(ps.drop_last(), c).push(((ps.len() - 1) as usize, ps.last().at))
    } else {
        clip_positions(ps.drop_last(), c)
    }
}

/// Index of the first placement of clip `c` (the length when there is none).
pub open spec fn first_with_clip(ps: Seq<Placement>, c: u64) -> int
    decreases ps.len(),
{
    if ps.len() == 0 {
        0
    } else if ps[0].clip.0 == c {
        0
    } else {
        1 + first_with_clip(ps.drop_first(), c)
    }
}

/// Index of the last placement of clip `c` at `at` (−1 when there is none).
pub open spec fn last_match(ps: Seq<Placement>, c: u64, at: i64) -> int
    decreases ps.len(),
{
    if ps.len() == 0 {
        -1
    } else if ps.last().clip.0 == c && ps.last().at.0 == at {
        ps.len() - 1
    } else {
        last_match(ps.drop_last(), c, at)
    }
}

/// The characterisation of `first_with_clip`.
pub proof fn lemma_first_with_clip(ps: Seq<Placement>, c: u64)
    ensures
        0 <= first_with_clip(ps, c) <= ps.len(),
        forall|k: int| 0 <= k < first_with_clip(ps, c) ==> ps[k].clip.0 != c,
        first_with_clip(ps, c) < ps.len() ==> ps[first_with_clip(ps, c)].clip.0 == c,
    decreases ps.len(),
{
    if ps.len() > 0 && ps[0].clip.0 != c {
        lemma_first_with_clip(ps.drop_first(), c);
        assert forall|k: int| 0 <= k < first_with_clip(ps, c) implies ps[k].clip.0 != c by {
            if k > 0 {
                assert(ps[k] == ps.drop_first()[k - 1]);
            }
        }
    }
}

proof fn lemma_first_with_clip_at(ps: Seq<Placement>, c: u64, i: int)
    requires
        0 <= i <= ps.len(),
        forall|k: int| 0 <= k < i ==> ps[k].clip.0 != c,
        i < ps.len() ==> ps[i].clip.0 == c,
    ensures
        first_with_clip(ps, c) == i,
    decreases ps.len(),
{
    if ps.len() > 0 && i > 0 {
        assert forall|k: int| 0 <= k < i - 1 implies ps.drop_first()[k].clip.0 != c by {
            assert(ps.drop_first()[k] == ps[k + 1]);
        }
        lemma_first_with_clip_at(ps.drop_first(), c, i - 1);
    }
}

/// The characterisation of `last_match`.
pub proof fn lemma_last_match(ps: Seq<Placement>, c: u64, at: i64)
    ensures
        -1 <= last_match(ps, c, at) < ps.len(),
        forall|k: int| last_match(ps, c, at) < k < ps.len() ==> !(ps[k].clip.0 == c && ps[k].at.0 == at),
        last_match(ps, c, at) >= 0 ==> ps[last_match(ps, c, at)].clip.0 == c && ps[last_match(ps, c, at)].at.0 == at,
    decreases ps.len(),
{
    if ps.len() > 0 && !(ps.last().clip.0 == c && ps.last().at.0 == at) {
        lemma_last_match(ps.drop_last(), c, at);
        assert forall|k: int| last_match(ps, c, at) < k < ps.len() implies !(ps[k].clip.0 == c && ps[k].at.0 == at) by {
            if k < ps.len() - 1 {
                assert(ps[k] == ps.drop_last()[k]);
            }
        }
    }
}

proof fn lemma_last_match_at(ps: Seq<Placement>, c: u64, at: i64, i: int)
    requires
        -1 <= i < ps.len(),
        forall|k: int| i < k < ps.len() ==> !(ps[k].clip.0 == c && ps[k].at.0 == at),
        i >= 0 ==> ps[i].clip.0 == c && ps[i].at.0 == at,
    ensures
        last_match(ps, c, at) == i,
    decreases ps.len(),
{
    if ps.len() > 0 && i < ps.len() - 1 {
        lemma_last_match_at(ps.drop_last(), c, at, i);
    }
}

/// Removes every placement of clip `c`.
pub fn retain_other_clips(ps: &Vec<Placement>, c: ClipId) -> (r: Vec<Placement>)
    ensures
        r@ == drop_clip(ps@, c.0),
{
    let mut r: Vec<Placement> = Vec::new();
    let mut i: usize = 0;
    while i < ps.len()
        invariant
            i <= ps.len(),
            r@ == drop_clip(ps@.subrange(0, i as int), c.0),
        decreases ps.len() - i,
    {
        proof {
            assert(ps@.subrange(0, i + 1).drop_last() =~= ps@.subrange(0, i as int));
        }
        if ps[i].clip.0 != c.0 {
            r.push(ps[i]);
        }
        i += 1;
    }
    assert(ps@.subrange(0, ps.len() as int) =~= ps@);
    r
}

/// The placements of clip `c` with their positions in the list.
pub fn positions_of_clip(ps: &Vec<Placement>, c: ClipId) -> (r: Vec<(usize, Tick)>)
    ensures
        r@ == clip_positions(ps@, c.0),
{
    let mut r: Vec<(usize, Tick)> = Vec::new();
    let mut i: usize = 0;
    while i < ps.len()
        invariant
            i <= ps.len(),
            r@ == clip_positions(ps@.subrange(0, i as int), c.0),
        decreases ps.len() - i,
    {
        proof {
            assert(ps@.subrange(0, i + 1).drop_last() =~= ps@.subrange(0, i as int));
        }
        if ps[i].clip.0 == c.0 {
            r.push((i, ps[i].at));
        }
        i += 1;
    }
    assert(ps@.subrange(0, ps.len() as int) =~= ps@);
    r
}

/// Finds the first placement of clip `c`.
pub fn find_first_clip(ps: &Vec<Placement>, c: ClipId) -> (r: usize)
    ensures
        r == first_with_clip(ps@, c.0),
        r <= ps@.len(),
{
    let mut i: usize = 0;
    while i < ps.len() && ps[i].clip.0 != c.0
        invariant
            i <= ps.len(),
            forall|k: int| 0 <= k < i ==> ps@[k].clip.0 != c.0,
        decreases ps.len() - i,
    {
        i += 1;
    }
    proof {
        lemma_first_with_clip_at(ps@, c.0, i as int);
    }
    i
}

/// Finds the last placement of clip `c` at `at`.
pub fn find_last_match(ps: &Vec<Placement>, c: ClipId, at: Tick) -> (r: Option<usize>)
    ensures
        r matches Some(i) ==> i == last_match(ps@, c.0, at.0),
        r is None <==> last_match(ps@, c.0, at.0) == -1,
{
    let mut i: usize = ps.len();
    while i > 0 && !(ps[i - 1].clip.0 == c.0 && ps[i - 1].at.0 == at.0)
        invariant
            i <= ps.len(),
            forall|k: int| i <= k < ps.len() ==> !(ps@[k].clip.0 == c.0 && ps@[k].at.0 == at.0),
        decreases i,
    {
        i -= 1;
    }
    proof {
        lemma_last_match_at(ps@, c.0, at.0, i - 1);
    }
    if i == 0 {
        None
    } else {
        Some(i - 1)
    }
}

// ---------------------------------------------------------------- clip map

/// Looks up the clip with id `id`.
pub fn clips_get<'a>(c: &'a BTreeMap<u64, Clip>, id: ClipId) -> (r: Option<&'a Clip>)
    ensures
        r is Some <==> clips_map(c@).dom().contains(id.0),
        r matches Some(x) ==> x@ == clips_map(c@)[id.0],
{
    c.get(&id.0)
}

/// Stores `clip` under `id`, replacing any clip stored there.
pub fn clips_insert(c: &mut BTreeMap<u64, Clip>, id: ClipId, clip: Clip)
    ensures
        clips_map(final(c)@) == clips_map(old(c)@).insert(id.0, clip@),
{
    let ghost cv = clip@;
    let _ = c.insert(id.0, clip);
    assert(clips_map(c@) =~= clips_map(old(c)@).insert(id.0, cv));
}

/// Removes the clip stored under `id`, if any.
pub fn clips_remove(c: &mut BTreeMap<u64, Clip>, id: ClipId)
    ensures
        clips_map(final(c)@) == clips_map(old(c)@).remove(id.0),
{
    let _ = c.remove(&id.0);
    assert(clips_map(c@) =~= clips_map(old(c)@).remove(id.0));
}

// ---------------------------------------------------------------- markers

/// The marker order as a relation.
pub open spec fn marker_leq() -> spec_fn(MarkerView, MarkerView) -> bool {
    |a: MarkerView, b: MarkerView| marker_le(a, b)
}

/// The marker order is a total order.
pub proof fn lemma_marker_order()
    ensures
        total_ordering(marker_leq()),
{
    assert forall|x: MarkerView| #[trigger] marker_leq()(x, x) by {
        lemma_seq_lt_irreflexive(x.name);
    }
    assert forall|x: MarkerView, y: MarkerView| #[trigger] marker_leq()(x, y) && #[trigger] marker_leq()(y, x) implies x == y by {
        if x.at.0 == y.at.0 {
            lemma_seq_lt_total(x.name, y.name);
        }
    }
    assert forall|x: MarkerView, y: MarkerView, z: MarkerView| #[trigger] marker_leq()(x, y) && #[trigger] marker_leq()(y, z) implies marker_leq()(x, z) by {
        if x.at.0 == y.at.0 && y.at.0 == z.at.0 {
            lemma_seq_lt_total(x.name, y.name);
            lemma_seq_lt_total(y.name, z.name);
            if seq_lt(x.name, y.name) && seq_lt(y.name, z.name) {
                lemma_seq_lt_transitive(x.name, y.name, z.name);
            }
            if seq_lt(z.name, x.name) {
                if x.name == y.name {
                } else if y.name == z.name {
                } else {
                    lemma_seq_lt_transitive(x.name, y.name, z.name);
                    lemma_seq_lt_asymmetric(x.name, z.name);
                }
            }
        }
    }
    assert forall|x: MarkerView, y: MarkerView| #[trigger] marker_leq()(x, y) || #[trigger] marker_leq()(y, x) by {
        lemma_seq_lt_total(x.name, y.name);
        if seq_lt(x.name, y.name) {
            lemma_seq_lt_asymmetric(x.name, y.name);
        }
    }
}

/// Markers sorted, in the relation form.
proof fn lemma_sorted_forms(m: Seq<MarkerView>)
    ensures
        markers_sorted(m) <==> sorted_by(m, marker_leq()),
{
    if markers_sorted(m) {
        assert forall|i: int, j: int| 0 <= i < j < m.len() implies #[trigger] marker_leq()(m[i], m[j]) by {
            assert(marker_le(m[i], m[j]));
        }
    }
    if sorted_by(m, marker_leq()) {
        assert forall|i: int, j: int| 0 <= i < j < m.len() implies marker_le(m[i], m[j]) by {
            assert(marker_leq()(m[i], m[j]));
        }
    }
}

/// A sorted sequence is determined by its elements.
pub proof fn lemma_sorted_unique(a: Seq<MarkerView>, b: Seq<MarkerView>)
    requires
        markers_sorted(a),
        markers_sorted(b),
        a.to_multiset() == b.to_multiset(),
    ensures
        a == b,
    decreases a.len(),
{
    a.to_multiset_ensures();
    b.to_multiset_ensures();
    lemma_marker_order();
    if a.len() == 0 {
        assert(b.len() == 0);
        assert(a =~= b);
    } else {
        assert(b.len() == a.len());
        assert(a.contains(a[0]));
        assert(b.to_multiset().count(a[0]) > 0);
        assert(b.contains(a[0]));
        assert(b.contains(b[0]));
        assert(a.to_multiset().count(b[0]) > 0);
        assert(a.contains(b[0]));
        let i = choose|i: int| 0 <= i < b.len() && b[i] == a[0];
        let j = choose|j: int| 0 <= j < a.len() && a[j] == b[0];
        if i > 0 {
            assert(marker_le(b[0], b[i]));
        }
        if j > 0 {
            assert(marker_le(a[0], a[j]));
        }
        assert(marker_leq()(b[0], a[0]));
        assert(marker_leq()(a[0], b[0]));
        assert(a[0] == b[0]);
        let a1 = a.remove(0);
        let b1 = b.remove(0);
        assert(a1.to_multiset() == a.to_multiset().remove(a[0]));
        assert(b1.to_multiset() == b.to_multiset().remove(b[0]));
        assert forall|x: int, y: int| 0 <= x < y < a1.len() implies marker_le(a1[x], a1[y]) by {
            assert(a1[x] == a[x + 1] && a1[y] == a[y + 1]);
        }
        assert forall|x: int, y: int| 0 <= x < y < b1.len() implies marker_le(b1[x], b1[y]) by {
            assert(b1[x] == b[x + 1] && b1[y] == b[y + 1]);
        }
        lemma_sorted_unique(a1, b1);
        assert(a =~= seq![a[0]] + a1);
        assert(b =~= seq![b[0]] + b1);
    }
}

/// The canonical sorted arrangement of a marker sequence.
pub open spec fn sort_markers(m: Seq<MarkerView>) -> Seq<MarkerView> {
    m.sort_by(marker_leq())
}

/// The canonical arrangement is sorted and holds the same markers; any
/// sorted arrangement of the same markers is it.
pub proof fn lemma_sort_markers(m: Seq<MarkerView>, r: Seq<MarkerView>)
    ensures
        markers_sorted(sort_markers(m)),
        sort_markers(m).to_multiset() == m.to_multiset(),
        markers_sorted(r) && r.to_multiset() == m.to_multiset() ==> r == sort_markers(m),
{
    lemma_marker_order();
    m.lemma_sort_by_ensures(marker_leq());
    lemma_sorted_forms(sort_markers(m));
    if markers_sorted(r) && r.to_multiset() == m.to_multiset() {
        lemma_sorted_unique(r, sort_markers(m));
    }
}

/// Index of the first marker at `at` named `name` (the length when none).
pub open spec fn marker_index(m: Seq<MarkerView>, at: i64, name: Seq<char>) -> int
    decreases m.len(),
{
    if m.len() == 0 {
        0
    } else if m[0].at.0 == at && m[0].name == name {
        0
    } else {
        1 + marker_index(m.drop_first(), at, name)
    }
}

proof fn lemma_marker_index_at(m: Seq<MarkerView>, at: i64, name: Seq<char>, i: int)
    requires
        0 <= i <= m.len(),
        forall|k: int| 0 <= k < i ==> !(m[k].at.0 == at && m[k].name == name),
        i < m.len() ==> m[i].at.0 == at && m[i].name == name,
    ensures
        marker_index(m, at, name) == i,
    decreases m.len(),
{
    if m.len() > 0 && i > 0 {
        assert forall|k: int| 0 <= k < i - 1 implies !(m.drop_first()[k].at.0 == at && m.drop_first()[k].name == name) by {
            assert(m.drop_first()[k] == m[k + 1]);
        }
        lemma_marker_index_at(m.drop_first(), at, name, i - 1);
    }
}

/// The characterisation of `marker_index`.
pub proof fn lemma_marker_index(m: Seq<MarkerView>, at: i64, name: Seq<char>)
    ensures
        0 <= marker_index(m, at, name) <= m.len(),
        forall|k: int| 0 <= k < marker_index(m, at, name) ==> !(m[k].at.0 == at && m[k].name == name),
        marker_index(m, at, name) < m.len() ==> m[marker_index(m, at, name)].at.0 == at && m[marker_index(m, at, name)].name == name,
    decreases m.len(),
{
    if m.len() > 0 && !(m[0].at.0 == at && m[0].name == name) {
        lemma_marker_index(m.drop_first(), at, name);
        assert forall|k: int| 0 <= k < marker_index(m, at, name) implies !(m[k].at.0 == at && m[k].name == name) by {
            if k > 0 {
                assert(m[k] == m.drop_first()[k - 1]);
            }
        }
    }
}

/// Finds the first marker with this position and name.
pub fn find_marker(m: &Vec<Marker>, at: Tick, name: &str) -> (r: usize)
    ensures
        r == marker_index(markers_view(m@), at.0, name@),
        r <= m@.len(),
{
    let mut i: usize = 0;
    while i < m.len() && !(m[i].at.0 == at.0 && compare_text(m[i].name.as_str(), name) == 0)
        invariant
            i <= m.len(),
            forall|k: int| 0 <= k < i ==> !(markers_view(m@)[k].at.0 == at.0 && markers_view(m@)[k].name == name@),
        decreases m.len() - i,
    {
        i += 1;
    }
    proof {
        lemma_marker_index_at(markers_view(m@), at.0, name@, i as int);
    }
    i
}

/// Whether marker `a` orders at or before marker `b`.
fn marker_le_exec(a: &Marker, b: &Marker) -> (r: bool)
    ensures
        r == marker_le(a@, b@),
{
    if a.at.0 < b.at.0 {
        true
    } else if a.at.0 == b.at.0 {
        compare_text(b.name.as_str(), a.name.as_str()) != -1
    } else {
        false
    }
}

/// Sorts markers by position, then name.
pub fn sort_marker_vec(v: Vec<Marker>) -> (r: Vec<Marker>)
    ensures
        markers_view(r@) == sort_markers(markers_view(v@)),
{
    let mut src = v;
    let ghost all = markers_view(src@);
    let mut r: Vec<Marker> = Vec::new();
    proof {
        lemma_marker_order();
    }
    while src.len() > 0
        invariant
            markers_sorted(markers_view(r@)),
            markers_view(r@).to_multiset().add(markers_view(src@).to_multiset()) == all.to_multiset(),
            total_ordering(marker_leq()),
        decreases src.len(),
    {
        let ghost sb = markers_view(src@);
        let x = src.remove(0);
        proof {
            assert(markers_view(src@) =~= sb.remove(0));
            assert(sb[0] == x@);
        }
        let ghost old_r = markers_view(r@);
        let mut p: usize = 0;
        while p < r.len() && marker_le_exec(&r[p], &x)
            invariant
                p <= r.len(),
                markers_sorted(markers_view(r@)),
                forall|k: int| 0 <= k < p ==> marker_le(markers_view(r@)[k], x@),
                markers_view(r@) == old_r,
            decreases r.len() - p,
        {
            p += 1;
        }
        proof {
            let rv = markers_view(r@);
            assert forall|k: int| p <= k < rv.len() implies !marker_le(rv[k], x@) && marker_le(x@, rv[k]) by {
                assert(!marker_le(rv[p as int], x@));
                assert(marker_leq()(rv[p as int], x@) || marker_leq()(x@, rv[p as int]));
                if k > p {
                    assert(marker_le(rv[p as int], rv[k]));
                    if marker_le(rv[k], x@) {
                        assert(marker_leq()(rv[p as int], rv[k]) && marker_leq()(rv[k], x@));
                    }
                }
                assert(marker_leq()(rv[k], x@) || marker_leq()(x@, rv[k]));
            }
        }
        let ghost xv = x@;
        r.insert(p, x);
        proof {
            let rv = markers_view(r@);
            assert(rv =~= old_r.insert(p as int, xv));
            assert forall|a: int, b: int| 0 <= a < b < rv.len() implies marker_le(rv[a], rv[b]) by {
                if b < p {
                    assert(rv[a] == old_r[a] && rv[b] == old_r[b]);
                } else if a < p && b == p {
                    assert(rv[a] == old_r[a]);
                } else if a < p {
                    assert(rv[a] == old_r[a] && rv[b] == old_r[b - 1]);
                    assert(marker_leq()(old_r[a], xv) && marker_leq()(xv, old_r[b - 1]));
                } else if a == p {
                    assert(rv[b] == old_r[b - 1]);
                } else {
                    assert(rv[a] == old_r[a - 1] && rv[b] == old_r[b - 1]);
                }
            }
            old_r.insert_ensures(p as int, xv);
            assert(rv.to_multiset() == old_r.to_multiset().insert(xv)) by {
                assert(rv =~= old_r.subrange(0, p as int).push(xv) + old_r.subrange(p as int, old_r.len() as int));
                vstd::seq_lib::lemma_multiset_commutative(old_r.subrange(0, p as int).push(xv), old_r.subrange(p as int, old_r.len() as int));
                vstd::seq_lib::lemma_multiset_commutative(old_r.subrange(0, p as int), old_r.subrange(p as int, old_r.len() as int));
                assert(old_r =~= old_r.subrange(0, p as int) + old_r.subrange(p as int, old_r.len() as int));
            }
        }
        proof {
            let sv = markers_view(src@);
            assert(sv.push(xv).to_multiset() == sv.to_multiset().insert(xv));
            sb.to_multiset_ensures();
            assert(sb.remove(0).to_multiset() == sb.to_multiset().remove(xv));
        }
    }
    proof {
        assert(markers_view(src@) =~= Seq::<MarkerView>::empty());
        assert(markers_view(r@).to_multiset() =~= all.to_multiset());
        lemma_sort_markers(all, markers_view(r@));
    }
    r
}

} // verus!
