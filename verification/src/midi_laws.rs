//! Round-trip laws of Standard MIDI File export and import: importing what
//! exporting a song produces gives back the song's tempo map and, when its
//! notes can be written and read back exactly, its notes and track names.

use vstd::prelude::*;
use crate::core_types::{Tempo, Tick};
use crate::pattern::Note;
use crate::midi::{note_events, utf8_lossy_text};
use crate::pattern::{note_end, note_valid};
use crate::core_types::{Pitch, Velocity};
use crate::midi::{
    close_note, delta_events, dedup_ticks, exported, fresh_scan, import_fold, keyed, last_open, message_rank, pattern_events, scan_event,
    scan_events, song_imported, tempo_events, track_events, with_origin, name_is, Keyed, SmfEventView,
    SmfMessageView, SmfSong, TrackScan, rescale_spec,
};
use crate::sorting::{
    is_stable_sort_of, key_class, lemma_sorted_is_own_stable_sort, lemma_stable_sort_exists,
    lemma_stable_sort_multiset, lemma_stable_sort_same_elements, sorted_by_key, SortKey,
    distinct_keys, lemma_sort_of_rearrangement,
};
use crate::timeline::{map_wf, strictly_sorted};

verus! {

broadcast use vstd::seq_lib::group_seq_properties;

/// Reading two runs of events one after the other.
proof fn lemma_scan_concat(a: Seq<SmfEventView>, b: Seq<SmfEventView>, ppq: int, s0: TrackScan)
    ensures
        scan_events(a + b, ppq, s0) == scan_events(b, ppq, scan_events(a, ppq, s0)),
    decreases b.len(),
{
    if b.len() == 0 {
        assert(a + b =~= a);
    } else {
        lemma_scan_concat(a, b.drop_last(), ppq, s0);
        assert((a + b).drop_last() =~= a + b.drop_last());
        assert((a + b).last() == b.last());
    }
}

/// At the internal resolution, rescaling is the identity.
proof fn lemma_rescale_identity(t: int)
    requires
        t >= 0,
    ensures
        rescale_spec(t, 960) == t,
{
    assert((t * 960 + 480) / 960 == t) by (nonlinear_arith)
        requires
            t >= 0,
    ;
}

/// The tempo value of a tempo message.
pub open spec fn tempo_value(m: SmfMessageView) -> u32 {
    match m {
        SmfMessageView::Tempo(v) => v,
        _ => 0,
    }
}

/// The tempo entries that the events named by `o` carry, in order.
pub open spec fn tempo_entries(ev: Seq<(i64, SmfMessageView)>, o: Seq<Keyed>) -> Seq<(Tick, Tempo)> {
    o.map_values(
        |k: Keyed|
            (Tick(ev[k.index as int].0), Tempo { micros_per_quarter: tempo_value(ev[k.index as int].1) }),
    )
}

/// The events named by `o` are tempo changes at non-decreasing ticks from
/// `last` on, each within 2^28 ticks of the one before.
pub open spec fn tempo_run(ev: Seq<(i64, SmfMessageView)>, o: Seq<Keyed>, last: int) -> bool {
    &&& forall|p: int| 0 <= p < o.len() ==> (#[trigger] o[p]).index < ev.len()
    &&& forall|p: int| 0 <= p < o.len() ==> (#[trigger] ev[o[p].index as int]).1 is Tempo
    &&& o.len() > 0 ==> last <= ev[o[0].index as int].0 < last + 0x1000_0000
    &&& forall|p: int|
        0 < p < o.len() ==> ev[o[p - 1].index as int].0 <= #[trigger] ev[o[p].index as int].0 < ev[o[p
            - 1].index as int].0 + 0x1000_0000
}

/// Reading a run of tempo changes records each at its tick, in order.
proof fn lemma_scan_tempo_run(ev: Seq<(i64, SmfMessageView)>, o: Seq<Keyed>, last: int, s: TrackScan)
    requires
        tempo_run(ev, o, last),
        last >= 0,
        s.at == last,
    ensures
        scan_events(delta_events(ev, o, last), 960, s).tempos == s.tempos + tempo_entries(ev, o),
        scan_events(delta_events(ev, o, last), 960, s).notes == s.notes,
    decreases o.len(),
{
    let d = delta_events(ev, o, last);
    if o.len() == 0 {
        assert(d == seq![SmfEventView { delta: 0, message: SmfMessageView::EndOfTrack }]);
        assert(d.drop_last() =~= Seq::<SmfEventView>::empty());
        assert(tempo_entries(ev, o) =~= Seq::<(Tick, Tempo)>::empty());
        assert(s.tempos + tempo_entries(ev, o) =~= s.tempos);
    } else {
        let e = ev[o[0].index as int];
        let t0 = e.0 as int;
        let first = SmfEventView { delta: ((e.0 - last) % 0x1000_0000) as u32, message: e.1 };
        let rest = delta_events(ev, o.drop_first(), t0);
        assert(d == seq![first] + rest);
        lemma_scan_concat(seq![first], rest, 960, s);
        assert(seq![first].drop_last() =~= Seq::<SmfEventView>::empty());
        assert(scan_events(Seq::<SmfEventView>::empty(), 960, s) == s);
        assert(seq![first].last() == first);
        let s1 = scan_event(s, first, 960);
        assert(scan_events(seq![first], 960, s) == s1);
        assert(first.delta == t0 - last);
        lemma_rescale_identity(t0);
        assert(s1.at == t0);
        assert(s1.tempos == s.tempos.push((Tick(t0 as i64), Tempo { micros_per_quarter: tempo_value(e.1) })));
        let o2 = o.drop_first();
        assert(tempo_run(ev, o2, t0)) by {
            assert forall|p: int| 0 < p < o2.len() implies ev[o2[p - 1].index as int].0 <= #[trigger] ev[o2[p].index as int].0
                < ev[o2[p - 1].index as int].0 + 0x1000_0000 by {
                assert(o2[p] == o[p + 1]);
                assert(o2[p - 1] == o[p]);
            }
        }
        lemma_scan_tempo_run(ev, o2, t0, s1);
        assert(tempo_entries(ev, o) =~= seq![(Tick(e.0), Tempo { micros_per_quarter: tempo_value(e.1) })] + tempo_entries(ev, o2));
        assert(s.tempos + tempo_entries(ev, o) =~= s1.tempos + tempo_entries(ev, o2));
    }
}

/// Reading events without tempo changes leaves the recorded tempos alone.
proof fn lemma_scan_keeps_tempos(evs: Seq<SmfEventView>, ppq: int, s: TrackScan)
    requires
        forall|i: int| 0 <= i < evs.len() ==> !((#[trigger] evs[i]).message is Tempo),
    ensures
        scan_events(evs, ppq, s).tempos == s.tempos,
    decreases evs.len(),
{
    if evs.len() > 0 {
        let d = evs.drop_last();
        assert forall|i: int| 0 <= i < d.len() implies !((#[trigger] d[i]).message is Tempo) by {
            assert(d[i] == evs[i]);
        }
        lemma_scan_keeps_tempos(d, ppq, s);
        assert(!(evs[evs.len() - 1].message is Tempo));
    }
}

/// The events of a delta-timed run name events of `ev` (or end the track).
proof fn lemma_delta_messages(ev: Seq<(i64, SmfMessageView)>, o: Seq<Keyed>, last: int)
    requires
        forall|p: int| 0 <= p < o.len() ==> (#[trigger] o[p]).index < ev.len(),
    ensures
        forall|i: int|
            0 <= i < delta_events(ev, o, last).len() ==> (#[trigger] delta_events(ev, o, last)[i]).message
                is EndOfTrack || exists|j: int| 0 <= j < ev.len() && delta_events(ev, o, last)[i].message
                == ev[j].1,
    decreases o.len(),
{
    if o.len() > 0 {
        let o2 = o.drop_first();
        let t0 = ev[o[0].index as int].0 as int;
        assert forall|p: int| 0 <= p < o2.len() implies (#[trigger] o2[p]).index < ev.len() by {
            assert(o2[p] == o[p + 1]);
        }
        lemma_delta_messages(ev, o2, t0);
        let d = delta_events(ev, o, last);
        let rest = delta_events(ev, o2, t0);
        assert forall|i: int| 0 <= i < d.len() implies (#[trigger] d[i]).message is EndOfTrack || exists|j: int|
            0 <= j < ev.len() && d[i].message == ev[j].1 by {
            if i == 0 {
                assert(d[0].message == ev[o[0].index as int].1);
            } else {
                assert(d[i] == rest[i - 1]);
            }
        }
    }
}

/// A note track carries no tempo changes.
proof fn lemma_note_track_has_no_tempo(name: Option<String>, notes: Seq<crate::pattern::Note>)
    ensures
        forall|i: int|
            0 <= i < track_events(pattern_events(name, notes)).len() ==> !((#[trigger] track_events(
                pattern_events(name, notes),
            )[i]).message is Tempo),
{
    let ev = pattern_events(name, notes);
    assert forall|j: int| 0 <= j < ev.len() implies !((#[trigger] ev[j]).1 is Tempo) by {
        lemma_pattern_events_not_tempo(name, notes, j);
    }
    lemma_stable_sort_exists(keyed(ev));
    let o = choose|o: Seq<Keyed>| is_stable_sort_of(o, keyed(ev));
    assert forall|p: int| 0 <= p < o.len() implies (#[trigger] o[p]).index < ev.len() by {
        assert(o.contains(o[p]));
        lemma_stable_sort_same_elements(o, keyed(ev), o[p]);
        let q = choose|q: int| 0 <= q < keyed(ev).len() && keyed(ev)[q] == o[p];
    }
    lemma_delta_messages(ev, o, 0);
}

proof fn lemma_note_events_not_tempo(notes: Seq<crate::pattern::Note>, j: int)
    requires
        0 <= j < crate::midi::note_events(notes).len(),
    ensures
        !(crate::midi::note_events(notes)[j].1 is Tempo),
    decreases notes.len(),
{
    let ne = crate::midi::note_events(notes);
    if notes.len() > 0 {
        let pre = crate::midi::note_events(notes.drop_last());
        if j < pre.len() {
            lemma_note_events_not_tempo(notes.drop_last(), j);
            assert(ne[j] == pre[j]);
        }
    }
}

proof fn lemma_pattern_events_not_tempo(name: Option<String>, notes: Seq<crate::pattern::Note>, j: int)
    requires
        0 <= j < pattern_events(name, notes).len(),
    ensures
        !(pattern_events(name, notes)[j].1 is Tempo),
{
    let ne = crate::midi::note_events(notes);
    match name {
        Some(n) => {
            if j > 0 {
                lemma_note_events_not_tempo(notes, j - 1);
            }
        },
        None => {
            lemma_note_events_not_tempo(notes, j);
        },
    }
}

/// The tempo track reads back as the tempo map (tempos kept to 24 bits).
proof fn lemma_tempo_track(m: Seq<(Tick, Tempo)>)
    requires
        map_wf(m),
        m.len() <= usize::MAX,
        forall|i: int| 0 <= i < m.len() ==> (#[trigger] m[i]).0.0 < 0x1000_0000 && m[i].1.micros_per_quarter < 0x100_0000,
    ensures
        scan_events(track_events(tempo_events(m)), 960, crate::midi::fresh_scan(Seq::empty())).tempos == m,
        scan_events(track_events(tempo_events(m)), 960, crate::midi::fresh_scan(Seq::empty())).notes.len() == 0,
{
    let ev = tempo_events(m);
    let k = keyed(ev);
    assert forall|i: int, j: int| 0 <= i <= j < k.len() implies k[i].key() <= k[j].key() by {
        if i < j {
            assert(m[i].0.0 < m[j].0.0);
        }
    }
    assert(sorted_by_key(k));
    assert(is_stable_sort_of(k, k));
    let o = choose|o: Seq<Keyed>| is_stable_sort_of(o, k);
    lemma_sorted_is_own_stable_sort(k, o);
    assert(track_events(ev) == delta_events(ev, k, 0));
    assert(tempo_run(ev, k, 0)) by {
        assert forall|p: int| 0 <= p < k.len() implies (#[trigger] ev[k[p].index as int]).1 is Tempo by {
            assert(k[p].index == p);
        }
        if k.len() > 0 {
            assert(k[0].index == 0);
            assert(m[0].0.0 == 0);
        }
        assert forall|p: int| 0 < p < k.len() implies ev[k[p - 1].index as int].0 <= #[trigger] ev[k[p].index as int].0
            < ev[k[p - 1].index as int].0 + 0x1000_0000 by {
            assert(k[p].index == p);
            assert(k[p - 1].index == p - 1);
            assert(m[p - 1].0.0 < m[p].0.0);
            assert(m[p - 1].0.0 >= 0) by {
                if p - 1 > 0 {
                    assert(m[0].0.0 < m[p - 1].0.0);
                }
            }
        }
    }
    lemma_scan_tempo_run(ev, k, 0, crate::midi::fresh_scan(Seq::empty()));
    assert(tempo_entries(ev, k) =~= m) by {
        assert forall|i: int| 0 <= i < m.len() implies tempo_entries(ev, k)[i] == m[i] by {
            assert(k[i].index == i);
            assert(m[i].1.micros_per_quarter % 0x100_0000 == m[i].1.micros_per_quarter);
        }
    }
    assert(Seq::<(Tick, Tempo)>::empty() + tempo_entries(ev, k) =~= m);
}

/// Importing the tracks of an exported song records exactly the tempo map.
proof fn lemma_exported_tempos(song: SmfSong, n: int)
    requires
        map_wf(song.tempo_map@),
        song.tempo_map@.len() <= usize::MAX,
        forall|i: int|
            0 <= i < song.tempo_map@.len() ==> (#[trigger] song.tempo_map@[i]).0.0 < 0x1000_0000
                && song.tempo_map@[i].1.micros_per_quarter < 0x100_0000,
        1 <= n <= exported(song).data.tracks.len(),
    ensures
        import_fold(exported(song).data.tracks.subrange(0, n), 960).1 == song.tempo_map@,
    decreases n,
{
    let tracks = exported(song).data.tracks;
    let sub = tracks.subrange(0, n);
    if n == 1 {
        assert(sub.drop_last() =~= Seq::<Seq<SmfEventView>>::empty());
        assert(sub.last() == track_events(tempo_events(song.tempo_map@)));
        lemma_tempo_track(song.tempo_map@);
    } else {
        lemma_exported_tempos(song, n - 1);
        assert(sub.drop_last() =~= tracks.subrange(0, n - 1));
        let t = n - 1;
        assert(sub.last() == tracks[t]);
        assert(tracks[t] == track_events(pattern_events(song.tracks@[t - 1].0, song.tracks@[t - 1].1@.notes)));
        lemma_note_track_has_no_tempo(song.tracks@[t - 1].0, song.tracks@[t - 1].1@.notes);
        lemma_scan_keeps_tempos(
            tracks[t],
            960,
            crate::midi::fresh_scan(import_fold(tracks.subrange(0, n - 1), 960).1),
        );
    }
}

proof fn lemma_dedup_strict(s: Seq<(Tick, Tempo)>)
    requires
        strictly_sorted(s),
    ensures
        dedup_ticks(s) == s,
    decreases s.len(),
{
    if s.len() > 1 {
        let d = s.drop_last();
        lemma_dedup_strict(d);
        assert(s[s.len() - 2].0.0 < s[s.len() - 1].0.0);
        assert(d.push(s.last()) =~= s);
    }
}

/// Importing what exporting a song produces gives back its tempo map, when
/// every tempo change lies within the first 2^28 ticks and fits the 24 bits
/// a tempo event holds.
pub proof fn law_export_import_keeps_tempo(song: SmfSong, imported: SmfSong)
    requires
        song.tempo_map.wf(),
        forall|i: int|
            0 <= i < song.tempo_map@.len() ==> (#[trigger] song.tempo_map@[i]).0.0 < 0x1000_0000
                && song.tempo_map@[i].1.micros_per_quarter < 0x100_0000,
        song_imported(imported, exported(song).data.tracks, 960),
    ensures
        imported.tempo_map@ == song.tempo_map@,
{
    let m = song.tempo_map@;
    let tracks = exported(song).data.tracks;
    song.tempo_map.lemma_len_bound();
    lemma_exported_tempos(song, tracks.len() as int);
    assert(tracks.subrange(0, tracks.len() as int) =~= tracks);
    assert(import_fold(tracks, 960).1 == m);
    assert(with_origin(m) == m) by {
        assert(m[0].0.0 == 0);
    }
    assert(sorted_by_key(m)) by {
        assert forall|i: int, j: int| 0 <= i <= j < m.len() implies m[i].key() <= m[j].key() by {
            if i < j {
                assert(m[i].0.0 < m[j].0.0);
            }
        }
    }
    assert(is_stable_sort_of(m, with_origin(m)));
    lemma_dedup_strict(m);
}

// ---------------------------------------------------------------- note tracks

/// The MIDI key a note is written with.
pub open spec fn key_of(n: Note) -> u8 {
    n.pitch.note % 128
}

/// The note-on event of a note.
pub open spec fn on_event(n: Note) -> (i64, SmfMessageView) {
    (n.start.0, SmfMessageView::NoteOn(0, key_of(n), n.velocity.value()))
}

/// The note-off event of a note.
pub open spec fn off_event(n: Note) -> (i64, SmfMessageView) {
    ((n.start.0 + n.duration.0) as i64, SmfMessageView::NoteOff(0, key_of(n), 0))
}

/// Note `j`'s on event sits at `2j` and its off event at `2j + 1`.
proof fn lemma_note_events_layout(notes: Seq<Note>)
    ensures
        note_events(notes).len() == 2 * notes.len(),
        forall|j: int| 0 <= j < notes.len() ==> note_events(notes)[2 * j] == on_event(#[trigger] notes[j])
            && note_events(notes)[2 * j + 1] == off_event(notes[j]),
    decreases notes.len(),
{
    if notes.len() > 0 {
        let d = notes.drop_last();
        lemma_note_events_layout(d);
        let ne = note_events(notes);
        let pre = note_events(d);
        assert forall|j: int| 0 <= j < notes.len() implies ne[2 * j] == on_event(#[trigger] notes[j]) && ne[2 * j
            + 1] == off_event(notes[j]) by {
            if j < d.len() {
                assert(d[j] == notes[j]);
                assert(ne[2 * j] == pre[2 * j]);
                assert(ne[2 * j + 1] == pre[2 * j + 1]);
            }
        }
    }
}

/// Where the notes' events start in a track's events (after the name, if any).
pub open spec fn name_slots(name: Option<String>) -> int {
    if name is Some {
        1
    } else {
        0
    }
}

/// The layout of a note track's events.
proof fn lemma_pattern_events_layout(name: Option<String>, notes: Seq<Note>)
    ensures
        pattern_events(name, notes).len() == name_slots(name) + 2 * notes.len(),
        forall|j: int|
            0 <= j < notes.len() ==> pattern_events(name, notes)[name_slots(name) + 2 * j] == on_event(
                #[trigger] notes[j],
            ) && pattern_events(name, notes)[name_slots(name) + 2 * j + 1] == off_event(notes[j]),
        name matches Some(n) ==> pattern_events(name, notes)[0] == (
            0i64,
            SmfMessageView::TrackName(vstd::utf8::encode_utf8(n@)),
        ),
{
    lemma_note_events_layout(notes);
}

// ---------------------------------------------------------------- sorted orders

/// Some position of `o` names event `i`.
pub open spec fn has_position(o: Seq<Keyed>, i: int) -> bool {
    exists|q: int| 0 <= q < o.len() && (#[trigger] o[q]).index == i
}

/// What a stable sort of the keys of `ev` is: a permutation of the events
/// (each position names a distinct event, every event has a position) in
/// non-decreasing key order.
pub open spec fn order_of(ev: Seq<(i64, SmfMessageView)>, o: Seq<Keyed>) -> bool {
    &&& o.len() == ev.len()
    &&& forall|q: int| 0 <= q < o.len() ==> (#[trigger] o[q]).index < ev.len() && o[q] == keyed(ev)[o[q].index as int]
    &&& forall|q1: int, q2: int|
        0 <= q1 < o.len() && 0 <= q2 < o.len() && q1 != q2 ==> (#[trigger] o[q1]).index != (#[trigger] o[q2]).index
    &&& forall|i: int| 0 <= i < ev.len() ==> #[trigger] has_position(o, i)
    &&& forall|q1: int, q2: int| 0 <= q1 <= q2 < o.len() ==> (#[trigger] o[q1]).key() <= (#[trigger] o[q2]).key()
}

proof fn lemma_order_facts(ev: Seq<(i64, SmfMessageView)>, o: Seq<Keyed>)
    requires
        is_stable_sort_of(o, keyed(ev)),
        ev.len() <= usize::MAX,
    ensures
        order_of(ev, o),
{
    broadcast use vstd::seq_lib::group_to_multiset_ensures;
    broadcast use vstd::multiset::group_multiset_axioms;

    let k = keyed(ev);
    lemma_stable_sort_multiset(o, k);
    assert(k.no_duplicates()) by {
        assert forall|i: int, j: int| 0 <= i < k.len() && 0 <= j < k.len() && i != j implies k[i] != k[j] by {
            assert(k[i].index == i);
            assert(k[j].index == j);
        }
    }
    k.lemma_multiset_has_no_duplicates();
    vstd::seq_lib::to_multiset_len(o);
    vstd::seq_lib::to_multiset_len(k);
    assert forall|x: Keyed| o.to_multiset().contains(x) implies o.to_multiset().count(x) == 1 by {
        assert(k.to_multiset().contains(x));
    }
    o.lemma_multiset_has_no_duplicates_conv();
    assert forall|q: int| 0 <= q < o.len() implies (#[trigger] o[q]).index < ev.len() && o[q] == keyed(ev)[o[q].index as int] by {
        assert(o.contains(o[q]));
        lemma_stable_sort_same_elements(o, k, o[q]);
        let i = choose|i: int| 0 <= i < k.len() && k[i] == o[q];
        assert(k[i].index == i);
    }
    assert forall|i: int| 0 <= i < ev.len() implies #[trigger] has_position(o, i) by {
        assert(k.contains(k[i]));
        lemma_stable_sort_same_elements(o, k, k[i]);
        let q = choose|q: int| 0 <= q < o.len() && o[q] == k[i];
        assert(o[q].index == i);
    }
    assert forall|q1: int, q2: int|
        0 <= q1 < o.len() && 0 <= q2 < o.len() && q1 != q2 implies (#[trigger] o[q1]).index != (#[trigger] o[q2]).index by {
        if o[q1].index == o[q2].index {
            assert(o[q1] == k[o[q1].index as int]);
            assert(o[q2] == k[o[q2].index as int]);
        }
    }
}

/// The tick of the event at position `q` of `o`.
pub open spec fn tick_at(ev: Seq<(i64, SmfMessageView)>, o: Seq<Keyed>, q: int) -> int {
    ev[o[q].index as int].0 as int
}

/// The tick of the event before position `q` (0 before the first).
pub open spec fn prev_tick(ev: Seq<(i64, SmfMessageView)>, o: Seq<Keyed>, q: int) -> int {
    if q <= 0 {
        0
    } else {
        tick_at(ev, o, q - 1)
    }
}

/// The events of `ev` in the order `o`, with delta times.
pub open spec fn delta_seq(ev: Seq<(i64, SmfMessageView)>, o: Seq<Keyed>) -> Seq<SmfEventView> {
    Seq::new(
        o.len(),
        |q: int|
            SmfEventView {
                delta: ((tick_at(ev, o, q) - prev_tick(ev, o, q)) % 0x1000_0000) as u32,
                message: ev[o[q].index as int].1,
            },
    )
}

/// The end-of-track event.
pub open spec fn end_of_track() -> SmfEventView {
    SmfEventView { delta: 0, message: SmfMessageView::EndOfTrack }
}

proof fn lemma_delta_suffix(ev: Seq<(i64, SmfMessageView)>, o: Seq<Keyed>, q: int)
    requires
        0 <= q <= o.len(),
    ensures
        delta_events(ev, o.subrange(q, o.len() as int), prev_tick(ev, o, q)) == delta_seq(ev, o).subrange(
            q,
            o.len() as int,
        ).push(end_of_track()),
    decreases o.len() - q,
{
    let x = o.subrange(q, o.len() as int);
    if q == o.len() {
        assert(x =~= Seq::<Keyed>::empty());
        assert(delta_seq(ev, o).subrange(q, o.len() as int) =~= Seq::<SmfEventView>::empty());
        assert(Seq::<SmfEventView>::empty().push(end_of_track()) =~= seq![end_of_track()]);
    } else {
        lemma_delta_suffix(ev, o, q + 1);
        assert(x[0] == o[q]);
        assert(x.drop_first() =~= o.subrange(q + 1, o.len() as int));
        assert(prev_tick(ev, o, q + 1) == tick_at(ev, o, q));
        let ds = delta_seq(ev, o);
        assert(ds.subrange(q, o.len() as int).push(end_of_track()) =~= seq![ds[q]] + ds.subrange(
            q + 1,
            o.len() as int,
        ).push(end_of_track()));
    }
}

/// A track's events in delta form: the sorted events, then the end of the track.
proof fn lemma_delta_form(ev: Seq<(i64, SmfMessageView)>, o: Seq<Keyed>)
    ensures
        delta_events(ev, o, 0) == delta_seq(ev, o).push(end_of_track()),
{
    lemma_delta_suffix(ev, o, 0);
    assert(o.subrange(0, o.len() as int) =~= o);
    assert(delta_seq(ev, o).subrange(0, o.len() as int) =~= delta_seq(ev, o));
}

// ---------------------------------------------------------------- reading a note track back

/// A note track that reads back exactly: valid notes ending within the
/// first 2^28 ticks, on the 12-tone MIDI keys, with a velocity, and no two
/// notes of one key sounding at once.
pub open spec fn round_trip_notes(notes: Seq<Note>) -> bool {
    &&& forall|j: int|
        0 <= j < notes.len() ==> {
            &&& note_valid(#[trigger] notes[j])
            &&& note_end(notes[j]) < 0x1000_0000
            &&& notes[j].pitch.note <= 127
            &&& notes[j].pitch.cents == 0
            &&& notes[j].velocity.value() >= 1
        }
    &&& forall|i: int, j: int|
        0 <= i < notes.len() && 0 <= j < notes.len() && i != j && (#[trigger] notes[i]).pitch.note
            == (#[trigger] notes[j]).pitch.note ==> note_end(notes[i]) <= notes[j].start.0 || note_end(notes[j])
            <= notes[i].start.0
}

/// The position of event `i` in the order `o`.
pub open spec fn pos_of(o: Seq<Keyed>, i: int) -> int {
    choose|q: int| 0 <= q < o.len() && o[q].index == i
}

/// The sounding-note entry a note's note-on leaves while it is held.
pub open spec fn entry(n: Note) -> (u8, u8, i64, Velocity) {
    (0u8, key_of(n), n.start.0, Velocity::of(n.velocity.value() as int))
}

/// The event index of note `j`'s note-on.
pub open spec fn on_index(name: Option<String>, j: int) -> int {
    name_slots(name) + 2 * j
}

/// The event index of note `j`'s note-off.
pub open spec fn off_index(name: Option<String>, j: int) -> int {
    name_slots(name) + 2 * j + 1
}

/// The name a track reads back with.
pub open spec fn name_read(name: Option<String>) -> Option<Seq<char>> {
    match name {
        Some(n) => Some(utf8_lossy_text(vstd::utf8::encode_utf8(n@))),
        None => None,
    }
}

/// The state of reading a note track after the first `p` sorted events.
pub open spec fn notes_inv(
    name: Option<String>,
    notes: Seq<Note>,
    tempos: Seq<(Tick, Tempo)>,
    ev: Seq<(i64, SmfMessageView)>,
    o: Seq<Keyed>,
    p: int,
    st: TrackScan,
) -> bool {
    &&& st.at == prev_tick(ev, o, p)
    &&& st.tempos == tempos
    &&& st.name == (if name is Some && pos_of(o, 0) < p {
        name_read(name)
    } else {
        None
    })
    &&& st.notes.no_duplicates()
    &&& forall|x: Note|
        #[trigger] st.notes.contains(x) <==> exists|j: int|
            0 <= j < notes.len() && x == #[trigger] notes[j] && pos_of(o, off_index(name, j)) < p
    &&& st.open.no_duplicates()
    &&& forall|e: (u8, u8, i64, Velocity)|
        #[trigger] st.open.contains(e) <==> exists|j: int|
            0 <= j < notes.len() && e == entry(#[trigger] notes[j]) && pos_of(o, on_index(name, j)) < p && pos_of(
                o,
                off_index(name, j),
            ) >= p
}

/// The facts about a note track's sorted events that reading it relies on.
pub open spec fn track_setting(
    name: Option<String>,
    notes: Seq<Note>,
    ev: Seq<(i64, SmfMessageView)>,
    o: Seq<Keyed>,
) -> bool {
    &&& ev == pattern_events(name, notes)
    &&& order_of(ev, o)
    &&& round_trip_notes(notes)
    &&& ev.len() <= usize::MAX
}

proof fn lemma_setting_basics(name: Option<String>, notes: Seq<Note>, ev: Seq<(i64, SmfMessageView)>, o: Seq<Keyed>)
    requires
        track_setting(name, notes, ev, o),
    ensures
        ev.len() == name_slots(name) + 2 * notes.len(),
        forall|j: int| 0 <= j < notes.len() ==> #[trigger] ev[on_index(name, j)] == on_event(notes[j])
            && ev[off_index(name, j)] == off_event(notes[j]),
        forall|j: int|
            0 <= j < notes.len() ==> (#[trigger] keyed(ev)[on_index(name, j)]).key() == notes[j].start.0 * 3 + 2
                && keyed(ev)[off_index(name, j)].key() == note_end(notes[j]) * 3 + 1,
        name is Some ==> keyed(ev)[0].key() == 0,
        forall|i: int| 0 <= i < ev.len() ==> 0 <= #[trigger] pos_of(o, i) < o.len() && o[pos_of(o, i)].index == i,
        forall|q: int| 0 <= q < o.len() ==> pos_of(o, (#[trigger] o[q]).index as int) == q,
        forall|q: int| 0 <= q < o.len() ==> 0 <= #[trigger] tick_at(ev, o, q) < 0x1000_0000,
{
    lemma_pattern_events_layout(name, notes);
    let b = name_slots(name);
    assert forall|j: int| 0 <= j < notes.len() implies #[trigger] ev[on_index(name, j)] == on_event(notes[j])
        && ev[off_index(name, j)] == off_event(notes[j]) by {
    }
    assert forall|j: int|
        0 <= j < notes.len() implies (#[trigger] keyed(ev)[on_index(name, j)]).key() == notes[j].start.0 * 3 + 2
            && keyed(ev)[off_index(name, j)].key() == note_end(notes[j]) * 3 + 1 by {
        assert(note_valid(notes[j]));
        assert(notes[j].velocity.value() >= 1);
        assert(ev[on_index(name, j)] == on_event(notes[j]));
        assert(ev[off_index(name, j)] == off_event(notes[j]));
    }
    assert forall|i: int| 0 <= i < ev.len() implies 0 <= #[trigger] pos_of(o, i) < o.len() && o[pos_of(o, i)].index == i by {
        assert(has_position(o, i));
    }
    assert forall|q: int| 0 <= q < o.len() implies pos_of(o, (#[trigger] o[q]).index as int) == q by {
        let i = o[q].index as int;
        assert(has_position(o, i));
        let r = pos_of(o, i);
        assert(o[r].index == i);
        if r != q {
            assert(o[r].index != o[q].index);
        }
    }
    assert forall|q: int| 0 <= q < o.len() implies 0 <= #[trigger] tick_at(ev, o, q) < 0x1000_0000 by {
        let i = o[q].index as int;
        if name is Some && i == 0 {
        } else {
            let j = (i - b) / 2;
            assert(0 <= j < notes.len());
            assert(note_valid(notes[j]));
            if i == on_index(name, j) {
            } else {
                assert(i == off_index(name, j));
            }
        }
    }
}

proof fn lemma_key_order(ev: Seq<(i64, SmfMessageView)>, o: Seq<Keyed>, i1: int, i2: int)
    requires
        order_of(ev, o),
        0 <= i1 < ev.len(),
        0 <= i2 < ev.len(),
        keyed(ev)[i1].key() < keyed(ev)[i2].key(),
        0 <= pos_of(o, i1) < o.len() && o[pos_of(o, i1)].index == i1,
        0 <= pos_of(o, i2) < o.len() && o[pos_of(o, i2)].index == i2,
    ensures
        pos_of(o, i1) < pos_of(o, i2),
{
    let q1 = pos_of(o, i1);
    let q2 = pos_of(o, i2);
    assert(o[q1] == keyed(ev)[i1]);
    assert(o[q2] == keyed(ev)[i2]);
    if q1 >= q2 {
        if q1 == q2 {
        } else {
            assert(o[q2].key() <= o[q1].key());
        }
    }
}

proof fn lemma_ticks_ordered(ev: Seq<(i64, SmfMessageView)>, o: Seq<Keyed>, q1: int, q2: int)
    requires
        order_of(ev, o),
        0 <= q1 <= q2 < o.len(),
    ensures
        tick_at(ev, o, q1) <= tick_at(ev, o, q2),
{
    assert(o[q1] == keyed(ev)[o[q1].index as int]);
    assert(o[q2] == keyed(ev)[o[q2].index as int]);
    assert(o[q1].key() <= o[q2].key());
    let r1 = message_rank(ev[o[q1].index as int].1);
    let r2 = message_rank(ev[o[q2].index as int].1);
    assert(0 <= r1 <= 2 && 0 <= r2 <= 2);
}

proof fn lemma_last_open_unique(open: Seq<(u8, u8, i64, Velocity)>, c: u8, k: u8, i: int)
    requires
        0 <= i < open.len(),
        open[i].0 == c && open[i].1 == k,
        forall|i2: int| 0 <= i2 < open.len() && i2 != i ==> !((#[trigger] open[i2]).0 == c && open[i2].1 == k),
    ensures
        last_open(open, c, k) == Some(i),
    decreases open.len(),
{
    if i < open.len() - 1 {
        let d = open.drop_last();
        assert forall|i2: int| 0 <= i2 < d.len() && i2 != i implies !((#[trigger] d[i2]).0 == c && d[i2].1 == k) by {
            assert(d[i2] == open[i2]);
        }
        lemma_last_open_unique(d, c, k, i);
        assert(!(open[open.len() - 1].0 == c && open[open.len() - 1].1 == k));
    }
}

/// Two notes of a read-back track with the same start and key are the same note.
proof fn lemma_notes_distinct(notes: Seq<Note>, i: int, j: int)
    requires
        round_trip_notes(notes),
        0 <= i < notes.len(),
        0 <= j < notes.len(),
        notes[i].start == notes[j].start,
        key_of(notes[i]) == key_of(notes[j]),
    ensures
        i == j,
{
    if i != j {
        assert(note_valid(notes[i]) && notes[i].pitch.note <= 127);
        assert(note_valid(notes[j]) && notes[j].pitch.note <= 127);
        assert(notes[i].pitch.note == notes[j].pitch.note);
    }
}

/// Reading the `p`-th sorted event moves the position to its tick.
proof fn lemma_step_at(name: Option<String>, notes: Seq<Note>, ev: Seq<(i64, SmfMessageView)>, o: Seq<Keyed>, p: int)
    requires
        track_setting(name, notes, ev, o),
        0 <= p < o.len(),
    ensures
        delta_seq(ev, o)[p].delta == tick_at(ev, o, p) - prev_tick(ev, o, p),
        prev_tick(ev, o, p + 1) == tick_at(ev, o, p),
        0 <= tick_at(ev, o, p) < 0x1000_0000,
        rescale_spec(tick_at(ev, o, p), 960) == tick_at(ev, o, p),
{
    lemma_setting_basics(name, notes, ev, o);
    if p > 0 {
        lemma_ticks_ordered(ev, o, p - 1, p);
        assert(0 <= tick_at(ev, o, p - 1));
    }
    let d = tick_at(ev, o, p) - prev_tick(ev, o, p);
    assert(0 <= d < 0x1000_0000);
    assert(d % 0x1000_0000 == d);
    lemma_rescale_identity(tick_at(ev, o, p));
}

/// Positions other than `p` are before `p + 1` exactly when before `p`.
proof fn lemma_other_positions(name: Option<String>, notes: Seq<Note>, ev: Seq<(i64, SmfMessageView)>, o: Seq<Keyed>, p: int)
    requires
        track_setting(name, notes, ev, o),
        0 <= p < o.len(),
    ensures
        forall|i: int|
            0 <= i < ev.len() && i != o[p].index ==> (pos_of(o, i) < p + 1 <==> pos_of(o, i) < p) && (#[trigger] pos_of(
                o,
                i,
            ) >= p + 1 <==> pos_of(o, i) >= p),
        pos_of(o, o[p].index as int) == p,
{
    lemma_setting_basics(name, notes, ev, o);
    assert forall|i: int| 0 <= i < ev.len() && i != o[p].index implies (pos_of(o, i) < p + 1 <==> pos_of(o, i) < p) && (
    #[trigger] pos_of(o, i) >= p + 1 <==> pos_of(o, i) >= p) by {
        assert(o[pos_of(o, i)].index == i);
    }
}

/// The note-on of note `j` is read before its note-off.
proof fn lemma_on_before_off(name: Option<String>, notes: Seq<Note>, ev: Seq<(i64, SmfMessageView)>, o: Seq<Keyed>, j: int)
    requires
        track_setting(name, notes, ev, o),
        0 <= j < notes.len(),
    ensures
        pos_of(o, on_index(name, j)) < pos_of(o, off_index(name, j)),
{
    lemma_setting_basics(name, notes, ev, o);
    assert(note_valid(notes[j]));
    assert(keyed(ev)[on_index(name, j)].key() == notes[j].start.0 * 3 + 2);
    lemma_key_order(ev, o, on_index(name, j), off_index(name, j));
}

/// Reading the track name.
proof fn lemma_step_name(
    name: Option<String>,
    notes: Seq<Note>,
    tempos: Seq<(Tick, Tempo)>,
    ev: Seq<(i64, SmfMessageView)>,
    o: Seq<Keyed>,
    p: int,
    st: TrackScan,
)
    requires
        track_setting(name, notes, ev, o),
        0 <= p < o.len(),
        notes_inv(name, notes, tempos, ev, o, p, st),
        name is Some,
        o[p].index == 0,
    ensures
        notes_inv(name, notes, tempos, ev, o, p + 1, scan_event(st, delta_seq(ev, o)[p], 960)),
{
    lemma_setting_basics(name, notes, ev, o);
    lemma_step_at(name, notes, ev, o, p);
    lemma_other_positions(name, notes, ev, o, p);
    let st2 = scan_event(st, delta_seq(ev, o)[p], 960);
    let n = name->0;
    assert(ev[0] == (0i64, SmfMessageView::TrackName(vstd::utf8::encode_utf8(n@))));
    assert(st2.name == Some(utf8_lossy_text(vstd::utf8::encode_utf8(n@))));
    assert(st2.notes == st.notes && st2.open == st.open && st2.tempos == st.tempos);
    assert forall|x: Note| #[trigger] st2.notes.contains(x) <==> exists|j: int|
        0 <= j < notes.len() && x == #[trigger] notes[j] && pos_of(o, off_index(name, j)) < p + 1 by {
        if st2.notes.contains(x) {
            let j = choose|j: int| 0 <= j < notes.len() && x == #[trigger] notes[j] && pos_of(o, off_index(name, j)) < p;
        }
        if exists|j: int| 0 <= j < notes.len() && x == #[trigger] notes[j] && pos_of(o, off_index(name, j)) < p + 1 {
            let j = choose|j: int| 0 <= j < notes.len() && x == #[trigger] notes[j] && pos_of(o, off_index(name, j)) < p + 1;
            assert(pos_of(o, off_index(name, j)) >= 0);
        }
    }
    assert forall|e: (u8, u8, i64, Velocity)| #[trigger] st2.open.contains(e) <==> exists|j: int|
        0 <= j < notes.len() && e == entry(#[trigger] notes[j]) && pos_of(o, on_index(name, j)) < p + 1 && pos_of(
            o,
            off_index(name, j),
        ) >= p + 1 by {
        if st2.open.contains(e) {
            let j = choose|j: int|
                0 <= j < notes.len() && e == entry(#[trigger] notes[j]) && pos_of(o, on_index(name, j)) < p && pos_of(
                    o,
                    off_index(name, j),
                ) >= p;
            assert(pos_of(o, on_index(name, j)) >= 0);
        }
        if exists|j: int|
            0 <= j < notes.len() && e == entry(#[trigger] notes[j]) && pos_of(o, on_index(name, j)) < p + 1 && pos_of(
                o,
                off_index(name, j),
            ) >= p + 1 {
            let j = choose|j: int|
                0 <= j < notes.len() && e == entry(#[trigger] notes[j]) && pos_of(o, on_index(name, j)) < p + 1 && pos_of(
                    o,
                    off_index(name, j),
                ) >= p + 1;
            assert(pos_of(o, on_index(name, j)) >= 0);
        }
    }
}

/// Reading note `jj`'s note-on: its entry starts sounding.
#[verifier::rlimit(60)]
proof fn lemma_step_on(
    name: Option<String>,
    notes: Seq<Note>,
    tempos: Seq<(Tick, Tempo)>,
    ev: Seq<(i64, SmfMessageView)>,
    o: Seq<Keyed>,
    p: int,
    st: TrackScan,
    jj: int,
)
    requires
        track_setting(name, notes, ev, o),
        0 <= p < o.len(),
        notes_inv(name, notes, tempos, ev, o, p, st),
        0 <= jj < notes.len(),
        o[p].index == on_index(name, jj),
    ensures
        notes_inv(name, notes, tempos, ev, o, p + 1, scan_event(st, delta_seq(ev, o)[p], 960)),
{
    lemma_setting_basics(name, notes, ev, o);
    lemma_step_at(name, notes, ev, o, p);
    lemma_other_positions(name, notes, ev, o, p);
    lemma_on_before_off(name, notes, ev, o, jj);
    let nj = notes[jj];
    assert(note_valid(nj) && nj.velocity.value() >= 1);
    assert(ev[on_index(name, jj)] == on_event(nj));
    let t = tick_at(ev, o, p);
    assert(t == nj.start.0);
    let st2 = scan_event(st, delta_seq(ev, o)[p], 960);
    assert(st2.open == st.open.push(entry(nj)));
    assert(st2.notes == st.notes && st2.name == st.name && st2.tempos == st.tempos);
    if name is Some {
        assert(0 != on_index(name, jj));
    }
    // The entry was not sounding before.
    assert(!st.open.contains(entry(nj))) by {
        if st.open.contains(entry(nj)) {
            let m = choose|m: int|
                0 <= m < notes.len() && entry(nj) == entry(#[trigger] notes[m]) && pos_of(o, on_index(name, m)) < p && pos_of(
                    o,
                    off_index(name, m),
                ) >= p;
            lemma_notes_distinct(notes, m, jj);
        }
    }
    assert(st2.open.no_duplicates()) by {
        assert forall|a: int, c: int| 0 <= a < st2.open.len() && 0 <= c < st2.open.len() && a != c implies st2.open[a]
            != st2.open[c] by {
            if a < st.open.len() && c < st.open.len() {
                assert(st2.open[a] == st.open[a] && st2.open[c] == st.open[c]);
            } else if a < st.open.len() {
                assert(st.open.contains(st.open[a]));
            } else if c < st.open.len() {
                assert(st.open.contains(st.open[c]));
            }
        }
    }
    assert forall|x: Note| #[trigger] st2.notes.contains(x) <==> exists|j: int|
        0 <= j < notes.len() && x == #[trigger] notes[j] && pos_of(o, off_index(name, j)) < p + 1 by {
        if st2.notes.contains(x) {
            let j = choose|j: int| 0 <= j < notes.len() && x == #[trigger] notes[j] && pos_of(o, off_index(name, j)) < p;
        }
        if exists|j: int| 0 <= j < notes.len() && x == #[trigger] notes[j] && pos_of(o, off_index(name, j)) < p + 1 {
            let j = choose|j: int| 0 <= j < notes.len() && x == #[trigger] notes[j] && pos_of(o, off_index(name, j)) < p + 1;
            assert(off_index(name, j) != on_index(name, jj));
        }
    }
    assert forall|e: (u8, u8, i64, Velocity)| #[trigger] st2.open.contains(e) <==> exists|j: int|
        0 <= j < notes.len() && e == entry(#[trigger] notes[j]) && pos_of(o, on_index(name, j)) < p + 1 && pos_of(
            o,
            off_index(name, j),
        ) >= p + 1 by {
        if st2.open.contains(e) {
            if e == entry(nj) {
                assert(pos_of(o, on_index(name, jj)) == p);
            } else {
                assert(st.open.contains(e)) by {
                    let a = choose|a: int| 0 <= a < st2.open.len() && st2.open[a] == e;
                    assert(a < st.open.len());
                    assert(st.open[a] == e);
                }
                let j = choose|j: int|
                    0 <= j < notes.len() && e == entry(#[trigger] notes[j]) && pos_of(o, on_index(name, j)) < p && pos_of(
                        o,
                        off_index(name, j),
                    ) >= p;
                assert(off_index(name, j) != on_index(name, jj));
            }
        }
        if exists|j: int|
            0 <= j < notes.len() && e == entry(#[trigger] notes[j]) && pos_of(o, on_index(name, j)) < p + 1 && pos_of(
                o,
                off_index(name, j),
            ) >= p + 1 {
            let j = choose|j: int|
                0 <= j < notes.len() && e == entry(#[trigger] notes[j]) && pos_of(o, on_index(name, j)) < p + 1 && pos_of(
                    o,
                    off_index(name, j),
                ) >= p + 1;
            if j == jj {
                assert(st2.open[st.open.len() as int] == e);
            } else {
                assert(on_index(name, j) != on_index(name, jj));
                assert(off_index(name, j) != on_index(name, jj));
                assert(st.open.contains(e));
                let a = choose|a: int| 0 <= a < st.open.len() && st.open[a] == e;
                assert(st2.open[a] == e);
            }
        }
    }
}

/// No other sounding entry shares note `jj`'s key when its note-off is read.
proof fn lemma_off_unique(
    name: Option<String>,
    notes: Seq<Note>,
    tempos: Seq<(Tick, Tempo)>,
    ev: Seq<(i64, SmfMessageView)>,
    o: Seq<Keyed>,
    p: int,
    st: TrackScan,
    jj: int,
    i: int,
)
    requires
        track_setting(name, notes, ev, o),
        0 <= p < o.len(),
        notes_inv(name, notes, tempos, ev, o, p, st),
        0 <= jj < notes.len(),
        o[p].index == off_index(name, jj),
        0 <= i < st.open.len(),
        st.open[i] == entry(notes[jj]),
    ensures
        forall|i2: int|
            0 <= i2 < st.open.len() && i2 != i ==> !((#[trigger] st.open[i2]).0 == 0u8 && st.open[i2].1 == key_of(
                notes[jj],
            )),
{
    lemma_setting_basics(name, notes, ev, o);
    lemma_other_positions(name, notes, ev, o, p);
    let nj = notes[jj];
    assert forall|i2: int|
        0 <= i2 < st.open.len() && i2 != i implies !((#[trigger] st.open[i2]).0 == 0u8 && st.open[i2].1 == key_of(nj)) by {
        if st.open[i2].0 == 0u8 && st.open[i2].1 == key_of(nj) {
            assert(st.open.contains(st.open[i2]));
            let m = choose|m: int|
                0 <= m < notes.len() && st.open[i2] == entry(#[trigger] notes[m]) && pos_of(o, on_index(name, m)) < p
                    && pos_of(o, off_index(name, m)) >= p;
            let nm = notes[m];
            assert(m != jj);
            assert(note_valid(nm) && note_valid(nj));
            assert(nm.pitch.note <= 127 && nj.pitch.note <= 127);
            assert(nm.pitch.note == nj.pitch.note);
            assert(off_index(name, m) != off_index(name, jj));
            assert(pos_of(o, off_index(name, m)) != p);
            // The note-on of m was read before jj's note-off: m starts before jj ends.
            let qa = pos_of(o, on_index(name, m));
            assert(o[qa] == keyed(ev)[on_index(name, m)]);
            assert(o[p] == keyed(ev)[off_index(name, jj)]);
            assert(o[qa].key() <= o[p].key());
            assert(keyed(ev)[on_index(name, m)].key() == nm.start.0 * 3 + 2);
            assert(keyed(ev)[on_index(name, jj)].key() == nj.start.0 * 3 + 2);
            assert(keyed(ev)[off_index(name, jj)].key() == note_end(nj) * 3 + 1);
            assert(nm.start.0 < note_end(nj));
            // The note-off of m comes after jj's: m ends no earlier.
            let qb = pos_of(o, off_index(name, m));
            assert(o[qb] == keyed(ev)[off_index(name, m)]);
            assert(o[p].key() <= o[qb].key());
            assert(keyed(ev)[off_index(name, m)].key() == note_end(nm) * 3 + 1);
            assert(note_end(nj) <= note_end(nm));
        }
    }
}

/// Reading note `jj`'s note-off: its entry stops sounding and the note is read.
#[verifier::rlimit(60)]
proof fn lemma_step_off(
    name: Option<String>,
    notes: Seq<Note>,
    tempos: Seq<(Tick, Tempo)>,
    ev: Seq<(i64, SmfMessageView)>,
    o: Seq<Keyed>,
    p: int,
    st: TrackScan,
    jj: int,
)
    requires
        track_setting(name, notes, ev, o),
        0 <= p < o.len(),
        notes_inv(name, notes, tempos, ev, o, p, st),
        0 <= jj < notes.len(),
        o[p].index == off_index(name, jj),
    ensures
        notes_inv(name, notes, tempos, ev, o, p + 1, scan_event(st, delta_seq(ev, o)[p], 960)),
{
    lemma_setting_basics(name, notes, ev, o);
    lemma_step_at(name, notes, ev, o, p);
    lemma_other_positions(name, notes, ev, o, p);
    lemma_on_before_off(name, notes, ev, o, jj);
    let nj = notes[jj];
    assert(note_valid(nj) && nj.pitch.note <= 127 && nj.pitch.cents == 0);
    assert(ev[off_index(name, jj)] == off_event(nj));
    let t = tick_at(ev, o, p);
    assert(t == note_end(nj));
    if name is Some {
        assert(0 != off_index(name, jj));
    }
    // jj's entry is sounding.
    assert(st.open.contains(entry(nj)));
    let i = choose|i: int| 0 <= i < st.open.len() && st.open[i] == entry(nj);
    lemma_off_unique(name, notes, tempos, ev, o, p, st, jj, i);
    lemma_last_open_unique(st.open, 0u8, key_of(nj), i);
    lemma_rescale_identity(nj.start.0 as int);
    Velocity::lemma_of_own_value(nj.velocity);
    let read = Note {
        pitch: Pitch { note: key_of(nj), cents: 0 },
        velocity: st.open[i].3,
        start: Tick(rescale_spec(st.open[i].2 as int, 960) as i64),
        duration: Tick((t - rescale_spec(st.open[i].2 as int, 960)) as i64),
    };
    assert(read == nj);
    let st2 = scan_event(st, delta_seq(ev, o)[p], 960);
    assert(st2.notes == st.notes.push(nj));
    assert(st2.open == st.open.remove(i));
    assert(st2.name == st.name && st2.tempos == st.tempos);
    assert(!st.notes.contains(nj)) by {
        if st.notes.contains(nj) {
            let m = choose|m: int| 0 <= m < notes.len() && nj == #[trigger] notes[m] && pos_of(o, off_index(name, m)) < p;
            lemma_notes_distinct(notes, m, jj);
        }
    }
    assert(st2.notes.no_duplicates()) by {
        assert forall|a: int, c: int| 0 <= a < st2.notes.len() && 0 <= c < st2.notes.len() && a != c implies st2.notes[a]
            != st2.notes[c] by {
            if a < st.notes.len() && c < st.notes.len() {
            } else if a < st.notes.len() {
                assert(st.notes.contains(st.notes[a]));
            } else if c < st.notes.len() {
                assert(st.notes.contains(st.notes[c]));
            }
        }
    }
    assert(st2.open.no_duplicates()) by {
        assert forall|a: int, c: int| 0 <= a < st2.open.len() && 0 <= c < st2.open.len() && a != c implies st2.open[a]
            != st2.open[c] by {
            let a0 = if a < i { a } else { a + 1 };
            let c0 = if c < i { c } else { c + 1 };
            assert(st2.open[a] == st.open[a0]);
            assert(st2.open[c] == st.open[c0]);
        }
    }
    assert forall|x: Note| #[trigger] st2.notes.contains(x) <==> exists|j: int|
        0 <= j < notes.len() && x == #[trigger] notes[j] && pos_of(o, off_index(name, j)) < p + 1 by {
        if st2.notes.contains(x) {
            if x == nj {
                assert(pos_of(o, off_index(name, jj)) == p);
            } else {
                assert(st.notes.contains(x)) by {
                    let a = choose|a: int| 0 <= a < st2.notes.len() && st2.notes[a] == x;
                    assert(a < st.notes.len());
                    assert(st.notes[a] == x);
                }
                let j = choose|j: int| 0 <= j < notes.len() && x == #[trigger] notes[j] && pos_of(o, off_index(name, j)) < p;
            }
        }
        if exists|j: int| 0 <= j < notes.len() && x == #[trigger] notes[j] && pos_of(o, off_index(name, j)) < p + 1 {
            let j = choose|j: int| 0 <= j < notes.len() && x == #[trigger] notes[j] && pos_of(o, off_index(name, j)) < p + 1;
            if j == jj {
                assert(st2.notes[st.notes.len() as int] == x);
            } else {
                assert(off_index(name, j) != off_index(name, jj));
                assert(st.notes.contains(x));
                let a = choose|a: int| 0 <= a < st.notes.len() && st.notes[a] == x;
                assert(st2.notes[a] == x);
            }
        }
    }
    assert forall|e: (u8, u8, i64, Velocity)| #[trigger] st2.open.contains(e) <==> exists|j: int|
        0 <= j < notes.len() && e == entry(#[trigger] notes[j]) && pos_of(o, on_index(name, j)) < p + 1 && pos_of(
            o,
            off_index(name, j),
        ) >= p + 1 by {
        if st2.open.contains(e) {
            let a = choose|a: int| 0 <= a < st2.open.len() && st2.open[a] == e;
            let a0 = if a < i { a } else { a + 1 };
            assert(st.open[a0] == e);
            assert(a0 != i);
            assert(st.open.contains(e));
            let j = choose|j: int|
                0 <= j < notes.len() && e == entry(#[trigger] notes[j]) && pos_of(o, on_index(name, j)) < p && pos_of(
                    o,
                    off_index(name, j),
                ) >= p;
            if j == jj {
                assert(e == st.open[i]);
            }
            assert(on_index(name, j) != off_index(name, jj));
            assert(off_index(name, j) != off_index(name, jj));
        }
        if exists|j: int|
            0 <= j < notes.len() && e == entry(#[trigger] notes[j]) && pos_of(o, on_index(name, j)) < p + 1 && pos_of(
                o,
                off_index(name, j),
            ) >= p + 1 {
            let j = choose|j: int|
                0 <= j < notes.len() && e == entry(#[trigger] notes[j]) && pos_of(o, on_index(name, j)) < p + 1 && pos_of(
                    o,
                    off_index(name, j),
                ) >= p + 1;
            assert(j != jj);
            assert(on_index(name, j) != off_index(name, jj));
            assert(off_index(name, j) != off_index(name, jj));
            assert(st.open.contains(e));
            let a0 = choose|a0: int| 0 <= a0 < st.open.len() && st.open[a0] == e;
            if a0 == i {
                lemma_notes_distinct(notes, j, jj);
            }
            let a = if a0 < i { a0 } else { a0 - 1 };
            assert(st2.open[a] == e);
        }
    }
}

proof fn lemma_notes_step(
    name: Option<String>,
    notes: Seq<Note>,
    tempos: Seq<(Tick, Tempo)>,
    ev: Seq<(i64, SmfMessageView)>,
    o: Seq<Keyed>,
    p: int,
    st: TrackScan,
)
    requires
        track_setting(name, notes, ev, o),
        0 <= p < o.len(),
        notes_inv(name, notes, tempos, ev, o, p, st),
    ensures
        notes_inv(name, notes, tempos, ev, o, p + 1, scan_event(st, delta_seq(ev, o)[p], 960)),
{
    lemma_setting_basics(name, notes, ev, o);
    let idx = o[p].index as int;
    let b = name_slots(name);
    if name is Some && idx == 0 {
        lemma_step_name(name, notes, tempos, ev, o, p, st);
    } else {
        let j = (idx - b) / 2;
        assert(0 <= j < notes.len());
        if idx == on_index(name, j) {
            lemma_step_on(name, notes, tempos, ev, o, p, st, j);
        } else {
            assert(idx == off_index(name, j));
            lemma_step_off(name, notes, tempos, ev, o, p, st, j);
        }
    }
}

proof fn lemma_notes_scan(
    name: Option<String>,
    notes: Seq<Note>,
    tempos: Seq<(Tick, Tempo)>,
    ev: Seq<(i64, SmfMessageView)>,
    o: Seq<Keyed>,
    p: int,
)
    requires
        track_setting(name, notes, ev, o),
        0 <= p <= o.len(),
    ensures
        notes_inv(name, notes, tempos, ev, o, p, scan_events(delta_seq(ev, o).subrange(0, p), 960, fresh_scan(tempos))),
    decreases p,
{
    lemma_setting_basics(name, notes, ev, o);
    let d = delta_seq(ev, o);
    if p == 0 {
        assert(d.subrange(0, 0) =~= Seq::<SmfEventView>::empty());
        let st = fresh_scan(tempos);
        assert(scan_events(Seq::<SmfEventView>::empty(), 960, st) == st);
        assert forall|x: Note| #[trigger] st.notes.contains(x) <==> exists|j: int|
            0 <= j < notes.len() && x == #[trigger] notes[j] && pos_of(o, off_index(name, j)) < 0 by {
            if exists|j: int| 0 <= j < notes.len() && x == #[trigger] notes[j] && pos_of(o, off_index(name, j)) < 0 {
                let j = choose|j: int| 0 <= j < notes.len() && x == #[trigger] notes[j] && pos_of(o, off_index(name, j)) < 0;
                assert(pos_of(o, off_index(name, j)) >= 0);
            }
        }
        assert forall|e: (u8, u8, i64, Velocity)| #[trigger] st.open.contains(e) <==> exists|j: int|
            0 <= j < notes.len() && e == entry(#[trigger] notes[j]) && pos_of(o, on_index(name, j)) < 0 && pos_of(
                o,
                off_index(name, j),
            ) >= 0 by {
            if exists|j: int|
                0 <= j < notes.len() && e == entry(#[trigger] notes[j]) && pos_of(o, on_index(name, j)) < 0 && pos_of(
                    o,
                    off_index(name, j),
                ) >= 0 {
                let j = choose|j: int|
                    0 <= j < notes.len() && e == entry(#[trigger] notes[j]) && pos_of(o, on_index(name, j)) < 0 && pos_of(
                        o,
                        off_index(name, j),
                    ) >= 0;
                assert(pos_of(o, on_index(name, j)) >= 0);
            }
        }
        if name is Some {
            assert(pos_of(o, 0) >= 0);
        }
    } else {
        lemma_notes_scan(name, notes, tempos, ev, o, p - 1);
        assert(d.subrange(0, p).drop_last() =~= d.subrange(0, p - 1));
        assert(d.subrange(0, p).last() == d[p - 1]);
        lemma_notes_step(
            name,
            notes,
            tempos,
            ev,
            o,
            p - 1,
            scan_events(d.subrange(0, p - 1), 960, fresh_scan(tempos)),
        );
    }
}

/// Reading a whole note track: every note, the name, and the tempos as they were.
proof fn lemma_read_note_track(name: Option<String>, notes: Seq<Note>, tempos: Seq<(Tick, Tempo)>)
    requires
        round_trip_notes(notes),
        pattern_events(name, notes).len() <= usize::MAX,
    ensures
        ({
            let st = scan_events(track_events(pattern_events(name, notes)), 960, fresh_scan(tempos));
            &&& st.tempos == tempos
            &&& st.name == name_read(name)
            &&& st.notes.no_duplicates()
            &&& forall|x: Note| #[trigger] st.notes.contains(x) <==> notes.contains(x)
        }),
{
    let ev = pattern_events(name, notes);
    lemma_stable_sort_exists(keyed(ev));
    let o = choose|o: Seq<Keyed>| is_stable_sort_of(o, keyed(ev));
    lemma_order_facts(ev, o);
    assert(track_setting(name, notes, ev, o));
    lemma_setting_basics(name, notes, ev, o);
    lemma_delta_form(ev, o);
    let d = delta_seq(ev, o);
    lemma_notes_scan(name, notes, tempos, ev, o, o.len() as int);
    assert(d.subrange(0, o.len() as int) =~= d);
    let st = scan_events(d, 960, fresh_scan(tempos));
    assert(d.push(end_of_track()).drop_last() =~= d);
    let st2 = scan_events(track_events(ev), 960, fresh_scan(tempos));
    assert(st2 == scan_event(st, end_of_track(), 960));
    assert(st2.notes == st.notes && st2.name == st.name && st2.tempos == st.tempos);
    if name is Some {
        assert(pos_of(o, 0) < o.len());
    }
    assert forall|x: Note| #[trigger] st2.notes.contains(x) <==> notes.contains(x) by {
        if st.notes.contains(x) {
            let j = choose|j: int|
                0 <= j < notes.len() && x == #[trigger] notes[j] && pos_of(o, off_index(name, j)) < o.len();
        }
        if notes.contains(x) {
            let j = choose|j: int| 0 <= j < notes.len() && notes[j] == x;
            assert(pos_of(o, off_index(name, j)) < o.len());
        }
    }
}

/// A song whose note tracks read back exactly.
pub open spec fn round_trip_song(song: SmfSong) -> bool {
    &&& forall|i: int|
        0 <= i < song.tempo_map@.len() ==> (#[trigger] song.tempo_map@[i]).0.0 < 0x1000_0000
            && song.tempo_map@[i].1.micros_per_quarter < 0x100_0000
    &&& forall|t: int|
        0 <= t < song.tracks@.len() ==> {
            &&& round_trip_notes((#[trigger] song.tracks@[t]).1@.notes)
            &&& song.tracks@[t].1@.notes.len() > 0
            &&& pattern_events(song.tracks@[t].0, song.tracks@[t].1@.notes).len() <= usize::MAX
        }
}

/// Importing the first `n` exported tracks reads back each note track's
/// name and notes (in closing order).
proof fn lemma_exported_outs(song: SmfSong, n: int)
    requires
        map_wf(song.tempo_map@),
        song.tempo_map@.len() <= usize::MAX,
        round_trip_song(song),
        1 <= n <= exported(song).data.tracks.len(),
    ensures
        ({
            let outs = import_fold(exported(song).data.tracks.subrange(0, n), 960).0;
            &&& outs.len() == n - 1
            &&& forall|t: int|
                0 <= t < n - 1 ==> {
                    &&& (#[trigger] outs[t]).0 == name_read(song.tracks@[t].0)
                    &&& outs[t].1.no_duplicates()
                    &&& forall|x: Note| outs[t].1.contains(x) <==> song.tracks@[t].1@.notes.contains(x)
                }
        }),
    decreases n,
{
    let tracks = exported(song).data.tracks;
    let sub = tracks.subrange(0, n);
    if n == 1 {
        assert(sub.drop_last() =~= Seq::<Seq<SmfEventView>>::empty());
        assert(sub.last() == track_events(tempo_events(song.tempo_map@)));
        lemma_tempo_track(song.tempo_map@);
        let e = import_fold(sub.drop_last(), 960);
        assert(e.0 =~= Seq::<(Option<Seq<char>>, Seq<Note>)>::empty());
        assert(e.1 =~= Seq::<(Tick, Tempo)>::empty());
        let st = scan_events(sub.last(), 960, fresh_scan(e.1));
        assert(st.notes.len() == 0);
        assert(import_fold(sub, 960).0 == e.0);
    } else {
        lemma_exported_outs(song, n - 1);
        assert(sub.drop_last() =~= tracks.subrange(0, n - 1));
        let t = n - 1;
        assert(sub.last() == tracks[t]);
        let name = song.tracks@[t - 1].0;
        let notes = song.tracks@[t - 1].1@.notes;
        assert(tracks[t] == track_events(pattern_events(name, notes)));
        assert(round_trip_notes(notes) && notes.len() > 0);
        let prev = import_fold(tracks.subrange(0, n - 1), 960);
        lemma_read_note_track(name, notes, prev.1);
        let st = scan_events(tracks[t], 960, fresh_scan(prev.1));
        assert(notes.contains(notes[0]));
        assert(st.notes.contains(notes[0]));
        assert(st.notes.len() > 0);
        let outs = import_fold(sub, 960).0;
        assert(outs == prev.0.push((st.name, st.notes)));
        assert forall|u: int| 0 <= u < n - 1 implies {
            &&& (#[trigger] outs[u]).0 == name_read(song.tracks@[u].0)
            &&& outs[u].1.no_duplicates()
            &&& forall|x: Note| outs[u].1.contains(x) <==> song.tracks@[u].1@.notes.contains(x)
        } by {
            if u < n - 2 {
                assert(outs[u] == prev.0[u]);
            }
        }
    }
}

/// Importing what exporting a song produces gives back the song: the tempo
/// map, one track per pattern with its notes, and each name as the text its
/// UTF-8 bytes decode to. It holds when the notes read back exactly (they
/// end within the first 2^28 ticks, sit on MIDI keys without cents, and no
/// two notes of one key sound at once) and every track has notes.
pub proof fn law_export_import_round_trip(song: SmfSong, imported: SmfSong)
    requires
        song.tempo_map.wf(),
        forall|t: int| 0 <= t < song.tracks@.len() ==> (#[trigger] song.tracks@[t]).1.wf(),
        round_trip_song(song),
        song_imported(imported, exported(song).data.tracks, 960),
    ensures
        imported.tempo_map@ == song.tempo_map@,
        imported.tracks@.len() == song.tracks@.len(),
        forall|t: int|
            0 <= t < song.tracks@.len() ==> (#[trigger] imported.tracks@[t]).1@.notes == song.tracks@[t].1@.notes
                && name_is(imported.tracks@[t].0, name_read(song.tracks@[t].0)),
{
    law_export_import_keeps_tempo(song, imported);
    song.tempo_map.lemma_len_bound();
    let tracks = exported(song).data.tracks;
    lemma_exported_outs(song, tracks.len() as int);
    assert(tracks.subrange(0, tracks.len() as int) =~= tracks);
    let outs = import_fold(tracks, 960).0;
    assert forall|t: int| 0 <= t < song.tracks@.len() implies (#[trigger] imported.tracks@[t]).1@.notes
        == song.tracks@[t].1@.notes && name_is(imported.tracks@[t].0, name_read(song.tracks@[t].0)) by {
        let notes = song.tracks@[t].1@.notes;
        assert(song.tracks@[t].1.wf());
        assert(round_trip_notes(notes));
        let read = outs[t].1;
        assert(distinct_keys(notes)) by {
            assert forall|a: int, b: int| 0 <= a < b < notes.len() implies (#[trigger] notes[a]).key() != (#[trigger] notes[b]).key() by {
                assert(note_valid(notes[a]) && note_valid(notes[b]));
                assert(notes[a].pitch.note <= 127 && notes[b].pitch.note <= 127);
                if notes[a].key() == notes[b].key() {
                    assert(notes[a].start.0 == notes[b].start.0 && notes[a].pitch.note == notes[b].pitch.note) by (nonlinear_arith)
                        requires
                            notes[a].start.0 * 256 + notes[a].pitch.note == notes[b].start.0 * 256 + notes[b].pitch.note,
                            notes[a].pitch.note <= 127,
                            notes[b].pitch.note <= 127,
                    ;
                    lemma_notes_distinct(notes, a, b);
                }
            }
        }
        assert(distinct_keys(read)) by {
            assert forall|a: int, b: int| 0 <= a < b < read.len() implies (#[trigger] read[a]).key() != (#[trigger] read[b]).key() by {
                assert(read.contains(read[a]) && read.contains(read[b]));
                assert(notes.contains(read[a]) && notes.contains(read[b]));
                let ia = choose|ia: int| 0 <= ia < notes.len() && notes[ia] == read[a];
                let ib = choose|ib: int| 0 <= ib < notes.len() && notes[ib] == read[b];
                assert(read[a] != read[b]);
                assert(ia != ib);
                if ia < ib {
                    assert(notes[ia].key() != notes[ib].key());
                } else {
                    assert(notes[ib].key() != notes[ia].key());
                }
            }
        }
        lemma_sort_of_rearrangement(imported.tracks@[t].1@.notes, read, notes);
    }
}

} // verus!
