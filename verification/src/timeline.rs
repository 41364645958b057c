//! Musical timeline: tempo maps, time signatures, and tick/time conversion.
//!
//! Wall-clock time is derived from integer ticks through the [`TempoMap`]
//! with exact integer arithmetic (`i128` intermediates).

use vstd::prelude::*;
use crate::core_types::{Tempo, Tick, TimeSignature, PPQ};
use crate::sorting::{is_stable_sort_of, key_class, lemma_stable_sort_same_elements, sorted_by_key, stable_sort, SortKey};

verus! {

/// Number of entries whose tick lies strictly before `at`.
pub open spec fn count_lt<V>(s: Seq<(Tick, V)>, at: int) -> nat
    decreases s.len(),
{
    if s.len() == 0 {
        0
    } else {
        (if s[0].0.0 < at {
            1nat
        } else {
            0nat
        }) + count_lt(s.drop_first(), at)
    }
}

/// Entries sorted by strictly increasing tick.
pub open spec fn strictly_sorted<V>(s: Seq<(Tick, V)>) -> bool {
    forall|i: int, j: int| 0 <= i < j < s.len() ==> s[i].0.0 < s[j].0.0
}

/// Invariant TM1: sorted, unique ticks, and an entry at tick 0.
pub open spec fn map_wf<V>(s: Seq<(Tick, V)>) -> bool {
    &&& s.len() > 0
    &&& s[0].0.0 == 0
    &&& strictly_sorted(s)
}

/// Whether an entry sits exactly at `at`.
pub open spec fn has_entry_at<V>(s: Seq<(Tick, V)>, at: int) -> bool {
    let i = count_lt(s, at) as int;
    i < s.len() && s[i].0.0 == at
}

/// The value in effect at `at` (the first entry's value before the origin).
pub open spec fn value_at<V>(s: Seq<(Tick, V)>, at: int) -> V {
    let i = count_lt(s, at) as int;
    if has_entry_at(s, at) {
        s[i].1
    } else if i == 0 {
        s[0].1
    } else {
        s[i - 1].1
    }
}

/// The map after setting the entry at `at` to `v`.
pub open spec fn set_entry<V>(s: Seq<(Tick, V)>, at: int, v: V) -> Seq<(Tick, V)> {
    let i = count_lt(s, at) as int;
    if has_entry_at(s, at) {
        s.update(i, (s[i].0, v))
    } else {
        s.insert(i, (Tick(at as i64), v))
    }
}

/// The map after removing the entry at `at`, if there is one.
pub open spec fn remove_entry<V>(s: Seq<(Tick, V)>, at: int) -> Seq<(Tick, V)> {
    if has_entry_at(s, at) {
        s.remove(count_lt(s, at) as int)
    } else {
        s
    }
}

/// The value of the entry exactly at `at`, if any.
pub open spec fn entry_at<V>(s: Seq<(Tick, V)>, at: int) -> Option<V> {
    if has_entry_at(s, at) {
        Some(s[count_lt(s, at) as int].1)
    } else {
        None
    }
}

/// Setting an entry makes it the one found there and leaves every other
/// position's entry as it was.
pub proof fn law_tempo_entry_read_after_write<V>(s: Seq<(Tick, V)>, at: int, v: V, other: int)
    requires
        map_wf(s),
        0 <= at <= i64::MAX,
    ensures
        entry_at(set_entry(s, at, v), at) == Some(v),
        other != at ==> entry_at(set_entry(s, at, v), other) == entry_at(s, other),
{
    let i = count_lt(s, at) as int;
    lemma_count_lt_prefix(s, at);
    let t = set_entry(s, at, v);
    if has_entry_at(s, at) {
        assert forall|j: int| 0 <= j < t.len() implies #[trigger] t[j].0 == s[j].0 by {}
        lemma_count_lt_prefix(s, other);
        let c = count_lt(s, other) as int;
        lemma_count_lt_sorted(t, at, i);
        lemma_count_lt_sorted(t, other, c);
    } else {
        assert(t == s.insert(i, (Tick(at as i64), v)));
        assert(strictly_sorted(t)) by {
            assert forall|a: int, b: int| 0 <= a < b < t.len() implies t[a].0.0 < t[b].0.0 by {
                if b < i {
                } else if b == i {
                    assert(t[a] == s[a]);
                } else if a < i {
                    assert(t[b] == s[b - 1]);
                } else if a == i {
                    assert(t[b] == s[b - 1]);
                    if b - 1 == i {
                        assert(s[i].0.0 != at);
                    }
                } else {
                    assert(t[a] == s[a - 1] && t[b] == s[b - 1]);
                }
            }
        }
        assert forall|j: int| i < j < t.len() implies t[j].0.0 >= at by {
            assert(t[j] == s[j - 1]);
        }
        lemma_count_lt_sorted(t, at, i);
        if other != at {
            lemma_count_lt_prefix(s, other);
            let c = count_lt(s, other) as int;
            if at < other {
                assert(c >= i) by {
                    if c < i {
                        assert(s[c].0.0 >= other);
                    }
                }
                assert forall|j: int| 0 <= j < c + 1 implies t[j].0.0 < other by {
                    if j > i {
                        assert(t[j] == s[j - 1]);
                    }
                }
                assert forall|j: int| c + 1 <= j < t.len() implies t[j].0.0 >= other by {
                    assert(t[j] == s[j - 1]);
                }
                lemma_count_lt_sorted(t, other, c + 1);
                if c < s.len() {
                    assert(t[c + 1] == s[c]);
                }
            } else {
                assert(c <= i) by {
                    if c > i {
                        assert(s[i].0.0 < other);
                        assert(s[i].0.0 >= at);
                    }
                }
                assert forall|j: int| 0 <= j < c implies t[j].0.0 < other by {
                    assert(t[j] == s[j]);
                }
                assert forall|j: int| c <= j < t.len() implies t[j].0.0 >= other by {
                    if j < i {
                        assert(t[j] == s[j]);
                    } else if j > i {
                        assert(t[j] == s[j - 1]);
                    }
                }
                lemma_count_lt_sorted(t, other, c);
                if c < i {
                    assert(t[c] == s[c]);
                }
                if c == i && i < s.len() {
                    assert(s[i].0.0 >= at);
                }
            }
        }
    }
}

/// Removing an entry leaves no entry there and every other position's entry
/// as it was.
pub proof fn law_tempo_entry_gone_after_remove<V>(s: Seq<(Tick, V)>, at: int, other: int)
    requires
        map_wf(s),
    ensures
        entry_at(remove_entry(s, at), at) is None,
        other != at ==> entry_at(remove_entry(s, at), other) == entry_at(s, other),
{
    let i = count_lt(s, at) as int;
    lemma_count_lt_prefix(s, at);
    if has_entry_at(s, at) {
        let t = s.remove(i);
        assert(remove_entry(s, at) == t);
        assert(strictly_sorted(t)) by {
            assert forall|a: int, b: int| 0 <= a < b < t.len() implies t[a].0.0 < t[b].0.0 by {
                if a < i {
                    assert(t[a] == s[a]);
                } else {
                    assert(t[a] == s[a + 1]);
                }
                if b < i {
                    assert(t[b] == s[b]);
                } else {
                    assert(t[b] == s[b + 1]);
                }
            }
        }
        assert forall|j: int| 0 <= j < i implies t[j].0.0 < at by {
            assert(t[j] == s[j]);
        }
        assert forall|j: int| i <= j < t.len() implies t[j].0.0 > at by {
            assert(t[j] == s[j + 1]);
        }
        lemma_count_lt_sorted(t, at, i);
        if other != at {
            lemma_count_lt_prefix(s, other);
            let c = count_lt(s, other) as int;
            if at < other {
                assert(c >= i + 1) by {
                    if c <= i {
                        assert(s[i].0.0 >= other);
                    }
                }
                assert forall|j: int| 0 <= j < c - 1 implies t[j].0.0 < other by {
                    if j < i {
                        assert(t[j] == s[j]);
                    } else {
                        assert(t[j] == s[j + 1]);
                    }
                }
                assert forall|j: int| c - 1 <= j < t.len() implies t[j].0.0 >= other by {
                    assert(t[j] == s[j + 1]);
                }
                lemma_count_lt_sorted(t, other, c - 1);
                if c < s.len() {
                    assert(t[c - 1] == s[c]);
                }
            } else {
                assert(c <= i) by {
                    if c > i {
                        assert(s[i].0.0 < other);
                    }
                }
                assert forall|j: int| 0 <= j < c implies t[j].0.0 < other by {
                    assert(t[j] == s[j]);
                }
                assert forall|j: int| c <= j < t.len() implies t[j].0.0 >= other by {
                    if j < i {
                        assert(t[j] == s[j]);
                    } else {
                        assert(t[j] == s[j + 1]);
                    }
                }
                lemma_count_lt_sorted(t, other, c);
                if c < i {
                    assert(t[c] == s[c]);
                }
                if c == i && i < t.len() {
                    assert(t[i] == s[i + 1]);
                }
            }
        }
    }
}

/// In a sorted map the entries before `at` are exactly a prefix.
pub proof fn lemma_count_lt_sorted<V>(s: Seq<(Tick, V)>, at: int, i: int)
    requires
        strictly_sorted(s),
        0 <= i <= s.len(),
        forall|j: int| 0 <= j < i ==> s[j].0.0 < at,
        forall|j: int| i <= j < s.len() ==> s[j].0.0 >= at,
    ensures
        count_lt(s, at) == i,
    decreases s.len(),
{
    if s.len() > 0 {
        if i > 0 {
            lemma_count_lt_sorted(s.drop_first(), at, i - 1);
        } else {
            lemma_count_lt_sorted(s.drop_first(), at, 0);
        }
    }
}

/// The prefix characterisation of `count_lt` for sorted maps.
pub proof fn lemma_count_lt_prefix<V>(s: Seq<(Tick, V)>, at: int)
    requires
        strictly_sorted(s),
    ensures
        count_lt(s, at) <= s.len(),
        forall|j: int| 0 <= j < count_lt(s, at) ==> s[j].0.0 < at,
        forall|j: int| count_lt(s, at) <= j < s.len() ==> s[j].0.0 >= at,
    decreases s.len(),
{
    if s.len() > 0 {
        let t = s.drop_first();
        assert(strictly_sorted(t));
        lemma_count_lt_prefix(t, at);
        if s[0].0.0 < at {
            assert forall|j: int| 0 <= j < count_lt(s, at) implies s[j].0.0 < at by {
                if j > 0 {
                    assert(s[j] == t[j - 1]);
                }
            }
            assert forall|j: int| count_lt(s, at) <= j < s.len() implies s[j].0.0 >= at by {
                assert(s[j] == t[j - 1]);
            }
        } else {
            if t.len() > 0 {
                assert(t[0].0.0 > s[0].0.0);
            }
            lemma_count_lt_sorted(t, at, 0);
            assert forall|j: int| 0 <= j < s.len() implies s[j].0.0 >= at by {
                if j > 0 {
                    assert(s[0].0.0 < s[j].0.0);
                }
            }
        }
    }
}

/// Setting and removing keep the map invariant.
pub proof fn lemma_set_remove_wf<V>(s: Seq<(Tick, V)>, at: int, v: V)
    requires
        map_wf(s),
        0 <= at <= i64::MAX,
    ensures
        map_wf(set_entry(s, at, v)),
        at != 0 ==> map_wf(remove_entry(s, at)),
{
    lemma_count_lt_prefix(s, at);
    let i = count_lt(s, at) as int;
    let r = set_entry(s, at, v);
    if has_entry_at(s, at) {
        assert(strictly_sorted(r));
    } else {
        if i == 0 {
            assert(s[0].0.0 >= at);
            assert(s[0].0.0 == 0);
        }
        assert forall|a: int, b: int| 0 <= a < b < r.len() implies r[a].0.0 < r[b].0.0 by {
            if b < i {
            } else if a < i && b == i {
            } else if a < i {
                assert(r[b] == s[b - 1]);
            } else if a == i {
                assert(r[b] == s[b - 1]);
            } else {
                assert(r[a] == s[a - 1]);
                assert(r[b] == s[b - 1]);
            }
        }
    }
    if at != 0 && has_entry_at(s, at) {
        let q = remove_entry(s, at);
        assert(i > 0);
        assert forall|a: int, b: int| 0 <= a < b < q.len() implies q[a].0.0 < q[b].0.0 by {
            if b < i {
            } else if a < i {
                assert(q[b] == s[b + 1]);
            } else {
                assert(q[a] == s[a + 1]);
                assert(q[b] == s[b + 1]);
            }
        }
    }
}

/// Setting a fresh entry and then removing it gives back the map.
pub proof fn lemma_set_fresh_then_remove<V>(s: Seq<(Tick, V)>, at: int, v: V)
    requires
        map_wf(s),
        0 <= at <= i64::MAX,
        !has_entry_at(s, at),
    ensures
        remove_entry(set_entry(s, at, v), at) == s,
{
    lemma_count_lt_prefix(s, at);
    let i = count_lt(s, at) as int;
    let r = set_entry(s, at, v);
    lemma_set_remove_wf(s, at, v);
    lemma_count_lt_sorted(r, at, i);
    assert(r.remove(i) =~= s);
}

/// Setting an existing entry twice keeps only the last value, and setting it
/// back to its previous value gives back the map.
pub proof fn lemma_set_existing_then_restore<V>(s: Seq<(Tick, V)>, at: int, v: V)
    requires
        map_wf(s),
        0 <= at <= i64::MAX,
        has_entry_at(s, at),
    ensures
        has_entry_at(set_entry(s, at, v), at),
        entry_at(set_entry(s, at, v), at) == Some(v),
        set_entry(set_entry(s, at, v), at, entry_at(s, at)->0) == s,
{
    lemma_count_lt_prefix(s, at);
    let i = count_lt(s, at) as int;
    let r = set_entry(s, at, v);
    lemma_set_remove_wf(s, at, v);
    lemma_count_lt_sorted(r, at, i);
    assert(r.update(i, (r[i].0, s[i].1)) =~= s);
}

/// Finds the insertion index of `at` in sorted entries.
fn search<V: Copy>(entries: &Vec<(Tick, V)>, at: i64) -> (r: (usize, bool))
    requires
        strictly_sorted(entries@),
    ensures
        r.0 == count_lt(entries@, at as int),
        r.0 <= entries@.len(),
        r.1 == has_entry_at(entries@, at as int),
{
    let mut i: usize = 0;
    while i < entries.len() && entries[i].0.0 < at
        invariant
            i <= entries.len(),
            forall|j: int| 0 <= j < i ==> entries@[j].0.0 < at,
        decreases entries.len() - i,
    {
        i += 1;
    }
    proof {
        lemma_count_lt_prefix(entries@, at as int);
        if i < entries.len() {
            assert forall|j: int| i <= j < entries@.len() implies entries@[j].0.0 >= at by {
                if j > i {
                    assert(entries@[i as int].0.0 < entries@[j].0.0);
                }
            }
        }
        lemma_count_lt_sorted(entries@, at as int, i as int);
    }
    let found = i < entries.len() && entries[i].0.0 == at;
    (i, found)
}

/// Microseconds covered by the segments from entry `i` up to `at`.
pub open spec fn micros_from(s: Seq<(Tick, Tempo)>, i: int, at: int) -> int
    decreases s.len() - i,
{
    if i < 0 || i >= s.len() || s[i].0.0 >= at {
        0
    } else {
        let seg_end = if i + 1 < s.len() && s[i + 1].0.0 < at {
            s[i + 1].0.0 as int
        } else {
            at
        };
        (seg_end - s[i].0.0) * (s[i].1.micros_per_quarter as int) / (PPQ as int) + micros_from(
            s,
            i + 1,
            at,
        )
    }
}

/// Microseconds from the origin to `at` (negative positions clamp to the origin).
pub open spec fn tick_micros(s: Seq<(Tick, Tempo)>, at: int) -> int {
    micros_from(s, 0, if at < 0 {
        0
    } else {
        at
    })
}

/// Time runs at the tempo in force: under a single tempo from the origin,
/// position `t` lies `t` quarters' worth of that tempo's microseconds in
/// (a quarter note, `PPQ` ticks, lasts exactly `micros_per_quarter`); after
/// a change at tick `c` the time up to `c` runs at the first tempo and the
/// rest at the second.
pub proof fn law_tempo_sets_the_pace(a: Tempo, b: Tempo, c: int, t: int)
    requires
        0 < c <= i64::MAX,
        0 <= t,
    ensures
        tick_micros(seq![(Tick(0), a)], t) == t * (a.micros_per_quarter as int) / (PPQ as int),
        t <= c ==> tick_micros(seq![(Tick(0), a), (Tick(c as i64), b)], t) == t * (a.micros_per_quarter as int) / (PPQ as int),
        t > c ==> tick_micros(seq![(Tick(0), a), (Tick(c as i64), b)], t) == c * (a.micros_per_quarter as int) / (PPQ as int)
            + (t - c) * (b.micros_per_quarter as int) / (PPQ as int),
{
    let one = seq![(Tick(0), a)];
    let two = seq![(Tick(0), a), (Tick(c as i64), b)];
    reveal_with_fuel(micros_from, 3);
    if t == 0 {
        assert(micros_from(one, 0, 0) == 0);
        assert(micros_from(two, 0, 0) == 0);
    } else {
        assert(micros_from(one, 1, t) == 0);
        assert(micros_from(two, 2, t) == 0);
        if t <= c {
            assert(micros_from(two, 1, t) == 0);
        }
    }
}

/// Samples from the origin to `at` at `rate` Hz.
pub open spec fn tick_samples(s: Seq<(Tick, Tempo)>, at: int, rate: int) -> int {
    tick_micros(s, at) * rate / 1_000_000
}

proof fn lemma_micros_from_mono(s: Seq<(Tick, Tempo)>, i: int, a: int, b: int)
    requires
        strictly_sorted(s),
        0 <= i,
        forall|j: int| 0 <= j < s.len() ==> (#[trigger] s[j]).0.0 >= 0,
        0 <= a <= b,
    ensures
        micros_from(s, i, a) <= micros_from(s, i, b),
    decreases s.len() - i,
{
    if i < s.len() {
        if s[i].0.0 < a {
            lemma_micros_from_mono(s, i + 1, a, b);
            let ea = if i + 1 < s.len() && s[i + 1].0.0 < a {
                s[i + 1].0.0 as int
            } else {
                a
            };
            let eb = if i + 1 < s.len() && s[i + 1].0.0 < b {
                s[i + 1].0.0 as int
            } else {
                b
            };
            let m = s[i].1.micros_per_quarter as int;
            let st = s[i].0.0 as int;
            assert((ea - st) * m / 960 <= (eb - st) * m / 960) by (nonlinear_arith)
                requires
                    st <= ea <= eb,
                    m >= 0,
            ;
        } else if s[i].0.0 < b {
            lemma_micros_bound(s, i, b);
        }
    }
}

/// Times on a well-formed tempo map never decrease as ticks grow.
pub proof fn lemma_micros_mono(s: Seq<(Tick, Tempo)>, a: int, b: int)
    requires
        map_wf(s),
        a <= b,
    ensures
        tick_micros(s, a) <= tick_micros(s, b),
{
    assert forall|j: int| 0 <= j < s.len() implies (#[trigger] s[j]).0.0 >= 0 by {
        if j > 0 {
            assert(s[0].0.0 < s[j].0.0);
        }
    }
    lemma_micros_from_mono(s, 0, if a < 0 {
        0
    } else {
        a
    }, if b < 0 {
        0
    } else {
        b
    });
}

/// Times on a well-formed tempo map are never negative.
pub proof fn lemma_micros_nonneg(s: Seq<(Tick, Tempo)>, at: int)
    requires
        map_wf(s),
    ensures
        tick_micros(s, at) >= 0,
{
    lemma_micros_bound(s, 0, if at < 0 {
        0
    } else {
        at
    });
}

proof fn lemma_micros_bound(s: Seq<(Tick, Tempo)>, i: int, at: int)
    requires
        strictly_sorted(s),
        0 <= i < s.len(),
        s[i].0.0 >= 0,
        at >= 0,
    ensures
        0 <= micros_from(s, i, at),
        micros_from(s, i, at) <= (if at > s[i].0.0 {
            at - s[i].0.0
        } else {
            0
        }) * 0x1_0000_0000,
    decreases s.len() - i,
{
    if s[i].0.0 < at {
        let seg_end = if i + 1 < s.len() && s[i + 1].0.0 < at {
            s[i + 1].0.0 as int
        } else {
            at
        };
        let d = seg_end - s[i].0.0;
        let m = s[i].1.micros_per_quarter as int;
        let term = d * m / 960;
        assert(0 <= term <= d * 0x1_0000_0000) by (nonlinear_arith)
            requires
                d >= 0,
                0 <= m < 0x1_0000_0000,
                term == d * m / 960,
        ;
        let rest = micros_from(s, i + 1, at);
        assert(micros_from(s, i, at) == term + rest);
        if i + 1 < s.len() {
            assert(s[i].0.0 < s[i + 1].0.0);
            lemma_micros_bound(s, i + 1, at);
            if s[i + 1].0.0 < at {
                assert(rest <= (at - seg_end) * 0x1_0000_0000);
                assert(d * 0x1_0000_0000 + (at - seg_end) * 0x1_0000_0000 == (at - s[i].0.0)
                    * 0x1_0000_0000);
            } else {
                assert(rest == 0);
            }
        } else {
            assert(rest == 0);
        }
    }
}

/// Tempo changes over the timeline (invariant TM1: sorted, unique ticks,
/// entry at tick 0).
#[derive(Debug, Clone, PartialEq, Eq)]
pub struct TempoMap {
    entries: Vec<(Tick, Tempo)>,
}

impl View for TempoMap {
    type V = Seq<(Tick, Tempo)>;

    closed spec fn view(&self) -> Seq<(Tick, Tempo)> {
        self.entries@
    }
}

impl SortKey for (Tick, Tempo) {
    open spec fn key(&self) -> int {
        self.0.0 as int
    }

    fn sort_key(&self) -> (k: i128) {
        self.0.0 as i128
    }
}

/// Some entry of `s` is at tick zero and none is negative.
pub open spec fn has_origin_and_no_negative(s: Seq<(Tick, Tempo)>) -> bool {
    &&& exists|i: int| 0 <= i < s.len() && s[i].0.0 == 0
    &&& forall|i: int| 0 <= i < s.len() ==> s[i].0.0 >= 0
}

/// Two entries of `s` share a tick.
pub open spec fn has_duplicate_tick(s: Seq<(Tick, Tempo)>) -> bool {
    exists|i: int, j: int| 0 <= i < j < s.len() && s[i].0.0 == s[j].0.0
}

proof fn lemma_class_len_two<T: SortKey>(s: Seq<T>, k: int)
    ensures
        key_class(s, k).len() >= 2 <==> exists|i: int, j: int|
            0 <= i < j < s.len() && s[i].key() == k && s[j].key() == k,
    decreases s.len(),
{
    if s.len() > 0 {
        let t = s.drop_last();
        lemma_class_len_two(t, k);
        lemma_class_len_one(t, k);
        if exists|i: int, j: int| 0 <= i < j < s.len() && s[i].key() == k && s[j].key() == k {
            let (i, j) = choose|i: int, j: int|
                0 <= i < j < s.len() && s[i].key() == k && s[j].key() == k;
            if j < s.len() - 1 {
                assert(t[i] == s[i] && t[j] == s[j]);
            } else {
                assert(t[i] == s[i]);
            }
        }
        if key_class(s, k).len() >= 2 {
            if s.last().key() == k {
                let i = choose|i: int| 0 <= i < t.len() && t[i].key() == k;
                assert(s[i] == t[i]);
                assert(s[s.len() - 1].key() == k);
            } else {
                let (i, j) = choose|i: int, j: int|
                    0 <= i < j < t.len() && t[i].key() == k && t[j].key() == k;
                assert(s[i] == t[i] && s[j] == t[j]);
            }
        }
    }
}

proof fn lemma_class_len_one<T: SortKey>(s: Seq<T>, k: int)
    ensures
        key_class(s, k).len() >= 1 <==> exists|i: int| 0 <= i < s.len() && s[i].key() == k,
    decreases s.len(),
{
    if s.len() > 0 {
        let t = s.drop_last();
        lemma_class_len_one(t, k);
        if exists|i: int| 0 <= i < t.len() && t[i].key() == k {
            let i = choose|i: int| 0 <= i < t.len() && t[i].key() == k;
            assert(s[i] == t[i]);
        }
        if exists|i: int| 0 <= i < s.len() && s[i].key() == k {
            let i = choose|i: int| 0 <= i < s.len() && s[i].key() == k;
            if i < s.len() - 1 {
                assert(t[i] == s[i]);
            }
        }
    }
}

impl TempoMap {
    /// A tempo map holds at most `usize::MAX` entries.
    pub proof fn lemma_len_bound(&self)
        ensures
            self@.len() <= usize::MAX,
    {
        assert(self.entries.len() == self.entries@.len());
    }

    /// The map invariant.
    pub open spec fn wf(&self) -> bool {
        map_wf(self@)
    }

    /// A constant-tempo map.
    pub fn constant(tempo: Tempo) -> (m: TempoMap)
        ensures
            m@ == seq![(Tick(0), tempo)],
            m.wf(),
    {
        let mut entries = Vec::new();
        entries.push((Tick(0), tempo));
        TempoMap { entries }
    }

    /// Builds a map from entries, sorting them.
    ///
    /// Errors: `Empty` for no entries, `NoOrigin` when there is no entry at
    /// tick 0 or some entry lies before it, `DuplicateTick` when two entries
    /// share a tick.
    pub fn new(entries: Vec<(Tick, Tempo)>) -> (r: Result<TempoMap, TimelineError>)
        ensures
            entries@.len() == 0 ==> r == Err::<TempoMap, TimelineError>(TimelineError::Empty),
            entries@.len() > 0 && !has_origin_and_no_negative(entries@) ==> r == Err::<
                TempoMap,
                TimelineError,
            >(TimelineError::NoOrigin),
            entries@.len() > 0 && has_origin_and_no_negative(entries@) && has_duplicate_tick(
                entries@,
            ) ==> r == Err::<TempoMap, TimelineError>(TimelineError::DuplicateTick),
            r is Ok <==> entries@.len() > 0 && has_origin_and_no_negative(entries@)
                && !has_duplicate_tick(entries@),
            r matches Ok(m) ==> m.wf() && is_stable_sort_of(m@, entries@),
    {
        if entries.len() == 0 {
            return Err(TimelineError::Empty);
        }
        let sorted = stable_sort(&entries);
        proof {
            assert(sorted@.len() > 0);
        }
        if sorted[0].0.0 != 0 {
            proof {
                if has_origin_and_no_negative(entries@) {
                    let i = choose|i: int| 0 <= i < entries@.len() && entries@[i].0.0 == 0;
                    assert(entries@.contains(entries@[i]));
                    lemma_stable_sort_same_elements(sorted@, entries@, entries@[i]);
                    let j = choose|j: int| 0 <= j < sorted@.len() && sorted@[j] == entries@[i];
                    assert(sorted@[0].key() <= sorted@[j].key());
                    assert(sorted@.contains(sorted@[0]));
                    lemma_stable_sort_same_elements(sorted@, entries@, sorted@[0]);
                    let k = choose|k: int| 0 <= k < entries@.len() && entries@[k] == sorted@[0];
                    assert(entries@[k].0.0 >= 0);
                }
            }
            return Err(TimelineError::NoOrigin);
        }
        proof {
            assert forall|i: int| 0 <= i < entries@.len() implies entries@[i].0.0 >= 0 by {
                assert(entries@.contains(entries@[i]));
                lemma_stable_sort_same_elements(sorted@, entries@, entries@[i]);
                let j = choose|j: int| 0 <= j < sorted@.len() && sorted@[j] == entries@[i];
                assert(sorted@[0].key() <= sorted@[j].key());
            }
            assert(sorted@.contains(sorted@[0]));
            lemma_stable_sort_same_elements(sorted@, entries@, sorted@[0]);
        }
        let mut i: usize = 1;
        while i < sorted.len()
            invariant
                1 <= i <= sorted.len(),
                sorted_by_key(sorted@),
                is_stable_sort_of(sorted@, entries@),
                entries@.len() > 0,
                has_origin_and_no_negative(entries@),
                forall|a: int, b: int| 0 <= a < b < i ==> sorted@[a].0.0 < sorted@[b].0.0,
            decreases sorted.len() - i,
        {
            if sorted[i - 1].0.0 == sorted[i].0.0 {
                proof {
                    let k = sorted@[i as int].key();
                    lemma_class_len_two(sorted@, k);
                    assert(key_class(sorted@, k) == key_class(entries@, k));
                    lemma_class_len_two(entries@, k);
                    let (a, b) = choose|a: int, b: int|
                        0 <= a < b < entries@.len() && entries@[a].key() == k && entries@[b].key()
                            == k;
                }
                return Err(TimelineError::DuplicateTick);
            }
            proof {
                assert forall|a: int, b: int| 0 <= a < b < i + 1 implies sorted@[a].0.0
                    < sorted@[b].0.0 by {
                    if b == i && a < i - 1 {
                        assert(sorted@[a].0.0 < sorted@[i - 1].0.0);
                    }
                }
            }
            i += 1;
        }
        proof {
            if has_duplicate_tick(entries@) {
                let (a, b) = choose|a: int, b: int|
                    0 <= a < b < entries@.len() && entries@[a].0.0 == entries@[b].0.0;
                let k = entries@[a].key();
                lemma_class_len_two(entries@, k);
                assert(key_class(sorted@, k) == key_class(entries@, k));
                lemma_class_len_two(sorted@, k);
            }
        }
        Ok(TempoMap { entries: sorted })
    }

    /// The tempo change entries, sorted by tick.
    pub fn entries(&self) -> (r: &Vec<(Tick, Tempo)>)
        ensures
            r@ == self@,
    {
        &self.entries
    }

    /// Sets (adds or replaces) the tempo entry at exactly `at`, returning the
    /// entry it replaced, if any. Fails with `NegativeTick` for negative `at`.
    pub fn set(&mut self, at: Tick, tempo: Tempo) -> (r: Result<Option<Tempo>, TimelineError>)
        requires
            old(self).wf(),
        ensures
            final(self).wf(),
            at.0 < 0 ==> r == Err::<Option<Tempo>, TimelineError>(TimelineError::NegativeTick)
                && final(self)@ == old(self)@,
            at.0 >= 0 ==> r == Ok::<Option<Tempo>, TimelineError>(entry_at(old(self)@, at.0 as int))
                && final(self)@ == set_entry(old(self)@, at.0 as int, tempo),
    {
        if at.0 < 0 {
            return Err(TimelineError::NegativeTick);
        }
        proof {
            lemma_set_remove_wf(self@, at.0 as int, tempo);
        }
        let (i, found) = search(&self.entries, at.0);
        if found {
            let prev = self.entries[i].1;
            let t = self.entries[i].0;
            self.entries.set(i, (t, tempo));
            Ok(Some(prev))
        } else {
            self.entries.insert(i, (at, tempo));
            Ok(None)
        }
    }

    /// Removes the tempo entry at exactly `at`, returning it. Fails with
    /// `NoOrigin` when asked to remove the origin entry.
    pub fn remove(&mut self, at: Tick) -> (r: Result<Option<Tempo>, TimelineError>)
        requires
            old(self).wf(),
        ensures
            final(self).wf(),
            at.0 == 0 ==> r == Err::<Option<Tempo>, TimelineError>(TimelineError::NoOrigin)
                && final(self)@ == old(self)@,
            at.0 != 0 ==> r == Ok::<Option<Tempo>, TimelineError>(entry_at(old(self)@, at.0 as int))
                && final(self)@ == remove_entry(old(self)@, at.0 as int),
    {
        if at.0 == 0 {
            return Err(TimelineError::NoOrigin);
        }
        let (i, found) = search(&self.entries, at.0);
        if found {
            proof {
                lemma_set_remove_wf(self@, at.0 as int, self@[0].1);
            }
            let (_, t) = self.entries.remove(i);
            Ok(Some(t))
        } else {
            Ok(None)
        }
    }

    /// Tempo in effect at `at`.
    pub fn tempo_at(&self, at: Tick) -> (r: Tempo)
        requires
            self.wf(),
        ensures
            r == value_at(self@, at.0 as int),
    {
        let (i, found) = search(&self.entries, at.0);
        if found {
            self.entries[i].1
        } else if i == 0 {
            self.entries[0].1
        } else {
            self.entries[i - 1].1
        }
    }

    /// Converts a tick position to microseconds from the timeline origin.
    pub fn tick_to_micros(&self, at: Tick) -> (r: i64)
        requires
            self.wf(),
            tick_micros(self@, at.0 as int) <= i64::MAX,
        ensures
            r == tick_micros(self@, at.0 as int),
    {
        proof {
            lemma_micros_nonneg(self@, at.0 as int);
        }
        self.tick_to_micros_wide(at) as i64
    }

    /// Microseconds from the timeline origin to any tick position, in a
    /// width that always holds them.
    pub fn tick_to_micros_wide(&self, at: Tick) -> (r: i128)
        requires
            self.wf(),
        ensures
            r == tick_micros(self@, at.0 as int),
    {
        let at: i64 = if at.0 < 0 {
            0
        } else {
            at.0
        };
        let n = self.entries.len();
        let mut micros: i128 = 0;
        let mut i: usize = 0;
        proof {
            lemma_micros_bound(self@, 0, at as int);
        }
        while i < n && self.entries[i].0.0 < at
            invariant
                n == self@.len(),
                self.wf(),
                at >= 0,
                i <= n,
                micros + micros_from(self@, i as int, at as int) == micros_from(self@, 0, at as int),
                0 <= micros <= micros_from(self@, 0, at as int),
                micros_from(self@, 0, at as int) <= at * 0x1_0000_0000,
            decreases n - i,
        {
            let (start, tempo) = self.entries[i];
            let seg_end: i64 = if i + 1 < n && self.entries[i + 1].0.0 < at {
                self.entries[i + 1].0.0
            } else {
                at
            };
            let dticks: i128 = (seg_end - start.0) as i128;
            proof {
                assert(0 <= dticks <= at);
                assert(dticks * (tempo.micros_per_quarter as int) <= at * 0x1_0000_0000)
                    by (nonlinear_arith)
                    requires
                        0 <= dticks <= at,
                        tempo.micros_per_quarter < 0x1_0000_0000,
                ;
                lemma_micros_bound(self@, i as int, at as int);
                if i + 1 < n {
                    assert(self@[i as int].0.0 < self@[i + 1].0.0);
                    lemma_micros_bound(self@, i as int + 1, at as int);
                }
            }
            let term = dticks * (tempo.micros_per_quarter as i128) / (PPQ as i128);
            proof {
                assert(micros_from(self@, i as int, at as int) == term + micros_from(
                    self@,
                    i + 1,
                    at as int,
                ));
                if i + 1 >= n {
                    assert(micros_from(self@, i + 1, at as int) == 0);
                }
            }
            micros = micros + term;
            i += 1;
        }
        micros
    }

    /// Converts a tick position to a sample frame index at `sample_rate` Hz.
    pub fn tick_to_samples(&self, at: Tick, sample_rate: u32) -> (r: i64)
        requires
            self.wf(),
            tick_micros(self@, at.0 as int) <= i64::MAX,
            tick_samples(self@, at.0 as int, sample_rate as int) <= i64::MAX,
        ensures
            r == tick_samples(self@, at.0 as int, sample_rate as int),
    {
        let micros = self.tick_to_micros(at) as i128;
        proof {
            let a: int = if at.0 < 0 { 0 } else { at.0 as int };
            lemma_micros_bound(self@, 0, a);
            assert(micros * (sample_rate as int) <= 0x8000_0000_0000_0000 * 0x1_0000_0000)
                by (nonlinear_arith)
                requires
                    0 <= micros <= 0x8000_0000_0000_0000,
                    sample_rate < 0x1_0000_0000,
            ;
            assert(micros * (sample_rate as int) >= 0) by (nonlinear_arith)
                requires
                    0 <= micros,
                    sample_rate >= 0,
            ;
        }
        (micros * (sample_rate as i128) / 1_000_000) as i64
    }
}

/// Time-signature changes over the timeline. Same invariants as [`TempoMap`].
#[derive(Debug, Clone, PartialEq, Eq)]
pub struct SignatureMap {
    entries: Vec<(Tick, TimeSignature)>,
}

impl View for SignatureMap {
    type V = Seq<(Tick, TimeSignature)>;

    closed spec fn view(&self) -> Seq<(Tick, TimeSignature)> {
        self.entries@
    }
}

impl SignatureMap {
    /// The map invariant.
    pub open spec fn wf(&self) -> bool {
        map_wf(self@)
    }

    /// A constant-meter map.
    pub fn constant(sig: TimeSignature) -> (m: SignatureMap)
        ensures
            m@ == seq![(Tick(0), sig)],
            m.wf(),
    {
        let mut entries = Vec::new();
        entries.push((Tick(0), sig));
        SignatureMap { entries }
    }

    /// The signature change entries, sorted by tick.
    pub fn entries(&self) -> (r: &Vec<(Tick, TimeSignature)>)
        ensures
            r@ == self@,
    {
        &self.entries
    }

    /// Signature in effect at `at`.
    pub fn signature_at(&self, at: Tick) -> (r: TimeSignature)
        requires
            self.wf(),
        ensures
            r == value_at(self@, at.0 as int),
    {
        let (i, found) = search(&self.entries, at.0);
        if found {
            self.entries[i].1
        } else if i == 0 {
            self.entries[0].1
        } else {
            self.entries[i - 1].1
        }
    }
}

/// The default tempo map: 120 BPM throughout.
pub fn default_tempo_map() -> (m: TempoMap)
    ensures
        m@ == seq![(Tick(0), Tempo { micros_per_quarter: 500_000 })],
        m.wf(),
{
    TempoMap::constant(Tempo::default_tempo())
}

/// The default signature map: 4/4 throughout.
pub fn default_signature_map() -> (m: SignatureMap)
    ensures
        m@ == seq![(Tick(0), TimeSignature { numerator: 4, denominator: 4 })],
        m.wf(),
{
    SignatureMap::constant(TimeSignature::common())
}

/// Errors from timeline map construction.
#[derive(Debug, Clone, Copy, PartialEq, Eq, Structural)]
pub enum TimelineError {
    /// The map had no entries.
    Empty,
    /// No entry at tick zero.
    NoOrigin,
    /// An entry had a negative tick.
    NegativeTick,
    /// Two entries shared the same tick.
    DuplicateTick,
}

impl TimelineError {
    /// Human-readable description.
    pub fn message(&self) -> (r: &'static str)
        ensures
            r@ == timeline_error_text(*self),
    {
        match self {
            TimelineError::Empty => "map must have at least one entry",
            TimelineError::NoOrigin => "map must have an entry at tick 0",
            TimelineError::NegativeTick => "map entries must not be at negative ticks",
            TimelineError::DuplicateTick => "map entries must have unique ticks",
        }
    }
}

/// The description of each timeline error.
pub open spec fn timeline_error_text(e: TimelineError) -> Seq<char> {
    match e {
        TimelineError::Empty => "map must have at least one entry"@,
        TimelineError::NoOrigin => "map must have an entry at tick 0"@,
        TimelineError::NegativeTick => "map entries must not be at negative ticks"@,
        TimelineError::DuplicateTick => "map entries must have unique ticks"@,
    }
}

} // verus!
