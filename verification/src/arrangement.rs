//! Song sections: consecutive named spans of bars and their timeline
//! positions (4/4).

use vstd::prelude::*;
use crate::core_types::{Tick, PPQ};
use crate::text::{copy_string, trim, trimmed};
use crate::project_types::{Placement, ProjectState, ProjectView, TrackView};
use crate::project_store::clips_get;

verus! {

broadcast use vstd::seq_lib::group_seq_properties;

/// Ticks per 4/4 bar.
pub const BAR: i64 = PPQ * 4;

/// One named span of bars.
#[derive(Debug, Clone, PartialEq, Eq)]
pub struct Section {
    /// Section name ("intro", "verse", "chorus", …).
    pub name: String,
    /// Length in bars. Always ≥ 1.
    pub bars: usize,
}

/// A song structure: consecutive sections from a start bar.
#[derive(Debug, Clone, PartialEq, Eq)]
pub struct SectionPlan {
    /// Sections in timeline order.
    pub sections: Vec<Section>,
    /// Bar the first section starts at.
    pub start_bar: usize,
}

/// A section resolved to its timeline position.
#[derive(Debug, Clone, PartialEq, Eq)]
pub struct PlacedSection {
    /// The section.
    pub section: Section,
    /// First bar (0-based).
    pub start_bar: usize,
    /// Tick position of the section start.
    pub at: Tick,
}

/// Errors from section planning.
#[derive(Debug, Clone, PartialEq, Eq)]
pub enum ArrangementError {
    /// The plan had no sections.
    Empty,
    /// A section had no bars or no name.
    InvalidSection(String),
}

impl ArrangementError {
    /// Human-readable description.
    pub fn message(&self) -> (r: String)
        ensures
            self is Empty ==> r@ == "a section plan needs at least one section"@,
            self matches ArrangementError::InvalidSection(n) ==> r@ == "invalid section '"@ + n@
                + "': needs a name and at least one bar"@,
    {
        match self {
            ArrangementError::Empty => String::from_str("a section plan needs at least one section"),
            ArrangementError::InvalidSection(n) => {
                let a = crate::text::chars_of("invalid section '");
                let b = crate::text::chars_of(n.as_str());
                let c = crate::text::chars_of("': needs a name and at least one bar");
                let ab = concat_chars(&a, &b);
                let abc = concat_chars(&ab, &c);
                crate::text::string_of(&abc)
            },
        }
    }
}

fn concat_chars(a: &Vec<char>, b: &Vec<char>) -> (r: Vec<char>)
    ensures
        r@ == a@ + b@,
{
    let mut r: Vec<char> = Vec::new();
    let mut i: usize = 0;
    while i < a.len()
        invariant
            i <= a.len(),
            r@ == a@.subrange(0, i as int),
        decreases a.len() - i,
    {
        r.push(a[i]);
        i += 1;
    }
    let mut j: usize = 0;
    while j < b.len()
        invariant
            i == a@.len(),
            j <= b.len(),
            r@ == a@ + b@.subrange(0, j as int),
        decreases b.len() - j,
    {
        r.push(b[j]);
        j += 1;
    }
    assert(a@.subrange(0, a@.len() as int) =~= a@);
    assert(b@.subrange(0, b@.len() as int) =~= b@);
    r
}

/// Whether a section has a name and at least one bar.
pub open spec fn section_ok(s: Section) -> bool {
    s.bars > 0 && trim(s.name@).len() > 0
}

/// Index of the first invalid section (the length when all are valid).
pub open spec fn first_invalid(s: Seq<Section>) -> int
    decreases s.len(),
{
    if s.len() == 0 {
        0
    } else if !section_ok(s[0]) {
        0
    } else {
        1 + first_invalid(s.drop_first())
    }
}

proof fn lemma_first_invalid(s: Seq<Section>, i: int)
    requires
        0 <= i <= s.len(),
        forall|k: int| 0 <= k < i ==> section_ok(#[trigger] s[k]),
        i < s.len() ==> !section_ok(s[i]),
    ensures
        first_invalid(s) == i,
    decreases s.len(),
{
    if s.len() > 0 && i > 0 {
        assert forall|k: int| 0 <= k < i - 1 implies section_ok(#[trigger] s.drop_first()[k]) by {
            assert(s.drop_first()[k] == s[k + 1]);
        }
        lemma_first_invalid(s.drop_first(), i - 1);
    }
}

/// Total bars of a sequence of sections.
pub open spec fn bars_total(s: Seq<Section>) -> nat
    decreases s.len(),
{
    if s.len() == 0 {
        0
    } else {
        bars_total(s.drop_last()) + s.last().bars as nat
    }
}

/// Start bar of section `i`: the plan's start plus the bars of the sections before it.
pub open spec fn section_start(plan_start: nat, s: Seq<Section>, i: int) -> nat {
    plan_start + bars_total(s.subrange(0, i))
}

/// Sections follow one another without gaps or overlaps: the first starts at
/// the plan's start bar, each next one where the one before ends, and the
/// last ends after the plan's total length.
pub proof fn law_sections_are_contiguous(start: nat, s: Seq<Section>)
    ensures
        section_start(start, s, 0) == start,
        forall|i: int| 0 <= i < s.len() ==> #[trigger] section_start(start, s, i + 1) == section_start(start, s, i) + s[i].bars,
        section_start(start, s, s.len() as int) == start + bars_total(s),
{
    assert(s.subrange(0, 0) =~= Seq::<Section>::empty());
    assert forall|i: int| 0 <= i < s.len() implies #[trigger] section_start(start, s, i + 1) == section_start(start, s, i)
        + s[i].bars by {
        assert(s.subrange(0, i + 1).drop_last() =~= s.subrange(0, i));
        assert(s.subrange(0, i + 1).last() == s[i]);
    }
    assert(s.subrange(0, s.len() as int) =~= s);
}

impl SectionPlan {
    /// Builds a plan, rejecting empty plans and sections without bars or name.
    pub fn new(sections: Vec<Section>, start_bar: usize) -> (r: Result<SectionPlan, ArrangementError>)
        ensures
            sections@.len() == 0 ==> r == Err::<SectionPlan, ArrangementError>(ArrangementError::Empty),
            sections@.len() > 0 && first_invalid(sections@) < sections@.len() ==> (r matches Err(
                ArrangementError::InvalidSection(n),
            ) && n@ == sections@[first_invalid(sections@)].name@),
            r is Ok <==> sections@.len() > 0 && first_invalid(sections@) == sections@.len(),
            r matches Ok(p) ==> p.sections@ == sections@ && p.start_bar == start_bar,
    {
        if sections.len() == 0 {
            return Err(ArrangementError::Empty);
        }
        let mut i: usize = 0;
        while i < sections.len()
            invariant
                i <= sections@.len(),
                forall|k: int| 0 <= k < i ==> section_ok(#[trigger] sections@[k]),
            decreases sections.len() - i,
        {
            let name = trimmed(sections[i].name.as_str());
            if sections[i].bars == 0 || name.as_str().unicode_len() == 0 {
                proof {
                    lemma_first_invalid(sections@, i as int);
                }
                return Err(ArrangementError::InvalidSection(copy_string(&sections[i].name)));
            }
            i += 1;
        }
        proof {
            lemma_first_invalid(sections@, i as int);
        }
        Ok(SectionPlan { sections, start_bar })
    }

    /// Resolves every section to its start bar and tick.
    pub fn offsets(&self) -> (r: Vec<PlacedSection>)
        requires
            self.start_bar + bars_total(self.sections@) <= usize::MAX,
            (self.start_bar + bars_total(self.sections@)) * BAR <= i64::MAX,
        ensures
            r@.len() == self.sections@.len(),
            forall|i: int|
                0 <= i < r@.len() ==> {
                    &&& (#[trigger] r@[i]).section.name@ == self.sections@[i].name@
                    &&& r@[i].section.bars == self.sections@[i].bars
                    &&& r@[i].start_bar == section_start(self.start_bar as nat, self.sections@, i)
                    &&& r@[i].at.0 == section_start(self.start_bar as nat, self.sections@, i) * BAR
                },
    {
        let mut r: Vec<PlacedSection> = Vec::new();
        let mut bar: usize = self.start_bar;
        let mut i: usize = 0;
        while i < self.sections.len()
            invariant
                i <= self.sections@.len(),
                self.start_bar + bars_total(self.sections@) <= usize::MAX,
                (self.start_bar + bars_total(self.sections@)) * BAR <= i64::MAX,
                bar == section_start(self.start_bar as nat, self.sections@, i as int),
                r@.len() == i,
                forall|k: int|
                    0 <= k < i ==> {
                        &&& (#[trigger] r@[k]).section.name@ == self.sections@[k].name@
                        &&& r@[k].section.bars == self.sections@[k].bars
                        &&& r@[k].start_bar == section_start(self.start_bar as nat, self.sections@, k)
                        &&& r@[k].at.0 == section_start(self.start_bar as nat, self.sections@, k) * BAR
                    },
            decreases self.sections.len() - i,
        {
            proof {
                lemma_bars_total_prefix(self.sections@, i + 1);
                assert(self.sections@.subrange(0, i + 1).drop_last() =~= self.sections@.subrange(0, i as int));
            }
            assert(bar * BAR <= i64::MAX) by (nonlinear_arith)
                requires
                    bar <= self.start_bar + bars_total(self.sections@),
                    (self.start_bar + bars_total(self.sections@)) * BAR <= i64::MAX,
            ;
            let placed = PlacedSection {
                section: Section { name: copy_string(&self.sections[i].name), bars: self.sections[i].bars },
                start_bar: bar,
                at: Tick((bar as i64) * BAR),
            };
            r.push(placed);
            bar = bar + self.sections[i].bars;
            i += 1;
        }
        r
    }

    /// Total length in bars.
    pub fn total_bars(&self) -> (n: usize)
        requires
            bars_total(self.sections@) <= usize::MAX,
        ensures
            n == bars_total(self.sections@),
    {
        let mut n: usize = 0;
        let mut i: usize = 0;
        while i < self.sections.len()
            invariant
                i <= self.sections@.len(),
                bars_total(self.sections@) <= usize::MAX,
                n == bars_total(self.sections@.subrange(0, i as int)),
            decreases self.sections.len() - i,
        {
            proof {
                lemma_bars_total_prefix(self.sections@, i + 1);
                assert(self.sections@.subrange(0, i + 1).drop_last() =~= self.sections@.subrange(0, i as int));
            }
            n = n + self.sections[i].bars;
            i += 1;
        }
        assert(self.sections@.subrange(0, i as int) =~= self.sections@);
        n
    }
}

/// Prefix totals never exceed the whole.
proof fn lemma_bars_total_prefix(s: Seq<Section>, i: int)
    requires
        0 <= i <= s.len(),
    ensures
        bars_total(s.subrange(0, i)) <= bars_total(s),
    decreases s.len(),
{
    if i < s.len() {
        assert(s.drop_last().subrange(0, i) =~= s.subrange(0, i));
        lemma_bars_total_prefix(s.drop_last(), i);
    } else {
        assert(s.subrange(0, i) =~= s);
    }
}

// ---------------------------------------------------------------- default structure

/// The latest end (placement start plus clip length) over `ps`, or `m` if larger.
pub open spec fn placements_extent(s: ProjectView, ps: Seq<Placement>, m: int) -> int
    decreases ps.len(),
{
    if ps.len() == 0 {
        m
    } else {
        let p = ps.last();
        let e = p.at.0 + s.clips[p.clip.0].pattern.length.0;
        let rest = placements_extent(s, ps.drop_last(), m);
        if e > rest {
            e
        } else {
            rest
        }
    }
}

/// The song's extent in ticks: the latest end of any placed clip, at least 0.
pub open spec fn song_extent(s: ProjectView, ts: Seq<TrackView>) -> int
    decreases ts.len(),
{
    if ts.len() == 0 {
        0
    } else {
        placements_extent(s, ts.last().placements, song_extent(s, ts.drop_last()))
    }
}

/// The end of a placement: its start plus its clip's length.
pub open spec fn placement_end(s: ProjectView, p: Placement) -> int {
    p.at.0 + s.clips[p.clip.0].pattern.length.0
}

proof fn lemma_placements_extent(s: ProjectView, ps: Seq<Placement>, m: int)
    ensures
        placements_extent(s, ps, m) >= m,
        forall|j: int| 0 <= j < ps.len() ==> placement_end(s, #[trigger] ps[j]) <= placements_extent(s, ps, m),
        placements_extent(s, ps, m) == m || exists|j: int|
            0 <= j < ps.len() && placement_end(s, #[trigger] ps[j]) == placements_extent(s, ps, m),
    decreases ps.len(),
{
    if ps.len() > 0 {
        let rest = ps.drop_last();
        lemma_placements_extent(s, rest, m);
        assert forall|j: int| 0 <= j < ps.len() implies placement_end(s, #[trigger] ps[j]) <= placements_extent(s, ps, m) by {
            if j < ps.len() - 1 {
                assert(ps[j] == rest[j]);
            }
        }
        if placements_extent(s, ps, m) != m {
            if placements_extent(s, ps, m) == placement_end(s, ps.last()) {
                assert(ps[ps.len() - 1] == ps.last());
            } else {
                let j = choose|j: int| 0 <= j < rest.len() && placement_end(s, #[trigger] rest[j]) == placements_extent(s, rest, m);
                assert(ps[j] == rest[j]);
            }
        }
    }
}

proof fn lemma_song_extent(s: ProjectView, ts: Seq<TrackView>)
    ensures
        song_extent(s, ts) >= 0,
        forall|i: int, j: int|
            0 <= i < ts.len() && 0 <= j < ts[i].placements.len() ==> placement_end(s, #[trigger] ts[i].placements[j])
                <= song_extent(s, ts),
        song_extent(s, ts) == 0 || exists|i: int, j: int|
            0 <= i < ts.len() && 0 <= j < ts[i].placements.len() && placement_end(s, #[trigger] ts[i].placements[j])
                == song_extent(s, ts),
    decreases ts.len(),
{
    if ts.len() > 0 {
        let rest = ts.drop_last();
        lemma_song_extent(s, rest);
        let m = song_extent(s, rest);
        let ps = ts.last().placements;
        lemma_placements_extent(s, ps, m);
        assert forall|i: int, j: int|
            0 <= i < ts.len() && 0 <= j < ts[i].placements.len() implies placement_end(s, #[trigger] ts[i].placements[j])
                <= song_extent(s, ts) by {
            if i < ts.len() - 1 {
                assert(ts[i] == rest[i]);
            } else {
                assert(ts[i].placements[j] == ps[j]);
            }
        }
        if song_extent(s, ts) != 0 {
            if song_extent(s, ts) == m {
                let (i, j) = choose|i: int, j: int|
                    0 <= i < rest.len() && 0 <= j < rest[i].placements.len() && placement_end(s, #[trigger] rest[i].placements[j])
                        == song_extent(s, rest);
                assert(ts[i] == rest[i]);
            } else {
                let j = choose|j: int| 0 <= j < ps.len() && placement_end(s, #[trigger] ps[j]) == placements_extent(s, ps, m);
                assert(ts[ts.len() - 1].placements[j] == ps[j]);
            }
        }
    }
}

/// The song ends where its last clip ends: no placement ends after the
/// song's extent, and a song that has any length gets it from one of its
/// placements.
pub proof fn law_song_extent_is_latest_end(s: ProjectView)
    ensures
        song_extent(s, s.tracks) >= 0,
        forall|i: int, j: int|
            0 <= i < s.tracks.len() && 0 <= j < s.tracks[i].placements.len() ==> placement_end(
                s,
                #[trigger] s.tracks[i].placements[j],
            ) <= song_extent(s, s.tracks),
        song_extent(s, s.tracks) == 0 || exists|i: int, j: int|
            0 <= i < s.tracks.len() && 0 <= j < s.tracks[i].placements.len() && placement_end(
                s,
                #[trigger] s.tracks[i].placements[j],
            ) == song_extent(s, s.tracks),
{
    lemma_song_extent(s, s.tracks);
}

/// Bars in the default structure's sections: the song's length in bars
/// (rounded up, at least four) split in four, at least one each.
pub open spec fn default_quarter(s: ProjectView) -> int {
    let end = song_extent(s, s.tracks);
    let bars = (end + BAR - 1) / (BAR as int);
    let total = if bars < 4 {
        4
    } else {
        bars
    };
    if total / 4 < 1 {
        1
    } else {
        total / 4
    }
}

/// The default structure splits the song in four: for the song's length in
/// whole bars (the fewest bars, at least four, that cover every clip), each
/// of the four sections gets a quarter of it, rounded down, and at least one
/// bar.
pub proof fn law_default_quarter_splits_the_song(s: ProjectView, total: int)
    requires
        total >= 4,
        total * BAR >= song_extent(s, s.tracks),
        total == 4 || (total - 1) * BAR < song_extent(s, s.tracks),
    ensures
        default_quarter(s) >= 1,
        4 * default_quarter(s) <= total < 4 * default_quarter(s) + 4,
{
    let e = song_extent(s, s.tracks);
    lemma_song_extent(s, s.tracks);
    let bars = (e + BAR - 1) / (BAR as int);
    let t = if bars < 4 {
        4
    } else {
        bars
    };
    assert(BAR == 3840);
    vstd::arithmetic::div_mod::lemma_fundamental_div_mod(e + 3839, 3840);
    let r = (e + 3839) % 3840;
    assert(0 <= r < 3840) by {
        vstd::arithmetic::div_mod::lemma_mod_bound(e + 3839, 3840);
    }
    assert(e + 3839 == 3840 * bars + r);
    // `bars` is the ceiling of e / BAR, so `t` is the smallest cover of at least four bars
    assert(bars * 3840 >= e && (bars - 1) * 3840 < e) by (nonlinear_arith)
        requires
            e + 3839 == 3840 * bars + r,
            0 <= r < 3840,
    ;
    if total != 4 {
        assert(total <= bars) by (nonlinear_arith)
            requires
                (total - 1) * 3840 < e,
                bars * 3840 >= e,
        ;
        assert(total >= bars) by (nonlinear_arith)
            requires
                total * 3840 >= e,
                (bars - 1) * 3840 < e,
        ;
    } else {
        assert(bars <= 4) by (nonlinear_arith)
            requires
                4 * 3840 >= e,
                (bars - 1) * 3840 < e,
        ;
    }
    assert(t == total);
    assert(4 * (t / 4) <= t < 4 * (t / 4) + 4);
}

/// Every placement names an existing clip and its end is representable.
pub open spec fn extents_fit(s: ProjectView) -> bool {
    forall|i: int, j: int|
        0 <= i < s.tracks.len() && 0 <= j < s.tracks[i].placements.len() ==> {
            let p = #[trigger] s.tracks[i].placements[j];
            &&& s.clips.dom().contains(p.clip.0)
            &&& i64::MIN <= p.at.0 + s.clips[p.clip.0].pattern.length.0 <= i64::MAX
        }
}

proof fn lemma_extent_bounds(s: ProjectView, ps: Seq<Placement>, m: int)
    requires
        0 <= m <= i64::MAX,
        forall|j: int|
            0 <= j < ps.len() ==> i64::MIN <= (#[trigger] ps[j]).at.0 + s.clips[ps[j].clip.0].pattern.length.0 <= i64::MAX,
    ensures
        m <= placements_extent(s, ps, m) <= i64::MAX,
    decreases ps.len(),
{
    if ps.len() > 0 {
        lemma_extent_bounds(s, ps.drop_last(), m);
        assert(ps.last() == ps[ps.len() - 1]);
    }
}

/// The latest end over a track's placements, or `m` if larger.
fn track_extent(state: &ProjectState, ps: &Vec<Placement>, m: i64) -> (r: i64)
    requires
        0 <= m,
        forall|j: int|
            0 <= j < ps@.len() ==> {
                let p = #[trigger] ps@[j];
                &&& state@.clips.dom().contains(p.clip.0)
                &&& i64::MIN <= p.at.0 + state@.clips[p.clip.0].pattern.length.0 <= i64::MAX
            },
    ensures
        r == placements_extent(state@, ps@, m as int),
{
    let mut best = m;
    let mut j: usize = 0;
    assert(ps@.subrange(0, 0) =~= Seq::<Placement>::empty());
    while j < ps.len()
        invariant
            0 <= m,
            forall|q: int|
                0 <= q < ps@.len() ==> {
                    let p = #[trigger] ps@[q];
                    &&& state@.clips.dom().contains(p.clip.0)
                    &&& i64::MIN <= p.at.0 + state@.clips[p.clip.0].pattern.length.0 <= i64::MAX
                },
            j <= ps@.len(),
            best == placements_extent(state@, ps@.subrange(0, j as int), m as int),
        decreases ps@.len() - j,
    {
        let p = ps[j];
        assert(state@.clips.dom().contains(ps@[j as int].clip.0));
        proof {
            let next = ps@.subrange(0, j + 1);
            assert(next.drop_last() =~= ps@.subrange(0, j as int));
            assert(next.last() == p);
        }
        match clips_get(&state.clips, p.clip) {
            Some(clip) => {
                let e = p.at.0 + clip.pattern.length().0;
                if e > best {
                    best = e;
                }
            },
            None => {
                assert(false);
            },
        }
        j += 1;
    }
    assert(ps@.subrange(0, ps@.len() as int) =~= ps@);
    best
}

/// The structure used when none is given: intro, A, B and outro, each a
/// quarter of the song's current length in bars (at least one bar each).
pub fn default_sections(state: &ProjectState) -> (r: Vec<Section>)
    requires
        state.wf(),
        extents_fit(state@),
        default_quarter(state@) <= usize::MAX,
    ensures
        r@.len() == 4,
        r@[0].name@ == "intro"@,
        r@[1].name@ == "A"@,
        r@[2].name@ == "B"@,
        r@[3].name@ == "outro"@,
        forall|k: int| 0 <= k < 4 ==> (#[trigger] r@[k]).bars == default_quarter(state@),
{
    let ghost tv = state@.tracks;
    let mut end: i64 = 0;
    let mut i: usize = 0;
    assert(tv.subrange(0, 0) =~= Seq::<TrackView>::empty());
    while i < state.tracks.len()
        invariant
            state.wf(),
            extents_fit(state@),
            tv == state@.tracks,
            i <= tv.len(),
            end == song_extent(state@, tv.subrange(0, i as int)),
            0 <= end,
        decreases tv.len() - i,
    {
        let t = &state.tracks[i];
        assert(t@ == tv[i as int]);
        assert forall|j: int| 0 <= j < t.placements@.len() implies {
            let p = #[trigger] t.placements@[j];
            &&& state@.clips.dom().contains(p.clip.0)
            &&& i64::MIN <= p.at.0 + state@.clips[p.clip.0].pattern.length.0 <= i64::MAX
        } by {
            assert(tv[i as int].placements[j] == t.placements@[j]);
        }
        proof {
            lemma_extent_bounds(state@, t.placements@, end as int);
            let next = tv.subrange(0, i + 1);
            assert(next.drop_last() =~= tv.subrange(0, i as int));
            assert(next.last() == t@);
        }
        end = track_extent(state, &t.placements, end);
        i += 1;
    }
    assert(tv.subrange(0, tv.len() as int) =~= tv);
    let bars: i64 = (end / BAR) + if end % BAR != 0 {
        1
    } else {
        0
    };
    proof {
        assert((end + BAR - 1) / (BAR as int) == bars) by (nonlinear_arith)
            requires
                end >= 0,
                BAR == 3840,
                bars == end / BAR + if end % BAR != 0 { 1int } else { 0int },
        ;
    }
    let total: i64 = if bars < 4 {
        4
    } else {
        bars
    };
    let quarter_i: i64 = if total / 4 < 1 {
        1
    } else {
        total / 4
    };
    assert(quarter_i == default_quarter(state@));
    let quarter: usize = quarter_i as usize;
    let mut r: Vec<Section> = Vec::new();
    r.push(Section { name: String::from_str("intro"), bars: quarter });
    r.push(Section { name: String::from_str("A"), bars: quarter });
    r.push(Section { name: String::from_str("B"), bars: quarter });
    r.push(Section { name: String::from_str("outro"), bars: quarter });
    r
}

} // verus!
