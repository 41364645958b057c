//! Euclidean rhythms: `pulses` onsets spread as evenly as possible over
//! `steps` slots by the Bjorklund pairing algorithm, and their rendering as
//! patterns.

use vstd::prelude::*;
use crate::core_types::{clamp_int, Pitch, Tick, Velocity};
use crate::pattern::{div_trunc, max_end, max_int, note_end, note_error, Note, Pattern};
use crate::sorting::{lemma_stable_sort_unique, sorted_by_key, SortKey};

verus! {

broadcast use vstd::seq_lib::group_seq_properties;

// ---------------------------------------------------------------- specification

/// One Bjorklund folding round after another: while more than one remainder
/// group is left, append the remainder groups to the leading groups pairwise;
/// the unpaired groups become the new remainders. The rhythm is the groups
/// read out in order.
pub open spec fn bjorklund_fold(heads: Seq<Seq<bool>>, tails: Seq<Seq<bool>>) -> Seq<bool>
    decreases heads.len() + tails.len(),
{
    if tails.len() <= 1 || heads.len() == 0 {
        (heads + tails).flatten()
    } else {
        let n = if heads.len() < tails.len() {
            heads.len()
        } else {
            tails.len()
        };
        let left = if heads.len() > n {
            heads.subrange(n as int, heads.len() as int)
        } else {
            tails.subrange(n as int, tails.len() as int)
        };
        bjorklund_fold(Seq::new(n, |i: int| heads[i] + tails[i]), left)
    }
}

/// The Bjorklund rhythm before rotation: `pulses` onset groups and
/// `steps - pulses` rest groups, folded.
pub open spec fn bjorklund_spec(steps: nat, pulses: nat) -> Seq<bool> {
    bjorklund_fold(
        Seq::new(pulses, |i: int| seq![true]),
        Seq::new((steps - pulses) as nat, |i: int| seq![false]),
    )
}

/// The Euclidean rhythm of `pulses` onsets over `steps` slots, rotated left
/// by `rotation`.
pub open spec fn euclidean_spec(steps: nat, pulses: nat, rotation: nat) -> Seq<bool> {
    if steps == 0 {
        Seq::empty()
    } else if pulses == 0 {
        Seq::new(steps, |i: int| false)
    } else if pulses >= steps {
        Seq::new(steps, |i: int| true)
    } else {
        Seq::new(steps, |i: int| bjorklund_spec(steps, pulses)[(i + rotation) % (steps as int)])
    }
}

/// The group view of a vector of groups.
pub open spec fn groups(v: Seq<Vec<bool>>) -> Seq<Seq<bool>> {
    v.map_values(|g: Vec<bool>| g@)
}

// ---------------------------------------------------------------- execution

fn copy_bools(v: &Vec<bool>) -> (r: Vec<bool>)
    ensures
        r@ == v@,
{
    let mut r: Vec<bool> = Vec::new();
    let mut i: usize = 0;
    while i < v.len()
        invariant
            i <= v.len(),
            r@ == v@.subrange(0, i as int),
        decreases v.len() - i,
    {
        r.push(v[i]);
        i += 1;
    }
    r
}

fn concat_bools(a: &Vec<bool>, b: &Vec<bool>) -> (r: Vec<bool>)
    ensures
        r@ == a@ + b@,
{
    let mut r = copy_bools(a);
    let mut j: usize = 0;
    while j < b.len()
        invariant
            j <= b@.len(),
            r@ == a@ + b@.subrange(0, j as int),
        decreases b@.len() - j,
    {
        r.push(b[j]);
        j += 1;
    }
    assert(b@.subrange(0, b@.len() as int) =~= b@);
    r
}

fn groups_of(n: usize, b: bool) -> (r: Vec<Vec<bool>>)
    ensures
        groups(r@) == Seq::new(n as nat, |i: int| seq![b]),
{
    let mut r: Vec<Vec<bool>> = Vec::new();
    let mut i: usize = 0;
    while i < n
        invariant
            i <= n,
            r@.len() == i,
            groups(r@) == Seq::new(i as nat, |k: int| seq![b]),
        decreases n - i,
    {
        let mut g: Vec<bool> = Vec::new();
        g.push(b);
        proof {
            assert(g@ =~= seq![b]);
            assert forall|k: int| 0 <= k < i + 1 implies #[trigger] groups(r@.push(g))[k] == seq![b] by {
                if k < i {
                    assert(r@.push(g)[k] == r@[k]);
                    assert(groups(r@)[k] == seq![b]);
                }
            }
            assert(groups(r@.push(g)) =~= Seq::new((i + 1) as nat, |k: int| seq![b]));
        }
        r.push(g);
        i += 1;
    }
    r
}

/// The Bjorklund pairing algorithm (`0 < pulses < steps`).
fn bjorklund(steps: usize, pulses: usize) -> (r: Vec<bool>)
    requires
        0 < pulses < steps,
    ensures
        r@ == bjorklund_spec(steps as nat, pulses as nat),
{
    let mut heads = groups_of(pulses, true);
    let mut tails = groups_of(steps - pulses, false);
    assert(groups(heads@).len() == heads@.len());
    while tails.len() > 1
        invariant
            heads.len() >= 1,
            bjorklund_fold(groups(heads@), groups(tails@)) == bjorklund_spec(
                steps as nat,
                pulses as nat,
            ),
        decreases heads.len() + tails.len(),
    {
        let ghost h0 = groups(heads@);
        let ghost t0 = groups(tails@);
        let n = if heads.len() < tails.len() {
            heads.len()
        } else {
            tails.len()
        };
        let leftover = if heads.len() > n {
            heads.split_off(n)
        } else {
            tails.split_off(n)
        };
        proof {
            assert(groups(leftover@) =~= (if h0.len() > n {
                h0.subrange(n as int, h0.len() as int)
            } else {
                t0.subrange(n as int, t0.len() as int)
            }));
        }
        let mut paired: Vec<Vec<bool>> = Vec::new();
        let mut i: usize = 0;
        assert(groups(paired@) =~= Seq::new(0 as nat, |k: int| h0[k] + t0[k]));
        while i < n
            invariant
                i <= n,
                n <= heads.len(),
                n <= tails.len(),
                forall|k: int| 0 <= k < n ==> #[trigger] heads@[k]@ == h0[k],
                forall|k: int| 0 <= k < n ==> #[trigger] tails@[k]@ == t0[k],
                paired@.len() == i,
                groups(paired@) == Seq::new(i as nat, |k: int| h0[k] + t0[k]),
            decreases n - i,
        {
            let g = concat_bools(&heads[i], &tails[i]);
            proof {
                assert(g@ == h0[i as int] + t0[i as int]);
                assert forall|k: int| 0 <= k < i + 1 implies #[trigger] groups(paired@.push(g))[k]
                    == h0[k] + t0[k] by {
                    if k < i {
                        assert(paired@.push(g)[k] == paired@[k]);
                        assert(groups(paired@)[k] == h0[k] + t0[k]);
                    }
                }
                assert(groups(paired@.push(g)) =~= Seq::new((i + 1) as nat, |k: int| h0[k] + t0[k]));
            }
            paired.push(g);
            i += 1;
        }
        heads = paired;
        tails = leftover;
    }
    let mut r: Vec<bool> = Vec::new();
    append_groups(&mut r, &heads);
    append_groups(&mut r, &tails);
    proof {
        vstd::seq_lib::lemma_flatten_concat(groups(heads@), groups(tails@));
        assert(groups(heads@).len() == heads@.len());
    }
    r
}

/// Appends every group, in order.
fn append_groups(r: &mut Vec<bool>, gs: &Vec<Vec<bool>>)
    ensures
        final(r)@ == old(r)@ + groups(gs@).flatten(),
{
    let ghost start = r@;
    let ghost all = groups(gs@);
    let mut k: usize = 0;
    assert(all.subrange(0, 0).flatten() =~= Seq::<bool>::empty());
    assert(start + Seq::<bool>::empty() =~= start);
    while k < gs.len()
        invariant
            all == groups(gs@),
            k <= gs.len(),
            r@ == start + all.subrange(0, k as int).flatten(),
        decreases gs.len() - k,
    {
        let g = &gs[k];
        assert(g@ == all[k as int]);
        let ghost before = r@;
        let mut j: usize = 0;
        while j < g.len()
            invariant
                j <= g@.len(),
                r@ == before + g@.subrange(0, j as int),
            decreases g@.len() - j,
        {
            r.push(g[j]);
            j += 1;
        }
        proof {
            assert(g@.subrange(0, j as int) =~= g@);
            let a = all.subrange(0, k as int);
            assert(all.subrange(0, k + 1) =~= a + seq![g@]);
            vstd::seq_lib::lemma_flatten_concat(a, seq![g@]);
            seq![g@].lemma_flatten_one_element();
            assert(r@ =~= start + all.subrange(0, k + 1).flatten());
        }
        k += 1;
    }
    assert(all.subrange(0, gs.len() as int) =~= all);
}

/// Generates a Euclidean (Bjorklund) rhythm: `pulses` onsets distributed
/// maximally evenly over `steps` slots, then rotated left by `rotation`
/// steps. `pulses >= steps` yields all onsets; `pulses == 0` (or
/// `steps == 0`) none.
pub fn euclidean(steps: usize, pulses: usize, rotation: usize) -> (r: Vec<bool>)
    requires
        0 < pulses < steps ==> steps - 1 + rotation <= usize::MAX,
    ensures
        r@ == euclidean_spec(steps as nat, pulses as nat, rotation as nat),
{
    let mut r: Vec<bool> = Vec::new();
    if steps == 0 {
        return r;
    }
    if pulses == 0 || pulses >= steps {
        let on = pulses != 0;
        let mut i: usize = 0;
        while i < steps
            invariant
                i <= steps,
                r@ == Seq::new(i as nat, |k: int| on),
            decreases steps - i,
        {
            r.push(on);
            i += 1;
        }
        return r;
    }
    let base = bjorklund(steps, pulses);
    let ghost b = bjorklund_spec(steps as nat, pulses as nat);
    proof {
        lemma_bjorklund_len(steps as nat, pulses as nat);
    }
    let mut i: usize = 0;
    while i < steps
        invariant
            0 < pulses < steps,
            steps - 1 + rotation <= usize::MAX,
            base@ == b,
            b.len() == steps,
            i <= steps,
            r@ == Seq::new(i as nat, |k: int| b[(k + rotation) % (steps as int)]),
        decreases steps - i,
    {
        let idx = (i + rotation) % steps;
        r.push(base[idx]);
        proof {
            assert(r@ =~= Seq::new((i + 1) as nat, |k: int| b[(k + rotation) % (steps as int)]));
        }
        i += 1;
    }
    r
}

// ---------------------------------------------------------------- laws

proof fn lemma_pairs_multiset(h: Seq<Seq<bool>>, t: Seq<Seq<bool>>, n: nat)
    requires
        n <= h.len(),
        n <= t.len(),
    ensures
        Seq::new(n, |i: int| h[i] + t[i]).flatten().to_multiset() =~= h.subrange(0, n as int).flatten().to_multiset().add(
            t.subrange(0, n as int).flatten().to_multiset(),
        ),
    decreases n,
{
    if n > 0 {
        let m = (n - 1) as nat;
        lemma_pairs_multiset(h, t, m);
        let p = Seq::new(n, |i: int| h[i] + t[i]);
        let p0 = Seq::new(m, |i: int| h[i] + t[i]);
        assert(p =~= p0 + seq![h[m as int] + t[m as int]]);
        vstd::seq_lib::lemma_flatten_concat(p0, seq![h[m as int] + t[m as int]]);
        seq![h[m as int] + t[m as int]].lemma_flatten_one_element();
        assert(h.subrange(0, n as int) =~= h.subrange(0, m as int) + seq![h[m as int]]);
        assert(t.subrange(0, n as int) =~= t.subrange(0, m as int) + seq![t[m as int]]);
        vstd::seq_lib::lemma_flatten_concat(h.subrange(0, m as int), seq![h[m as int]]);
        vstd::seq_lib::lemma_flatten_concat(t.subrange(0, m as int), seq![t[m as int]]);
        seq![h[m as int]].lemma_flatten_one_element();
        seq![t[m as int]].lemma_flatten_one_element();
        vstd::seq_lib::lemma_multiset_commutative(p0.flatten(), h[m as int] + t[m as int]);
        vstd::seq_lib::lemma_multiset_commutative(h[m as int], t[m as int]);
        vstd::seq_lib::lemma_multiset_commutative(h.subrange(0, m as int).flatten(), h[m as int]);
        vstd::seq_lib::lemma_multiset_commutative(t.subrange(0, m as int).flatten(), t[m as int]);
    }
}

/// Folding keeps the multiset of slots.
proof fn lemma_fold_multiset(heads: Seq<Seq<bool>>, tails: Seq<Seq<bool>>)
    ensures
        bjorklund_fold(heads, tails).to_multiset() =~= (heads + tails).flatten().to_multiset(),
    decreases heads.len() + tails.len(),
{
    if !(tails.len() <= 1 || heads.len() == 0) {
        let n = if heads.len() < tails.len() {
            heads.len()
        } else {
            tails.len()
        };
        let left = if heads.len() > n {
            heads.subrange(n as int, heads.len() as int)
        } else {
            tails.subrange(n as int, tails.len() as int)
        };
        let p = Seq::new(n, |i: int| heads[i] + tails[i]);
        lemma_fold_multiset(p, left);
        lemma_pairs_multiset(heads, tails, n);
        vstd::seq_lib::lemma_flatten_concat(p, left);
        vstd::seq_lib::lemma_flatten_concat(heads, tails);
        vstd::seq_lib::lemma_multiset_commutative(p.flatten(), left.flatten());
        vstd::seq_lib::lemma_multiset_commutative(heads.flatten(), tails.flatten());
        let hs = heads.subrange(0, n as int);
        let ts = tails.subrange(0, n as int);
        assert(heads =~= hs + heads.subrange(n as int, heads.len() as int));
        assert(tails =~= ts + tails.subrange(n as int, tails.len() as int));
        vstd::seq_lib::lemma_flatten_concat(hs, heads.subrange(n as int, heads.len() as int));
        vstd::seq_lib::lemma_flatten_concat(ts, tails.subrange(n as int, tails.len() as int));
        vstd::seq_lib::lemma_multiset_commutative(
            hs.flatten(),
            heads.subrange(n as int, heads.len() as int).flatten(),
        );
        vstd::seq_lib::lemma_multiset_commutative(
            ts.flatten(),
            tails.subrange(n as int, tails.len() as int).flatten(),
        );
        if heads.len() > n {
            assert(tails.subrange(n as int, tails.len() as int) =~= Seq::<Seq<bool>>::empty());
        } else {
            assert(heads.subrange(n as int, heads.len() as int) =~= Seq::<Seq<bool>>::empty());
        }
    }
}

/// `count` one-slot groups holding `b`, flattened.
proof fn lemma_uniform_groups(count: nat, b: bool)
    ensures
        Seq::new(count, |i: int| seq![b]).flatten() =~= Seq::new(count, |i: int| b),
    decreases count,
{
    if count > 0 {
        let m = (count - 1) as nat;
        lemma_uniform_groups(m, b);
        assert(Seq::new(count, |i: int| seq![b]) =~= Seq::new(m, |i: int| seq![b]) + seq![seq![b]]);
        vstd::seq_lib::lemma_flatten_concat(Seq::new(m, |i: int| seq![b]), seq![seq![b]]);
        seq![seq![b]].lemma_flatten_one_element();
    }
}

/// The multiset of `count` copies of `b`.
proof fn lemma_uniform_multiset(count: nat, b: bool)
    ensures
        Seq::new(count, |i: int| b).to_multiset().count(b) == count,
        Seq::new(count, |i: int| b).to_multiset().count(!b) == 0,
    decreases count,
{
    if count > 0 {
        let m = (count - 1) as nat;
        lemma_uniform_multiset(m, b);
        assert(Seq::new(count, |i: int| b) =~= Seq::new(m, |i: int| b).push(b));
        Seq::new(m, |i: int| b).to_multiset_ensures();
    }
}

proof fn lemma_bjorklund_multiset(steps: nat, pulses: nat)
    requires
        pulses <= steps,
    ensures
        bjorklund_spec(steps, pulses).to_multiset().count(true) == pulses,
        bjorklund_spec(steps, pulses).to_multiset().count(false) == steps - pulses,
{
    let h = Seq::new(pulses, |i: int| seq![true]);
    let t = Seq::new((steps - pulses) as nat, |i: int| seq![false]);
    lemma_fold_multiset(h, t);
    vstd::seq_lib::lemma_flatten_concat(h, t);
    lemma_uniform_groups(pulses, true);
    lemma_uniform_groups((steps - pulses) as nat, false);
    lemma_uniform_multiset(pulses, true);
    lemma_uniform_multiset((steps - pulses) as nat, false);
    vstd::seq_lib::lemma_multiset_commutative(h.flatten(), t.flatten());
}

proof fn lemma_bjorklund_len(steps: nat, pulses: nat)
    requires
        pulses <= steps,
    ensures
        bjorklund_spec(steps, pulses).len() == steps,
{
    let b = bjorklund_spec(steps, pulses);
    lemma_bjorklund_multiset(steps, pulses);
    b.to_multiset_ensures();
    assert(b.to_multiset().len() == b.to_multiset().count(true) + b.to_multiset().count(false)) by {
        lemma_bool_multiset_len(b);
    }
}

proof fn lemma_bool_multiset_len(s: Seq<bool>)
    ensures
        s.to_multiset().len() == s.to_multiset().count(true) + s.to_multiset().count(false),
    decreases s.len(),
{
    s.to_multiset_ensures();
    if s.len() > 0 {
        let d = s.drop_last();
        lemma_bool_multiset_len(d);
        assert(s =~= d.push(s.last()));
        d.to_multiset_ensures();
    } else {
        assert(s.to_multiset() =~= vstd::multiset::Multiset::<bool>::empty());
    }
}

/// No two onsets in a row.
pub open spec fn onsets_apart(s: Seq<bool>) -> bool {
    forall|i: int| 0 <= i < s.len() - 1 ==> !(#[trigger] s[i] && s[i + 1])
}

/// A group that keeps its onsets apart and ends in a rest.
spec fn spaced_group(g: Seq<bool>) -> bool {
    &&& g.len() > 0
    &&& !g.last()
    &&& onsets_apart(g)
}

proof fn lemma_spaced_concat(a: Seq<bool>, b: Seq<bool>)
    requires
        spaced_group(a),
        onsets_apart(b),
    ensures
        onsets_apart(a + b),
        b.len() > 0 ==> (a + b).last() == b.last(),
{
    let c = a + b;
    assert forall|i: int| 0 <= i < c.len() - 1 implies !(#[trigger] c[i] && c[i + 1]) by {
        if i + 1 < a.len() {
            assert(c[i] == a[i] && c[i + 1] == a[i + 1]);
        } else if i + 1 == a.len() {
            assert(c[i] == a.last());
        } else {
            assert(c[i] == b[i - a.len()] && c[i + 1] == b[i + 1 - a.len()]);
        }
    }
}

proof fn lemma_flatten_spaced(gs: Seq<Seq<bool>>)
    requires
        forall|i: int| 0 <= i < gs.len() ==> spaced_group(#[trigger] gs[i]),
    ensures
        onsets_apart(gs.flatten()),
        gs.len() > 0 ==> spaced_group(gs.flatten()),
    decreases gs.len(),
{
    if gs.len() > 0 {
        let rest = gs.drop_first();
        assert forall|i: int| 0 <= i < rest.len() implies spaced_group(#[trigger] rest[i]) by {
            assert(rest[i] == gs[i + 1]);
        }
        lemma_flatten_spaced(rest);
        assert(spaced_group(gs[0]));
        lemma_spaced_concat(gs[0], rest.flatten());
        if rest.len() == 0 {
            assert(gs.flatten() =~= gs[0]);
        }
    }
}

proof fn lemma_fold_spaced(heads: Seq<Seq<bool>>, tails: Seq<Seq<bool>>)
    requires
        forall|i: int| 0 <= i < heads.len() ==> spaced_group(#[trigger] heads[i]),
        forall|i: int| 0 <= i < tails.len() ==> spaced_group(#[trigger] tails[i]),
    ensures
        onsets_apart(bjorklund_fold(heads, tails)),
        heads.len() + tails.len() > 0 ==> spaced_group(bjorklund_fold(heads, tails)),
    decreases heads.len() + tails.len(),
{
    if tails.len() <= 1 || heads.len() == 0 {
        let all = heads + tails;
        assert forall|i: int| 0 <= i < all.len() implies spaced_group(#[trigger] all[i]) by {
            if i < heads.len() {
                assert(all[i] == heads[i]);
            } else {
                assert(all[i] == tails[i - heads.len()]);
            }
        }
        lemma_flatten_spaced(all);
    } else {
        let n = if heads.len() < tails.len() {
            heads.len()
        } else {
            tails.len()
        };
        let left = if heads.len() > n {
            heads.subrange(n as int, heads.len() as int)
        } else {
            tails.subrange(n as int, tails.len() as int)
        };
        let p = Seq::new(n, |i: int| heads[i] + tails[i]);
        assert forall|i: int| 0 <= i < p.len() implies spaced_group(#[trigger] p[i]) by {
            assert(spaced_group(heads[i]) && spaced_group(tails[i]));
            lemma_spaced_concat(heads[i], tails[i]);
        }
        assert forall|i: int| 0 <= i < left.len() implies spaced_group(#[trigger] left[i]) by {
            if heads.len() > n {
                assert(left[i] == heads[i + n]);
            } else {
                assert(left[i] == tails[i + n]);
            }
        }
        lemma_fold_spaced(p, left);
    }
}

/// Euclidean rhythms spread their onsets out: with at most half the steps
/// sounding, no two onsets are ever adjacent, around the loop included,
/// whatever the rotation.
pub proof fn law_euclidean_onsets_never_adjacent(steps: nat, pulses: nat, rotation: nat)
    requires
        2 * pulses <= steps,
    ensures
        forall|i: int|
            0 <= i < steps ==> !(#[trigger] euclidean_spec(steps, pulses, rotation)[i] && euclidean_spec(
                steps,
                pulses,
                rotation,
            )[(i + 1) % (steps as int)]),
{
    let e = euclidean_spec(steps, pulses, rotation);
    if steps > 0 && pulses > 0 {
        let b = bjorklund_spec(steps, pulses);
        lemma_bjorklund_len(steps, pulses);
        let heads = Seq::new(pulses, |i: int| seq![true]);
        let tails = Seq::new((steps - pulses) as nat, |i: int| seq![false]);
        if tails.len() <= 1 {
            assert(b == (heads + tails).flatten());
            assert(heads.len() == 1 && tails.len() == 1);
            reveal_with_fuel(Seq::flatten, 3);
            assert((heads + tails).flatten() =~= seq![true, false]);
        } else {
            let p = Seq::new(pulses, |i: int| heads[i] + tails[i]);
            let left = tails.subrange(pulses as int, tails.len() as int);
            assert(b == bjorklund_fold(p, left));
            assert forall|i: int| 0 <= i < p.len() implies spaced_group(#[trigger] p[i]) by {
                assert(p[i] =~= seq![true, false]);
            }
            assert forall|i: int| 0 <= i < left.len() implies spaced_group(#[trigger] left[i]) by {
                assert(left[i] == seq![false]);
            }
            lemma_fold_spaced(p, left);
        }
        assert(onsets_apart(b) && !b.last());
        assert forall|i: int| 0 <= i < steps implies !(#[trigger] e[i] && e[(i + 1) % (steps as int)]) by {
            let n = steps as int;
            let j = (i + rotation) % n;
            let k = ((i + 1) % n + rotation) % n;
            assert(e[i] == b[j]);
            assert(0 <= (i + 1) % n < n);
            assert(e[(i + 1) % n] == b[k]);
            vstd::arithmetic::div_mod::lemma_add_mod_noop(i + 1, rotation as int, n);
            vstd::arithmetic::div_mod::lemma_add_mod_noop(i + rotation, 1, n);
            vstd::arithmetic::div_mod::lemma_mod_bound(i + rotation, n);
            if i + 1 < n {
                vstd::arithmetic::div_mod::lemma_small_mod((i + 1) as nat, n as nat);
            } else {
                assert((i + 1) % n == 0) by (nonlinear_arith)
                    requires
                        i + 1 == n,
                        n > 0,
                ;
            }
            assert(k == (j + 1) % n) by {
                vstd::arithmetic::div_mod::lemma_add_mod_noop(i + 1, rotation as int, n);
                vstd::arithmetic::div_mod::lemma_add_mod_noop(i, rotation as int, n);
                vstd::arithmetic::div_mod::lemma_mod_twice(i + 1, n);
                assert(((i + 1) % n + rotation) % n == ((i + 1) + rotation) % n) by {
                    vstd::arithmetic::div_mod::lemma_add_mod_noop_right(rotation as int, i + 1, n);
                }
                assert(((i + 1) + rotation) % n == ((i + rotation) + 1) % n);
                vstd::arithmetic::div_mod::lemma_add_mod_noop_right(1, i + rotation, n);
            }
            if j + 1 < n {
                vstd::arithmetic::div_mod::lemma_small_mod((j + 1) as nat, n as nat);
            } else {
                assert(j == n - 1);
                assert((j + 1) % n == 0) by (nonlinear_arith)
                    requires
                        j + 1 == n,
                        n > 0,
                ;
            }
        }
    }
}

/// A Euclidean rhythm has one slot per step and `min(pulses, steps)` onsets.
#[verifier::spinoff_prover]
pub proof fn law_euclidean_shape(steps: nat, pulses: nat, rotation: nat)
    ensures
        euclidean_spec(steps, pulses, rotation).len() == steps,
        euclidean_spec(steps, pulses, rotation).to_multiset().count(true) == if pulses < steps {
            pulses
        } else {
            steps
        },
{
    let e = euclidean_spec(steps, pulses, rotation);
    if steps == 0 {
        assert(e =~= Seq::<bool>::empty());
    } else if pulses == 0 {
        lemma_uniform_multiset(steps, false);
    } else if pulses >= steps {
        lemma_uniform_multiset(steps, true);
    } else {
        let b = bjorklund_spec(steps, pulses);
        lemma_bjorklund_len(steps, pulses);
        lemma_bjorklund_multiset(steps, pulses);
        lemma_rotation_multiset(b, rotation);
        assert(e == Seq::new(steps, |i: int| b[(i + rotation) % (steps as int)]));
    }
}

/// Reading a sequence rotated left keeps its length and multiset.
proof fn lemma_rotation_multiset(b: Seq<bool>, rotation: nat)
    requires
        b.len() > 0,
    ensures
        ({
            let n = b.len() as int;
            let e = Seq::new(b.len(), |i: int| b[(i + rotation) % n]);
            e.to_multiset() == b.to_multiset()
        }),
{
    let n = b.len() as int;
    let e = Seq::new(b.len(), |i: int| b[(i + rotation) % n]);
    let r = (rotation as int) % n;
    assert forall|i: int| 0 <= i < n implies e[i] == (b.subrange(r, n) + b.subrange(0, r))[i] by {
        if i < n - r {
            assert((i + rotation) % n == i + r) by (nonlinear_arith)
                requires
                    r == (rotation as int) % n,
                    0 <= i < n - r,
                    n > 0,
            ;
        } else {
            assert((i + rotation) % n == i + r - n) by (nonlinear_arith)
                requires
                    r == (rotation as int) % n,
                    n - r <= i < n,
                    n > 0,
            ;
        }
    }
    assert(e =~= b.subrange(r, n) + b.subrange(0, r));
    assert(b =~= b.subrange(0, r) + b.subrange(r, n));
    vstd::seq_lib::lemma_multiset_commutative(b.subrange(r, n), b.subrange(0, r));
    vstd::seq_lib::lemma_multiset_commutative(b.subrange(0, r), b.subrange(r, n));
}

/// Rotating by `rotation` reads the unrotated rhythm `rotation` steps ahead;
/// a full turn is the identity.
pub proof fn law_euclidean_rotation(steps: nat, pulses: nat, rotation: nat, i: int)
    requires
        0 <= i < steps,
    ensures
        euclidean_spec(steps, pulses, rotation)[i] == euclidean_spec(steps, pulses, 0)[(i + rotation)
            % (steps as int)],
        euclidean_spec(steps, pulses, steps) == euclidean_spec(steps, pulses, 0),
{
    let a = euclidean_spec(steps, pulses, steps);
    let z = euclidean_spec(steps, pulses, 0);
    assert(0 <= (i + rotation) % (steps as int) < steps);
    if 0 < pulses < steps {
        assert(((i + rotation) % (steps as int)) % (steps as int) == (i + rotation) % (steps as int)) by (nonlinear_arith)
            requires
                steps > 0,
        ;
        assert forall|k: int| 0 <= k < steps implies a[k] == z[k] by {
            assert((k + steps) % (steps as int) == k % (steps as int)) by (nonlinear_arith)
                requires
                    steps > 0,
            ;
        }
    }
    assert(a =~= z);
}

// ---------------------------------------------------------------- patterns

/// Half a step, rounded toward zero, and at least one tick.
pub open spec fn half_step(step: int) -> int {
    max_int(div_trunc(step, 2), 1)
}

/// The notes of a rhythm: one per onset, at its step's start, in step order.
pub open spec fn onset_notes(grid: Seq<bool>, key: Pitch, velocity: Velocity, step: int) -> Seq<Note>
    decreases grid.len(),
{
    if grid.len() == 0 {
        Seq::empty()
    } else {
        let rest = onset_notes(grid.drop_last(), key, velocity, step);
        if grid.last() {
            rest.push(
                Note {
                    pitch: key,
                    velocity,
                    start: Tick(((grid.len() - 1) * step) as i64),
                    duration: Tick(half_step(step) as i64),
                },
            )
        } else {
            rest
        }
    }
}

/// Renders a Euclidean rhythm as a pattern: each onset becomes a note at
/// `key` with the given velocity (clamped into 1..=127), starting at
/// `step_index * step_ticks` and lasting half a step (at least one tick).
/// The pattern length is `steps * step_ticks`, grown to fit the notes.
pub fn euclidean_pattern(
    steps: usize,
    pulses: usize,
    rotation: usize,
    key: Pitch,
    step_ticks: Tick,
    velocity: u8,
) -> (p: Pattern)
    requires
        0 < pulses < steps ==> steps - 1 + rotation <= usize::MAX,
        steps <= i64::MAX,
        i64::MIN <= steps * step_ticks.0 <= i64::MAX,
        step_ticks.0 < 0 ==> forall|i: int|
            1 <= i < steps ==> !#[trigger] euclidean_spec(steps as nat, pulses as nat, rotation as nat)[i],
    ensures
        p.wf(),
        p@.notes == onset_notes(
            euclidean_spec(steps as nat, pulses as nat, rotation as nat),
            key,
            Velocity::of(clamp_int(velocity as int, 1, 127)),
            step_ticks.0 as int,
        ),
        p@.length.0 == max_int(steps * step_ticks.0, max_end(p@.notes)),
{
    let grid = euclidean(steps, pulses, rotation);
    let ghost g = grid@;
    proof {
        law_euclidean_shape(steps as nat, pulses as nat, rotation as nat);
    }
    let step = step_ticks.0;
    let h: i64 = step / 2;
    let half: i64 = if h < 1 {
        1
    } else {
        h
    };
    assert(half == half_step(step as int));
    let vel = Velocity::clamped(velocity as i32);
    let mut notes: Vec<Note> = Vec::new();
    let mut i: usize = 0;
    while i < grid.len()
        invariant
            grid@ == g,
            g.len() == steps,
            steps <= i64::MAX,
            i64::MIN <= steps * step <= i64::MAX,
            step < 0 ==> forall|k: int| 1 <= k < steps ==> !#[trigger] g[k],
            half == half_step(step as int),
            i <= steps,
            notes@ == onset_notes(g.subrange(0, i as int), key, vel, step as int),
            sorted_by_key(notes@),
            forall|k: int|
                0 <= k < notes@.len() ==> (#[trigger] notes@[k]).pitch == key && notes@[k].duration.0
                    == half && 0 <= notes@[k].start.0 && (step >= 0 && i > 0 ==> notes@[k].start.0
                    <= (i - 1) * step) && (step < 0 ==> notes@[k].start.0 == 0)
                    && notes@[k].start.0 + half <= i64::MAX,
        decreases steps - i,
    {
        proof {
            assert(g.subrange(0, i + 1).drop_last() =~= g.subrange(0, i as int));
        }
        if grid[i] {
            assert(step >= 0 || i == 0);
            assert(i * step <= steps * step || step < 0) by (nonlinear_arith)
                requires
                    i < steps,
                    step >= 0 || i == 0,
            ;
            assert(0 <= i * step) by (nonlinear_arith)
                requires
                    step >= 0 || i == 0,
                    i >= 0,
            ;
            let start: i64 = (i as i64) * step;
            assert(start + half <= i64::MAX) by (nonlinear_arith)
                requires
                    start == i * step,
                    i < steps,
                    steps * step <= i64::MAX,
                    steps <= i64::MAX,
                    half == (if (if step >= 0 { step / 2 } else { -((-step) / 2) }) >= 1 {
                        (if step >= 0 { step / 2 } else { -((-step) / 2) })
                    } else {
                        1
                    }),
                    step >= 0 || i == 0,
            ;
            let n = Note { pitch: key, velocity: vel, start: Tick(start), duration: Tick(half) };
            proof {
                if notes@.len() > 0 && step >= 0 {
                    assert forall|k: int| 0 <= k < notes@.len() implies notes@[k].start.0 <= start by {
                        assert((i - 1) * step <= i * step) by (nonlinear_arith)
                            requires
                                step >= 0,
                                i >= 1,
                        ;
                    }
                }
            }
            notes.push(n);
        }
        proof {
            if step >= 0 && i > 0 {
                assert((i - 1) * step <= i * step) by (nonlinear_arith)
                    requires
                        step >= 0,
                        i >= 1,
                ;
            }
        }
        i += 1;
    }
    assert(g.subrange(0, steps as int) =~= g);
    let length = Tick((steps as i64) * step);
    proof {
        crate::pattern::lemma_note_error_none(notes@);
    }
    match Pattern::new(notes, length) {
        Ok(p) => {
            proof {
                lemma_stable_sort_unique(p@.notes, notes@);
            }
            p
        },
        Err(_) => {
            proof {
                assert(false);
            }
            Pattern::empty(length)
        },
    }
}

/// The number of notes of `s` that start off the eighth-note grid.
pub open spec fn off_eighth(s: Seq<Note>) -> nat
    decreases s.len(),
{
    if s.len() == 0 {
        0
    } else {
        off_eighth(s.drop_last()) + if s.last().start.0 % 480 != 0 {
            1nat
        } else {
            0nat
        }
    }
}

/// Counts the notes that do not start on an eighth-note grid line; the
/// syncopation of a pattern is this count over its number of notes.
pub fn off_eighth_count(pattern: &Pattern) -> (r: usize)
    ensures
        r == off_eighth(pattern@.notes),
{
    let notes = pattern.notes();
    let mut n: usize = 0;
    let mut i: usize = 0;
    assert(notes@.subrange(0, 0) =~= Seq::<Note>::empty());
    while i < notes.len()
        invariant
            i <= notes@.len(),
            n == off_eighth(notes@.subrange(0, i as int)),
            n <= i,
            notes@ == pattern@.notes,
        decreases notes@.len() - i,
    {
        proof {
            let next = notes@.subrange(0, i + 1);
            assert(next.drop_last() =~= notes@.subrange(0, i as int));
        }
        if notes[i].start.0 % 480 != 0 {
            n += 1;
        }
        i += 1;
    }
    assert(notes@.subrange(0, notes@.len() as int) =~= notes@);
    n
}

} // verus!
