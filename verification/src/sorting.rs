//! Stable sorting by an integer key, with its specification.
//!
//! A stable sort of `s` is a sequence that is ordered by key and in which,
//! for every key, the elements carrying that key appear in the same order as
//! in `s`. This pins the result down uniquely.

use vstd::prelude::*;

verus! {

broadcast use vstd::seq_lib::group_seq_properties;

/// A type ordered by an integer key.
pub trait SortKey {
    /// The key in specifications.
    spec fn key(&self) -> int;

    /// Computes the key.
    fn sort_key(&self) -> (k: i128)
        ensures
            k == self.key(),
    ;
}

/// `s` is ordered by key (non-decreasing).
pub open spec fn sorted_by_key<T: SortKey>(s: Seq<T>) -> bool {
    forall|i: int, j: int| 0 <= i <= j < s.len() ==> s[i].key() <= s[j].key()
}

/// The elements of `s` whose key is `k`, in order.
pub open spec fn key_class<T: SortKey>(s: Seq<T>, k: int) -> Seq<T>
    decreases s.len(),
{
    if s.len() == 0 {
        Seq::empty()
    } else if s.last().key() == k {
        key_class(s.drop_last(), k).push(s.last())
    } else {
        key_class(s.drop_last(), k)
    }
}

/// `r` is the stable sort of `s` by key.
pub open spec fn is_stable_sort_of<T: SortKey>(r: Seq<T>, s: Seq<T>) -> bool {
    &&& sorted_by_key(r)
    &&& forall|k: int| #[trigger] key_class(r, k) == key_class(s, k)
}

/// Appending one element extends exactly its own class.
pub proof fn lemma_class_push<T: SortKey>(s: Seq<T>, x: T, k: int)
    ensures
        key_class(s.push(x), k) == if x.key() == k {
            key_class(s, k).push(x)
        } else {
            key_class(s, k)
        },
{
    assert(s.push(x).drop_last() =~= s);
}

/// Classes distribute over concatenation.
pub proof fn lemma_class_add<T: SortKey>(a: Seq<T>, b: Seq<T>, k: int)
    ensures
        key_class(a + b, k) == key_class(a, k) + key_class(b, k),
    decreases b.len(),
{
    if b.len() == 0 {
        assert(a + b =~= a);
        assert(key_class(a, k) + key_class(b, k) =~= key_class(a, k));
    } else {
        lemma_class_add(a, b.drop_last(), k);
        assert((a + b).drop_last() =~= a + b.drop_last());
        assert((a + b).last() == b.last());
        if b.last().key() == k {
            assert(key_class(a, k) + key_class(b.drop_last(), k).push(b.last()) =~= (key_class(
                a,
                k,
            ) + key_class(b.drop_last(), k)).push(b.last()));
        }
    }
}

/// A class is empty when no element carries its key.
pub proof fn lemma_class_absent<T: SortKey>(s: Seq<T>, k: int)
    requires
        forall|i: int| 0 <= i < s.len() ==> s[i].key() != k,
    ensures
        key_class(s, k) == Seq::<T>::empty(),
    decreases s.len(),
{
    if s.len() > 0 {
        lemma_class_absent(s.drop_last(), k);
    }
}

/// Membership in a class is membership in the sequence with that key.
pub proof fn lemma_class_contains<T: SortKey>(s: Seq<T>, k: int, x: T)
    ensures
        key_class(s, k).contains(x) <==> (s.contains(x) && x.key() == k),
    decreases s.len(),
{
    if s.len() > 0 {
        lemma_class_contains(s.drop_last(), k, x);
        let c = key_class(s.drop_last(), k);
        if s.contains(x) && x.key() == k {
            let i = choose|i: int| 0 <= i < s.len() && s[i] == x;
            if i < s.len() - 1 {
                assert(s.drop_last()[i] == x);
            }
        }
        if s.last().key() == k {
            if c.push(s.last()).contains(x) && x != s.last() {
                let i = choose|i: int| 0 <= i < c.len() + 1 && c.push(s.last())[i] == x;
                assert(c[i] == x);
            }
        }
        if s.drop_last().contains(x) {
            let i = choose|i: int| 0 <= i < s.len() - 1 && s.drop_last()[i] == x;
            assert(s[i] == x);
        }
        if key_class(s, k).contains(x) && x == s.last() {
        }
    }
}

/// A stable sort holds exactly the elements of its input.
pub proof fn lemma_stable_sort_same_elements<T: SortKey>(r: Seq<T>, s: Seq<T>, x: T)
    requires
        is_stable_sort_of(r, s),
    ensures
        r.contains(x) <==> s.contains(x),
{
    lemma_class_contains(r, x.key(), x);
    lemma_class_contains(s, x.key(), x);
    assert(key_class(r, x.key()) == key_class(s, x.key()));
}

/// Inserting `x` right after the elements whose key is not above its key
/// extends a stable sort of `s` to one of `s.push(x)`.
pub proof fn lemma_insert_keeps_stable<T: SortKey>(r: Seq<T>, s: Seq<T>, x: T, p: int)
    requires
        is_stable_sort_of(r, s),
        0 <= p <= r.len(),
        forall|i: int| 0 <= i < p ==> r[i].key() <= x.key(),
        forall|i: int| p <= i < r.len() ==> r[i].key() > x.key(),
    ensures
        is_stable_sort_of(r.insert(p, x), s.push(x)),
{
    let r2 = r.insert(p, x);
    let a = r.subrange(0, p);
    let b = r.subrange(p, r.len() as int);
    let one = seq![x];
    assert(r2 =~= a + one + b);
    assert(r =~= a + b);
    assert forall|k: int| #[trigger] key_class(r2, k) == key_class(s.push(x), k) by {
        lemma_class_add(a + one, b, k);
        lemma_class_add(a, one, k);
        lemma_class_add(a, b, k);
        lemma_class_push(s, x, k);
        assert(one =~= Seq::<T>::empty().push(x));
        lemma_class_push(Seq::<T>::empty(), x, k);
        assert(key_class(r, k) == key_class(s, k));
        if k == x.key() {
            lemma_class_absent(b, k);
            assert(key_class(a, k) + key_class(one, k) + key_class(b, k) =~= key_class(a, k).push(
                x,
            ));
        } else {
            assert(key_class(a, k) + key_class(one, k) + key_class(b, k) =~= key_class(a, k)
                + key_class(b, k));
        }
    }
    assert forall|i: int, j: int| 0 <= i <= j < r2.len() implies r2[i].key() <= r2[j].key() by {
        if j < p {
        } else if i < p && j == p {
        } else if i < p {
            assert(r2[j] == r[j - 1]);
        } else if i == p {
            if j > p {
                assert(r2[j] == r[j - 1]);
            }
        } else {
            assert(r2[i] == r[i - 1]);
            assert(r2[j] == r[j - 1]);
        }
    }
}
/// Two sequences ordered by key with the same classes are equal: the stable
/// sort of a sequence is unique.
pub proof fn lemma_stable_sort_unique<T: SortKey>(r: Seq<T>, s: Seq<T>)
    requires
        sorted_by_key(r),
        sorted_by_key(s),
        forall|k: int| #[trigger] key_class(r, k) == key_class(s, k),
    ensures
        r == s,
    decreases r.len(),
{
    if r.len() == 0 {
        if s.len() > 0 {
            let y = s.last();
            lemma_class_contains(s, y.key(), y);
            lemma_class_contains(r, y.key(), y);
            assert(s.contains(y));
        }
        assert(r =~= s);
    } else if s.len() == 0 {
        let x = r.last();
        lemma_class_contains(r, x.key(), x);
        lemma_class_contains(s, x.key(), x);
        assert(r.contains(x));
    } else {
        let x = r.last();
        let y = s.last();
        let rd = r.drop_last();
        let sd = s.drop_last();
        assert(r.contains(x));
        assert(s.contains(y));
        lemma_class_contains(r, x.key(), x);
        lemma_class_contains(s, x.key(), x);
        lemma_class_contains(r, y.key(), y);
        lemma_class_contains(s, y.key(), y);
        let i = choose|i: int| 0 <= i < s.len() && s[i] == x;
        let j = choose|j: int| 0 <= j < r.len() && r[j] == y;
        assert(x.key() <= y.key());
        assert(y.key() <= x.key());
        let kk = x.key();
        assert(r =~= rd.push(x));
        assert(s =~= sd.push(y));
        lemma_class_push(rd, x, kk);
        lemma_class_push(sd, y, kk);
        assert(key_class(r, kk) == key_class(rd, kk).push(x));
        assert(key_class(s, kk) == key_class(sd, kk).push(y));
        assert(key_class(rd, kk).push(x).last() == x);
        assert(x == y);
        assert(key_class(rd, kk) =~= key_class(r, kk).drop_last());
        assert(key_class(sd, kk) =~= key_class(s, kk).drop_last());
        assert forall|k: int| #[trigger] key_class(rd, k) == key_class(sd, k) by {
            lemma_class_push(rd, x, k);
            lemma_class_push(sd, y, k);
            if k != kk {
                assert(key_class(r, k) == key_class(rd, k));
                assert(key_class(s, k) == key_class(sd, k));
            }
        }
        lemma_stable_sort_unique(rd, sd);
    }
}


/// The number of leading elements of `r` up to the last one whose key is
/// not above `k` (in a sorted `r`: the elements with key at most `k`).
pub open spec fn split_point<T: SortKey>(r: Seq<T>, k: int) -> int
    decreases r.len(),
{
    if r.len() == 0 {
        0
    } else if r.last().key() > k {
        split_point(r.drop_last(), k)
    } else {
        r.len() as int
    }
}

proof fn lemma_split_point<T: SortKey>(r: Seq<T>, k: int)
    requires
        sorted_by_key(r),
    ensures
        0 <= split_point(r, k) <= r.len(),
        forall|i: int| 0 <= i < split_point(r, k) ==> r[i].key() <= k,
        forall|i: int| split_point(r, k) <= i < r.len() ==> r[i].key() > k,
    decreases r.len(),
{
    if r.len() > 0 {
        let d = r.drop_last();
        assert(sorted_by_key(d));
        lemma_split_point(d, k);
        if r.last().key() > k {
            assert forall|i: int| split_point(r, k) <= i < r.len() implies r[i].key() > k by {
                if i < r.len() - 1 {
                    assert(d[i] == r[i]);
                }
            }
            assert forall|i: int| 0 <= i < split_point(r, k) implies r[i].key() <= k by {
                assert(d[i] == r[i]);
            }
        } else {
            assert forall|i: int| 0 <= i < r.len() implies r[i].key() <= k by {
                assert(r[i].key() <= r[r.len() - 1].key());
            }
        }
    }
}

/// Every sequence has a stable sort.
pub proof fn lemma_stable_sort_exists<T: SortKey>(s: Seq<T>)
    ensures
        exists|r: Seq<T>| is_stable_sort_of(r, s),
    decreases s.len(),
{
    if s.len() == 0 {
        assert(is_stable_sort_of(s, s));
    } else {
        let d = s.drop_last();
        let x = s.last();
        lemma_stable_sort_exists(d);
        let r = choose|r: Seq<T>| is_stable_sort_of(r, d);
        lemma_split_point(r, x.key());
        let p = split_point(r, x.key());
        lemma_insert_keeps_stable(r, d, x, p);
        assert(d.push(x) =~= s);
        assert(is_stable_sort_of(r.insert(p, x), s));
    }
}

/// A sequence already ordered by key is its own stable sort, and the only one.
pub proof fn lemma_sorted_is_own_stable_sort<T: SortKey>(s: Seq<T>, r: Seq<T>)
    requires
        sorted_by_key(s),
        is_stable_sort_of(r, s),
    ensures
        r == s,
{
    lemma_stable_sort_unique(r, s);
}

proof fn lemma_class_count<T: SortKey>(s: Seq<T>, x: T)
    ensures
        s.to_multiset().count(x) == key_class(s, x.key()).to_multiset().count(x),
    decreases s.len(),
{
    broadcast use vstd::seq_lib::to_multiset_build;
    broadcast use vstd::multiset::group_multiset_axioms;

    if s.len() == 0 {
        assert(s.to_multiset() =~= vstd::multiset::Multiset::<T>::empty());
        assert(key_class(s, x.key()).to_multiset() =~= vstd::multiset::Multiset::<T>::empty());
    } else {
        let d = s.drop_last();
        lemma_class_count(d, x);
        assert(d.push(s.last()) =~= s);
        lemma_class_push(d, s.last(), x.key());
    }
}

/// A stable sort holds its input's elements with their multiplicities.
/// A stable sort holds exactly the elements it sorted.
pub proof fn lemma_stable_sort_contains<T: SortKey>(r: Seq<T>, s: Seq<T>)
    requires
        is_stable_sort_of(r, s),
    ensures
        forall|x: T| r.contains(x) <==> s.contains(x),
{
    lemma_stable_sort_multiset(r, s);
    r.to_multiset_ensures();
    s.to_multiset_ensures();
    assert forall|x: T| r.contains(x) <==> s.contains(x) by {
        assert(r.to_multiset().count(x) == s.to_multiset().count(x));
    }
}

pub proof fn lemma_stable_sort_multiset<T: SortKey>(r: Seq<T>, s: Seq<T>)
    requires
        is_stable_sort_of(r, s),
    ensures
        r.to_multiset() == s.to_multiset(),
{
    assert forall|x: T| r.to_multiset().count(x) == s.to_multiset().count(x) by {
        lemma_class_count(r, x);
        lemma_class_count(s, x);
        assert(key_class(r, x.key()) == key_class(s, x.key()));
    }
    assert(r.to_multiset() =~= s.to_multiset());
}

/// No two elements of `s` share a key.
pub open spec fn distinct_keys<T: SortKey>(s: Seq<T>) -> bool {
    forall|i: int, j: int| 0 <= i < j < s.len() ==> (#[trigger] s[i]).key() != (#[trigger] s[j]).key()
}

proof fn lemma_class_distinct<T: SortKey>(s: Seq<T>, k: int, i: int)
    requires
        distinct_keys(s),
        0 <= i < s.len(),
        s[i].key() == k,
    ensures
        key_class(s, k) == seq![s[i]],
    decreases s.len(),
{
    let d = s.drop_last();
    if i == s.len() - 1 {
        assert forall|j: int| 0 <= j < d.len() implies d[j].key() != k by {
            assert(d[j] == s[j]);
        }
        lemma_class_absent(d, k);
        assert(Seq::<T>::empty().push(s[i]) =~= seq![s[i]]);
    } else {
        assert(distinct_keys(d)) by {
            assert forall|a: int, b: int| 0 <= a < b < d.len() implies (#[trigger] d[a]).key() != (#[trigger] d[b]).key() by {
                assert(d[a] == s[a] && d[b] == s[b]);
            }
        }
        assert(d[i] == s[i]);
        lemma_class_distinct(d, k, i);
        assert(s.last().key() != k);
    }
}

/// Sorting any arrangement of the elements of a key-ordered sequence with
/// distinct keys gives that sequence back.
pub proof fn lemma_sort_of_rearrangement<T: SortKey>(r: Seq<T>, a: Seq<T>, b: Seq<T>)
    requires
        is_stable_sort_of(r, a),
        sorted_by_key(b),
        distinct_keys(a),
        distinct_keys(b),
        forall|x: T| a.contains(x) <==> b.contains(x),
    ensures
        r == b,
{
    assert forall|k: int| #[trigger] key_class(r, k) == key_class(b, k) by {
        assert(key_class(r, k) == key_class(a, k));
        if exists|i: int| 0 <= i < b.len() && b[i].key() == k {
            let i = choose|i: int| 0 <= i < b.len() && b[i].key() == k;
            lemma_class_distinct(b, k, i);
            assert(b.contains(b[i]));
            assert(a.contains(b[i]));
            let i2 = choose|i2: int| 0 <= i2 < a.len() && a[i2] == b[i];
            lemma_class_distinct(a, k, i2);
        } else {
            lemma_class_absent(b, k);
            assert forall|i: int| 0 <= i < a.len() implies a[i].key() != k by {
                assert(a.contains(a[i]));
                assert(b.contains(a[i]));
                let j = choose|j: int| 0 <= j < b.len() && b[j] == a[i];
            }
            lemma_class_absent(a, k);
        }
    }
    lemma_stable_sort_unique(r, b);
}

/// Sorts stably by key.
pub fn stable_sort<T: SortKey + Copy>(v: &Vec<T>) -> (r: Vec<T>)
    ensures
        is_stable_sort_of(r@, v@),
        r@.len() == v@.len(),
{
    let mut r: Vec<T> = Vec::new();
    let mut i: usize = 0;
    proof {
        assert(v@.subrange(0, 0) =~= Seq::<T>::empty());
        assert forall|k: int| #[trigger] key_class(r@, k) == key_class(v@.subrange(0, 0), k) by {
        }
    }
    while i < v.len()
        invariant
            i <= v.len(),
            is_stable_sort_of(r@, v@.subrange(0, i as int)),
            r@.len() == i,
        decreases v.len() - i,
    {
        let x = v[i];
        let kx = x.sort_key();
        let mut p: usize = 0;
        while p < r.len() && r[p].sort_key() <= kx
            invariant
                p <= r.len(),
                kx == x.key(),
                sorted_by_key(r@),
                forall|j: int| 0 <= j < p ==> r@[j].key() <= x.key(),
            decreases r.len() - p,
        {
            p += 1;
        }
        proof {
            lemma_insert_keeps_stable(r@, v@.subrange(0, i as int), x, p as int);
            assert(v@.subrange(0, i as int).push(x) =~= v@.subrange(0, i + 1));
        }
        r.insert(p, x);
        i += 1;
    }
    proof {
        assert(v@.subrange(0, v.len() as int) =~= v@);
    }
    r
}

} // verus!
