//! Stable sorting of the model's lists.

use vstd::prelude::*;
use vstd::multiset::Multiset;

verus! {

/// A type whose values sort by a key; `spec_before(a, b)` holds where the
/// key of `a` is strictly below that of `b`.
pub trait SortKey: View + Sized {
    spec fn spec_before(a: Self::V, b: Self::V) -> bool;

    fn before(&self, other: &Self) -> (r: bool)
        ensures
            r == Self::spec_before(self@, other@),
    ;
}

pub open spec fn views<T: View>(s: Seq<T>) -> Seq<T::V> {
    s.map_values(|x: T| x@)
}

/// `x` placed into `s` after every element that it does not sort before.
pub open spec fn insert_sorted<T: SortKey>(s: Seq<T::V>, x: T::V) -> Seq<T::V>
    decreases s.len(),
{
    if s.len() == 0 {
        seq![x]
    } else if T::spec_before(x, s[0]) {
        seq![x] + s
    } else {
        seq![s[0]] + insert_sorted::<T>(s.drop_first(), x)
    }
}

/// `s` in stable sorted order: each element, in turn, is placed after all
/// earlier ones whose key is not above its own.
pub open spec fn stable_sorted<T: SortKey>(s: Seq<T::V>) -> Seq<T::V>
    decreases s.len(),
{
    if s.len() == 0 {
        s
    } else {
        insert_sorted::<T>(stable_sorted::<T>(s.drop_last()), s.last())
    }
}

/// No element sorts before one that comes earlier.
pub open spec fn is_sorted<T: SortKey>(s: Seq<T::V>) -> bool {
    forall|i: int, j: int| 0 <= i < j < s.len() ==> !T::spec_before(#[trigger] s[j], #[trigger] s[i])
}

/// `spec_before` is a strict order.
pub open spec fn is_strict_order<T: SortKey>() -> bool {
    &&& forall|a: T::V| !T::spec_before(a, a)
    &&& forall|a: T::V, b: T::V, c: T::V|
        #[trigger] T::spec_before(a, b) && #[trigger] T::spec_before(b, c) ==> T::spec_before(a, c)
}

proof fn lemma_insert_sorted_split<T: SortKey>(s: Seq<T::V>, x: T::V, p: int)
    requires
        0 <= p <= s.len(),
        forall|k: int| 0 <= k < p ==> !T::spec_before(x, #[trigger] s[k]),
    ensures
        insert_sorted::<T>(s, x) == s.take(p) + insert_sorted::<T>(s.skip(p), x),
    decreases p,
{
    if p > 0 {
        lemma_insert_sorted_split::<T>(s.drop_first(), x, p - 1);
        assert(s.drop_first().take(p - 1) =~= s.take(p).drop_first());
        assert(s.drop_first().skip(p - 1) =~= s.skip(p));
        assert(s.take(p) =~= seq![s[0]] + s.take(p).drop_first());
    } else {
        assert(s.skip(0) =~= s);
    }
}

/// Placing an element in sorted position is an insertion at some position.
pub proof fn lemma_insert_sorted_is_insert<T: SortKey>(s: Seq<T::V>, x: T::V) -> (p: int)
    ensures
        0 <= p <= s.len(),
        insert_sorted::<T>(s, x) == s.insert(p, x),
    decreases s.len(),
{
    if s.len() == 0 || T::spec_before(x, s[0]) {
        assert(insert_sorted::<T>(s, x) =~= s.insert(0, x));
        0
    } else {
        let q = lemma_insert_sorted_is_insert::<T>(s.drop_first(), x);
        assert(insert_sorted::<T>(s, x) =~= s.insert(q + 1, x));
        q + 1
    }
}

pub proof fn lemma_insert_sorted_multiset<T: SortKey>(s: Seq<T::V>, x: T::V)
    ensures
        insert_sorted::<T>(s, x).to_multiset() == s.to_multiset().insert(x),
    decreases s.len(),
{
    broadcast use vstd::seq_lib::group_to_multiset_ensures;
    if s.len() > 0 && !T::spec_before(x, s[0]) {
        lemma_insert_sorted_multiset::<T>(s.drop_first(), x);
        assert(s =~= seq![s[0]] + s.drop_first());
        vstd::seq_lib::lemma_multiset_commutative(seq![s[0]], s.drop_first());
        vstd::seq_lib::lemma_multiset_commutative(
            seq![s[0]],
            insert_sorted::<T>(s.drop_first(), x),
        );
        assert(s.to_multiset().insert(x) =~= s.drop_first().to_multiset().insert(x).insert(s[0]));
    } else if s.len() > 0 {
        vstd::seq_lib::lemma_multiset_commutative(seq![x], s);
        assert(seq![x].to_multiset() =~= Multiset::empty().insert(x));
    } else {
        assert(seq![x].to_multiset() =~= Multiset::empty().insert(x));
    }
}

/// Sorting keeps the elements: the result is a permutation of the input.
pub proof fn lemma_stable_sorted_multiset<T: SortKey>(s: Seq<T::V>)
    ensures
        stable_sorted::<T>(s).to_multiset() == s.to_multiset(),
    decreases s.len(),
{
    broadcast use vstd::seq_lib::group_to_multiset_ensures;
    if s.len() > 0 {
        lemma_stable_sorted_multiset::<T>(s.drop_last());
        lemma_insert_sorted_multiset::<T>(stable_sorted::<T>(s.drop_last()), s.last());
        assert(s =~= s.drop_last().push(s.last()));
    }
}

proof fn lemma_insert_sorted_keeps_order<T: SortKey>(s: Seq<T::V>, x: T::V)
    requires
        is_strict_order::<T>(),
        is_sorted::<T>(s),
    ensures
        is_sorted::<T>(insert_sorted::<T>(s, x)),
    decreases s.len(),
{
    let r = insert_sorted::<T>(s, x);
    if s.len() == 0 {
    } else if T::spec_before(x, s[0]) {
        assert forall|i: int, j: int| 0 <= i < j < r.len() implies !T::spec_before(
            #[trigger] r[j],
            #[trigger] r[i],
        ) by {
            if i == 0 {
                assert(r[j] == s[j - 1]);
                if T::spec_before(s[j - 1], x) {
                    if j - 1 > 0 {
                        assert(!T::spec_before(s[j - 1], s[0]));
                    }
                    assert(T::spec_before(s[j - 1], s[0]));
                }
            } else {
                assert(r[i] == s[i - 1] && r[j] == s[j - 1]);
            }
        }
    } else {
        let t = s.drop_first();
        assert(is_sorted::<T>(t));
        lemma_insert_sorted_keeps_order::<T>(t, x);
        let rt = insert_sorted::<T>(t, x);
        lemma_insert_sorted_multiset::<T>(t, x);
        broadcast use vstd::seq_lib::group_to_multiset_ensures;
        assert forall|i: int, j: int| 0 <= i < j < r.len() implies !T::spec_before(
            #[trigger] r[j],
            #[trigger] r[i],
        ) by {
            if i == 0 {
                assert(r[j] == rt[j - 1]);
                assert(rt.contains(rt[j - 1]));
                assert(t.to_multiset().insert(x).count(rt[j - 1]) > 0);
                if rt[j - 1] != x {
                    assert(t.to_multiset().count(rt[j - 1]) > 0);
                    let k = choose|k: int| 0 <= k < t.len() && t[k] == rt[j - 1];
                    assert(s[k + 1] == t[k]);
                }
            } else {
                assert(r[i] == rt[i - 1] && r[j] == rt[j - 1]);
            }
        }
    }
}

/// A stable sort leaves no element before one whose key is above its own.
pub proof fn lemma_stable_sorted_is_sorted<T: SortKey>(s: Seq<T::V>)
    requires
        is_strict_order::<T>(),
    ensures
        is_sorted::<T>(stable_sorted::<T>(s)),
    decreases s.len(),
{
    if s.len() > 0 {
        lemma_stable_sorted_is_sorted::<T>(s.drop_last());
        lemma_insert_sorted_keeps_order::<T>(stable_sorted::<T>(s.drop_last()), s.last());
    }
}

/// Sorting a sequence that is already in order changes nothing.
pub proof fn lemma_stable_sorted_of_sorted<T: SortKey>(s: Seq<T::V>)
    requires
        is_sorted::<T>(s),
    ensures
        stable_sorted::<T>(s) == s,
    decreases s.len(),
{
    if s.len() > 0 {
        let front = s.drop_last();
        let x = s.last();
        assert(is_sorted::<T>(front));
        lemma_stable_sorted_of_sorted::<T>(front);
        assert forall|k: int| 0 <= k < front.len() implies !T::spec_before(x, #[trigger] front[k]) by {
            assert(!T::spec_before(s[s.len() - 1], s[k]));
        }
        lemma_insert_sorted_split::<T>(front, x, front.len() as int);
        assert(front.skip(front.len() as int) =~= Seq::<T::V>::empty());
        assert(front.take(front.len() as int) + seq![x] =~= s);
    }
}

/// The elements of `v` in stable sorted order.
pub fn stable_sort<T: SortKey>(v: Vec<T>) -> (r: Vec<T>)
    ensures
        views(r@) == stable_sorted::<T>(views(v@)),
{
    let ghost orig = views(v@);
    let mut rest = v;
    let mut out: Vec<T> = Vec::new();
    let ghost mut i: int = 0;
    assert(orig.take(0) =~= Seq::<T::V>::empty());
    while rest.len() > 0
        invariant
            0 <= i <= orig.len(),
            views(rest@) == orig.skip(i),
            views(out@) == stable_sorted::<T>(orig.take(i)),
        decreases rest.len(),
    {
        assert(views(rest@).len() == rest@.len());
        assert(views(rest@)[0] == rest@[0]@);
        assert(orig.skip(i)[0] == orig[i]);
        let ghost before_remove = rest@;
        let x = rest.remove(0);
        assert(x == before_remove[0]);
        assert(x@ == orig[i]);
        let mut p: usize = 0;
        while p < out.len() && !x.before(&out[p])
            invariant
                p <= out.len(),
                forall|k: int| 0 <= k < p ==> !T::spec_before(x@, #[trigger] views(out@)[k]),
            decreases out.len() - p,
        {
            p = p + 1;
        }
        let ghost s = views(out@);
        proof {
            lemma_insert_sorted_split::<T>(s, x@, p as int);
            if p < out.len() {
                assert(s.skip(p as int) =~= seq![s[p as int]] + s.skip(p as int).drop_first());
            } else {
                assert(s.skip(p as int) =~= Seq::<T::V>::empty());
            }
            assert(s.take(p as int) + seq![x@] + s.skip(p as int) =~= s.insert(p as int, x@));
            assert(orig.take(i + 1).drop_last() =~= orig.take(i));
            assert(views(rest@).len() == orig.skip(i + 1).len());
            assert forall|k: int| 0 <= k < views(rest@).len() implies views(rest@)[k] == orig.skip(
                i + 1,
            )[k] by {
                assert(rest@[k] == before_remove[k + 1]);
                assert(views(before_remove)[k + 1] == before_remove[k + 1]@);
            }
            assert(views(rest@) =~= orig.skip(i + 1));
        }
        out.insert(p, x);
        assert(views(out@) =~= s.insert(p as int, x@));
        proof {
            i = i + 1;
        }
    }
    assert(orig.take(i) =~= orig);
    out
}

} // verus!
