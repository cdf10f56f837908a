//! A stable insertion sort at the specification level, shared by every
//! ordered read of the store: each element is placed after all elements
//! already ordered at or before it, so equal keys keep their first-seen
//! order.

use vstd::prelude::*;
use vstd::relations::sorted_by;

verus! {

/// `x` placed into `s` after every element `leq`-below or tied with it.
pub open spec fn insert_by<T>(x: T, s: Seq<T>, leq: spec_fn(T, T) -> bool) -> Seq<T>
    decreases s.len(),
{
    if s.len() == 0 {
        seq![x]
    } else if leq(s[0], x) {
        seq![s[0]] + insert_by(x, s.drop_first(), leq)
    } else {
        seq![x] + s
    }
}

/// The stable sort of `s` under `leq`: elements inserted left to right.
pub open spec fn stable_sort<T>(s: Seq<T>, leq: spec_fn(T, T) -> bool) -> Seq<T>
    decreases s.len(),
{
    if s.len() == 0 {
        Seq::empty()
    } else {
        insert_by(s.last(), stable_sort(s.drop_last(), leq), leq)
    }
}

/// `leq` orders any two values one way or the other.
pub open spec fn total_leq<T>(leq: spec_fn(T, T) -> bool) -> bool {
    forall|a: T, b: T| #[trigger] leq(a, b) || #[trigger] leq(b, a)
}

/// `leq` is transitive.
pub open spec fn transitive_leq<T>(leq: spec_fn(T, T) -> bool) -> bool {
    forall|a: T, b: T, c: T| #[trigger] leq(a, b) && #[trigger] leq(b, c) ==> leq(a, c)
}

pub proof fn lemma_insert_by_len<T>(x: T, s: Seq<T>, leq: spec_fn(T, T) -> bool)
    ensures
        insert_by(x, s, leq).len() == s.len() + 1,
    decreases s.len(),
{
    if s.len() > 0 && leq(s[0], x) {
        lemma_insert_by_len(x, s.drop_first(), leq);
    }
}

pub proof fn lemma_insert_by_multiset<T>(x: T, s: Seq<T>, leq: spec_fn(T, T) -> bool)
    ensures
        insert_by(x, s, leq).to_multiset() == s.to_multiset().insert(x),
    decreases s.len(),
{
    broadcast use vstd::seq_lib::group_to_multiset_ensures;

    if s.len() == 0 {
        assert(seq![x] =~= Seq::<T>::empty().push(x));
        assert(Seq::<T>::empty().push(x).to_multiset() =~= s.to_multiset().insert(x));
    } else if leq(s[0], x) {
        lemma_insert_by_multiset(x, s.drop_first(), leq);
        let rest = insert_by(x, s.drop_first(), leq);
        assert(seq![s[0]] + rest =~= rest.insert(0, s[0]));
        assert((seq![s[0]] + rest).to_multiset() =~= rest.to_multiset().insert(s[0]));
        assert(s =~= s.drop_first().insert(0, s[0]));
        assert(s.to_multiset() =~= s.drop_first().to_multiset().insert(s[0]));
        assert(s.drop_first().to_multiset().insert(x).insert(s[0]) =~= s.drop_first().to_multiset().insert(s[0]).insert(x));
    } else {
        assert(seq![x] + s =~= s.insert(0, x));
        assert((seq![x] + s).to_multiset() =~= s.to_multiset().insert(x));
    }
}

pub proof fn lemma_stable_sort_multiset<T>(s: Seq<T>, leq: spec_fn(T, T) -> bool)
    ensures
        stable_sort(s, leq).to_multiset() == s.to_multiset(),
        stable_sort(s, leq).len() == s.len(),
    decreases s.len(),
{
    broadcast use vstd::seq_lib::group_to_multiset_ensures;

    if s.len() > 0 {
        lemma_stable_sort_multiset(s.drop_last(), leq);
        lemma_insert_by_multiset(s.last(), stable_sort(s.drop_last(), leq), leq);
        lemma_insert_by_len(s.last(), stable_sort(s.drop_last(), leq), leq);
        assert(s =~= s.drop_last().push(s.last()));
        assert(s.drop_last().push(s.last()).to_multiset() =~= s.drop_last().to_multiset().insert(
            s.last(),
        ));
    }
}

pub proof fn lemma_insert_by_sorted<T>(x: T, s: Seq<T>, leq: spec_fn(T, T) -> bool)
    requires
        sorted_by(s, leq),
        total_leq(leq),
        transitive_leq(leq),
    ensures
        sorted_by(insert_by(x, s, leq), leq),
    decreases s.len(),
{
    if s.len() == 0 {
    } else if leq(s[0], x) {
        let tail = s.drop_first();
        assert(sorted_by(tail, leq)) by {
            assert(forall|i: int, j: int|
                0 <= i < j < tail.len() ==> leq(#[trigger] tail[i], #[trigger] tail[j])) by {
                assert(forall|i: int, j: int|
                    0 <= i < j < tail.len() ==> tail[i] == s[i + 1] && tail[j] == s[j + 1]);
            }
        }
        lemma_insert_by_sorted(x, tail, leq);
        let r = insert_by(x, s, leq);
        let rtail = insert_by(x, tail, leq);
        lemma_insert_by_len(x, tail, leq);
        // every element of the inserted tail is either x (above s[0]) or an
        // element of the tail (above s[0] since s is sorted)
        lemma_insert_by_multiset(x, tail, leq);
        assert forall|i: int, j: int| 0 <= i < j < r.len() implies leq(r[i], r[j]) by {
            broadcast use vstd::seq_lib::group_to_multiset_ensures;

            if i == 0 {
                assert(r[0] == s[0]);
                assert(r[j] == rtail[j - 1]);
                assert(rtail.to_multiset().contains(rtail[j - 1]));
                if rtail[j - 1] == x {
                } else {
                    assert(tail.to_multiset().contains(rtail[j - 1]));
                    let k = choose|k: int| 0 <= k < tail.len() && tail[k] == rtail[j - 1];
                    assert(leq(s[0], tail[k]));
                }
            } else {
                assert(r[i] == rtail[i - 1] && r[j] == rtail[j - 1]);
            }
        }
    } else {
        let r = seq![x] + s;
        assert forall|i: int, j: int| 0 <= i < j < r.len() implies leq(r[i], r[j]) by {
            if i == 0 {
                assert(!leq(s[0], x));
                assert(leq(x, s[0]));
                if j > 1 {
                    assert(leq(s[0], s[j - 1]));
                }
            } else {
                assert(r[i] == s[i - 1] && r[j] == s[j - 1]);
            }
        }
    }
}

pub proof fn lemma_stable_sort_sorted<T>(s: Seq<T>, leq: spec_fn(T, T) -> bool)
    requires
        total_leq(leq),
        transitive_leq(leq),
    ensures
        sorted_by(stable_sort(s, leq), leq),
    decreases s.len(),
{
    if s.len() > 0 {
        lemma_stable_sort_sorted(s.drop_last(), leq);
        lemma_insert_by_sorted(s.last(), stable_sort(s.drop_last(), leq), leq);
    }
}

/// Removing an element and inserting another at its place is an update.
pub proof fn lemma_remove_insert_update<T>(s: Seq<T>, j: int, t: T)
    requires
        0 <= j < s.len(),
    ensures
        s.remove(j).insert(j, t) == s.update(j, t),
{
    assert(s.remove(j).insert(j, t) =~= s.update(j, t));
}

/// Where scanning finds the first position whose element is not below `x`,
/// inserting there is exactly `insert_by`.
pub proof fn lemma_insert_by_at<T>(x: T, s: Seq<T>, leq: spec_fn(T, T) -> bool, j: int)
    requires
        0 <= j <= s.len(),
        forall|k: int| 0 <= k < j ==> leq(#[trigger] s[k], x),
        j < s.len() ==> !leq(s[j], x),
    ensures
        insert_by(x, s, leq) == s.insert(j, x),
    decreases s.len(),
{
    if s.len() == 0 {
        assert(insert_by(x, s, leq) =~= s.insert(0, x));
    } else if j == 0 {
        assert(insert_by(x, s, leq) =~= s.insert(0, x));
    } else {
        assert(leq(s[0], x));
        let tail = s.drop_first();
        assert(forall|k: int| 0 <= k < j - 1 ==> leq(#[trigger] tail[k], x)) by {
            assert(forall|k: int| 0 <= k < j - 1 ==> tail[k] == s[k + 1]);
        }
        lemma_insert_by_at(x, tail, leq, j - 1);
        assert(seq![s[0]] + tail.insert(j - 1, x) =~= s.insert(j, x));
    }
}

} // verus!
