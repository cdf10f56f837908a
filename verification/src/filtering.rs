//! Filtering of sequences by a predicate, the shape every read of the
//! store takes before ordering its rows.

use vstd::prelude::*;
use vstd::relations::sorted_by;

verus! {

/// The subsequence of `s` whose elements satisfy `p`, in order.
pub open spec fn filter_seq<T>(s: Seq<T>, p: spec_fn(T) -> bool) -> Seq<T>
    decreases s.len(),
{
    if s.len() == 0 {
        Seq::empty()
    } else if p(s[0]) {
        seq![s[0]] + filter_seq(s.drop_first(), p)
    } else {
        filter_seq(s.drop_first(), p)
    }
}

pub proof fn lemma_filter_seq_len<T>(s: Seq<T>, p: spec_fn(T) -> bool)
    ensures
        filter_seq(s, p).len() <= s.len(),
    decreases s.len(),
{
    if s.len() > 0 {
        lemma_filter_seq_len(s.drop_first(), p);
    }
}

/// Every element of the filtered sequence is an element of `s` that
/// satisfies `p`, and conversely.
pub proof fn lemma_filter_seq_contains<T>(s: Seq<T>, p: spec_fn(T) -> bool, x: T)
    ensures
        filter_seq(s, p).contains(x) <==> (s.contains(x) && p(x)),
    decreases s.len(),
{
    if s.len() > 0 {
        let tail = s.drop_first();
        lemma_filter_seq_contains(tail, p, x);
        let f = filter_seq(s, p);
        let ftail = filter_seq(tail, p);
        if tail.contains(x) {
            let k = choose|k: int| 0 <= k < tail.len() && tail[k] == x;
            assert(s[k + 1] == x);
            assert(s.contains(x));
        }
        if s.contains(x) && x != s[0] {
            let k = choose|k: int| 0 <= k < s.len() && s[k] == x;
            assert(tail[k - 1] == x);
            assert(tail.contains(x));
        }
        if p(s[0]) {
            assert(f == seq![s[0]] + ftail);
            if ftail.contains(x) {
                let k = choose|k: int| 0 <= k < ftail.len() && ftail[k] == x;
                assert(f[k + 1] == x);
                assert(f.contains(x));
            }
            if x == s[0] {
                assert(f[0] == x);
                assert(f.contains(x));
                assert(s[0] == x);
                assert(s.contains(x));
            }
            if f.contains(x) && x != s[0] {
                let k = choose|k: int| 0 <= k < f.len() && f[k] == x;
                assert(ftail[k - 1] == x);
                assert(ftail.contains(x));
            }
        } else {
            assert(f == ftail);
            if x == s[0] {
                assert(!p(x));
            }
        }
    }
}

/// Filtering distributes over concatenation.
pub proof fn lemma_filter_seq_add<T>(a: Seq<T>, b: Seq<T>, p: spec_fn(T) -> bool)
    ensures
        filter_seq(a + b, p) == filter_seq(a, p) + filter_seq(b, p),
    decreases a.len(),
{
    if a.len() == 0 {
        assert(a + b =~= b);
        assert(filter_seq(a, p) + filter_seq(b, p) =~= filter_seq(b, p));
    } else {
        lemma_filter_seq_add(a.drop_first(), b, p);
        assert((a + b).drop_first() =~= a.drop_first() + b);
        assert((a + b)[0] == a[0]);
        if p(a[0]) {
            assert(seq![a[0]] + (filter_seq(a.drop_first(), p) + filter_seq(b, p)) =~= (seq![
                a[0],
            ] + filter_seq(a.drop_first(), p)) + filter_seq(b, p));
        }
    }
}

/// A predicate nothing satisfies filters to nothing.
pub proof fn lemma_filter_seq_none<T>(s: Seq<T>, p: spec_fn(T) -> bool)
    requires
        forall|i: int| 0 <= i < s.len() ==> !p(#[trigger] s[i]),
    ensures
        filter_seq(s, p) == Seq::<T>::empty(),
    decreases s.len(),
{
    if s.len() > 0 {
        let tail = s.drop_first();
        assert(forall|i: int| 0 <= i < tail.len() ==> !p(#[trigger] tail[i])) by {
            assert(forall|i: int| 0 <= i < tail.len() ==> tail[i] == s[i + 1]);
        }
        lemma_filter_seq_none(tail, p);
    }
}

/// A predicate everything satisfies filters to the sequence itself.
pub proof fn lemma_filter_seq_all<T>(s: Seq<T>, p: spec_fn(T) -> bool)
    requires
        forall|i: int| 0 <= i < s.len() ==> p(#[trigger] s[i]),
    ensures
        filter_seq(s, p) == s,
    decreases s.len(),
{
    if s.len() > 0 {
        let tail = s.drop_first();
        assert(forall|i: int| 0 <= i < tail.len() ==> p(#[trigger] tail[i])) by {
            assert(forall|i: int| 0 <= i < tail.len() ==> tail[i] == s[i + 1]);
        }
        lemma_filter_seq_all(tail, p);
        assert(seq![s[0]] + tail =~= s);
    }
}

/// Predicates that agree on the elements filter alike.
pub proof fn lemma_filter_seq_ext<T>(s: Seq<T>, p: spec_fn(T) -> bool, q: spec_fn(T) -> bool)
    requires
        forall|i: int| 0 <= i < s.len() ==> p(#[trigger] s[i]) == q(s[i]),
    ensures
        filter_seq(s, p) == filter_seq(s, q),
    decreases s.len(),
{
    if s.len() > 0 {
        let tail = s.drop_first();
        assert(forall|i: int| 0 <= i < tail.len() ==> p(#[trigger] tail[i]) == q(tail[i])) by {
            assert(forall|i: int| 0 <= i < tail.len() ==> tail[i] == s[i + 1]);
        }
        lemma_filter_seq_ext(tail, p, q);
    }
}

/// Filtering by a conjunction is filtering twice.
pub proof fn lemma_filter_seq_compose<T>(
    s: Seq<T>,
    p: spec_fn(T) -> bool,
    q: spec_fn(T) -> bool,
    r: spec_fn(T) -> bool,
)
    requires
        forall|x: T| #[trigger] r(x) == (p(x) && q(x)),
    ensures
        filter_seq(filter_seq(s, p), q) == filter_seq(s, r),
    decreases s.len(),
{
    if s.len() > 0 {
        lemma_filter_seq_compose(s.drop_first(), p, q, r);
        let ft = filter_seq(s.drop_first(), p);
        if p(s[0]) {
            assert((seq![s[0]] + ft)[0] == s[0]);
            assert((seq![s[0]] + ft).drop_first() =~= ft);
        }
    }
}

/// Removing one element removes exactly its contribution to the count.
pub proof fn lemma_filter_seq_remove<T>(s: Seq<T>, p: spec_fn(T) -> bool, i: int)
    requires
        0 <= i < s.len(),
    ensures
        filter_seq(s, p).len() == filter_seq(s.remove(i), p).len() + (if p(s[i]) {
            1int
        } else {
            0int
        }),
    decreases i,
{
    if i == 0 {
        assert(s.remove(0) =~= s.drop_first());
    } else {
        assert(s.remove(i)[0] == s[0]);
        assert(s.remove(i).drop_first() =~= s.drop_first().remove(i - 1));
        assert(s.drop_first()[i - 1] == s[i]);
        lemma_filter_seq_remove(s.drop_first(), p, i - 1);
        if p(s[0]) {
            assert(filter_seq(s.remove(i), p) == seq![s[0]] + filter_seq(
                s.drop_first().remove(i - 1),
                p,
            ));
        }
    }
}

/// Sequences with the same multiset keep the same number of elements
/// under any filter.
pub proof fn lemma_filter_len_permutation<T>(a: Seq<T>, b: Seq<T>, p: spec_fn(T) -> bool)
    requires
        a.to_multiset() == b.to_multiset(),
    ensures
        filter_seq(a, p).len() == filter_seq(b, p).len(),
    decreases a.len(),
{
    broadcast use vstd::seq_lib::group_to_multiset_ensures;

    if a.len() == 0 {
        vstd::seq_lib::to_multiset_len(a);
        vstd::seq_lib::to_multiset_len(b);
        assert(b.len() == 0);
    } else {
        let x = a[0];
        assert(a.contains(x));
        assert(b.to_multiset().count(x) > 0);
        assert(b.contains(x));
        let i = choose|i: int| 0 <= i < b.len() && b[i] == x;
        vstd::seq_lib::to_multiset_remove(a, 0);
        vstd::seq_lib::to_multiset_remove(b, i);
        assert(a.remove(0).to_multiset() == b.remove(i).to_multiset());
        lemma_filter_len_permutation(a.remove(0), b.remove(i), p);
        lemma_filter_seq_remove(a, p, 0);
        lemma_filter_seq_remove(b, p, i);
    }
}

/// Filtering keeps any order the sequence already has.
pub proof fn lemma_filter_preserves_sorted_by<T>(
    s: Seq<T>,
    p: spec_fn(T) -> bool,
    leq: spec_fn(T, T) -> bool,
)
    requires
        sorted_by(s, leq),
    ensures
        sorted_by(filter_seq(s, p), leq),
    decreases s.len(),
{
    if s.len() > 0 {
        let tail = s.drop_first();
        assert(sorted_by(tail, leq)) by {
            assert(forall|i: int, j: int|
                0 <= i < j < tail.len() ==> leq(#[trigger] tail[i], #[trigger] tail[j])) by {
                assert(forall|i: int, j: int|
                    0 <= i < j < tail.len() ==> tail[i] == s[i + 1] && tail[j] == s[j + 1]);
            }
        }
        lemma_filter_preserves_sorted_by(tail, p, leq);
        let ftail = filter_seq(tail, p);
        if p(s[0]) {
            let f = seq![s[0]] + ftail;
            assert forall|i: int, j: int| 0 <= i < j < f.len() implies leq(f[i], f[j]) by {
                if i == 0 {
                    assert(f[j] == ftail[j - 1]);
                    lemma_filter_seq_contains(tail, p, ftail[j - 1]);
                    assert(tail.contains(ftail[j - 1]));
                    let k = choose|k: int| 0 <= k < tail.len() && tail[k] == ftail[j - 1];
                    assert(tail[k] == s[k + 1]);
                    assert(leq(s[0], s[k + 1]));
                } else {
                    assert(f[i] == ftail[i - 1] && f[j] == ftail[j - 1]);
                }
            }
        }
    }
}

} // verus!
