//! The laws the store keeps, each proved from the public contracts: what
//! a fresh ingest reads back, how pages tile the ordered rows, what the
//! level filter counts, and what a replace leaves behind.

use vstd::prelude::*;
use vstd::relations::sorted_by;

use crate::database::{
    eid, entry_le_fn, entry_matches, entry_pred, keep_session_fn, level_set, lookup_session_by,
    query_rows, with_eid, with_ids, DbView,
};
use crate::filtering::{
    filter_seq, lemma_filter_seq_add, lemma_filter_seq_all, lemma_filter_seq_ext,
    lemma_filter_seq_none,
};
use crate::ingest::{ingested_db, replace_deleted, session_id_of};
use crate::log_parser::LogEntryV;
use crate::sorting::{
    lemma_stable_sort_multiset, lemma_stable_sort_sorted, stable_sort, total_leq, transitive_leq,
};
use crate::text::{lemma_lex_lt_total, lemma_lex_lt_transitive, lex_lt};

verus! {

/// The read order is total and transitive, so sorting under it is sound.
pub proof fn lemma_entry_le_order()
    ensures
        total_leq(entry_le_fn()),
        transitive_leq(entry_le_fn()),
{
    assert forall|a: LogEntryV, b: LogEntryV| #[trigger]
        entry_le_fn()(a, b) || #[trigger] entry_le_fn()(b, a) by {
        lemma_lex_lt_total(a.timestamp, b.timestamp);
    }
    assert forall|a: LogEntryV, b: LogEntryV, c: LogEntryV|
        #[trigger] entry_le_fn()(a, b) && #[trigger] entry_le_fn()(b, c) implies entry_le_fn()(
        a,
        c,
    ) by {
        if lex_lt(a.timestamp, b.timestamp) && lex_lt(b.timestamp, c.timestamp) {
            lemma_lex_lt_transitive(a.timestamp, b.timestamp, c.timestamp);
        }
    }
}

/// Law: reading a freshly ingested session with no filters yields exactly
/// the parsed rows, with their ids assigned, in the order
/// `(timestamp, id)` — the same timestamps, levels, messages and stacks
/// the parser emitted, none lost and none invented.
pub proof fn lemma_round_trip(
    entries0: Seq<LogEntryV>,
    parsed: Seq<LogEntryV>,
    sid: Seq<char>,
    start: int,
)
    requires
        forall|i: int| 0 <= i < entries0.len() ==> (#[trigger] entries0[i]).test_session_id != sid,
        forall|i: int| 0 <= i < parsed.len() ==> (#[trigger] parsed[i]).test_session_id == sid,
    ensures
        ({
            let q = query_rows(entries0 + with_ids(parsed, start), sid, Option::None, Option::None);
            &&& q.to_multiset() == with_ids(parsed, start).to_multiset()
            &&& q.len() == parsed.len()
            &&& sorted_by(q, entry_le_fn())
            &&& forall|i: int|
                0 <= i < q.len() ==> exists|j: int|
                    0 <= j < parsed.len() && (#[trigger] q[i]).timestamp == parsed[j].timestamp
                        && q[i].level == parsed[j].level && q[i].message == parsed[j].message
                        && q[i].stack == parsed[j].stack
        }),
{
    broadcast use vstd::seq_lib::group_to_multiset_ensures;

    let p = entry_pred(sid, Option::None, Option::None);
    let withids = with_ids(parsed, start);
    lemma_filter_seq_add(entries0, withids, p);
    assert(forall|i: int| 0 <= i < entries0.len() ==> !p(#[trigger] entries0[i]));
    lemma_filter_seq_none(entries0, p);
    assert(forall|i: int| 0 <= i < withids.len() ==> p(#[trigger] withids[i])) by {
        assert(forall|i: int|
            0 <= i < withids.len() ==> (#[trigger] withids[i]) == with_eid(parsed[i], start + i));
    }
    lemma_filter_seq_all(withids, p);
    let m = filter_seq(entries0 + withids, p);
    assert(m =~= withids);
    lemma_entry_le_order();
    lemma_stable_sort_multiset(m, entry_le_fn());
    lemma_stable_sort_sorted(m, entry_le_fn());
    let q = stable_sort(m, entry_le_fn());
    assert(q.len() == withids.len());
    assert(withids.len() == parsed.len());
    assert forall|i: int| 0 <= i < q.len() implies exists|j: int|
        0 <= j < parsed.len() && (#[trigger] q[i]).timestamp == parsed[j].timestamp && q[i].level
            == parsed[j].level && q[i].message == parsed[j].message && q[i].stack
            == parsed[j].stack by {
        assert(q.to_multiset().contains(q[i]));
        assert(withids.contains(q[i]));
        let j = choose|j: int| 0 <= j < withids.len() && withids[j] == q[i];
        assert(withids[j] == with_eid(parsed[j], start + j));
    }
}

/// One page of an ordered row sequence.
pub open spec fn page_of(s: Seq<LogEntryV>, offset: int, limit: int) -> Seq<LogEntryV> {
    let lo = if offset <= s.len() {
        offset
    } else {
        s.len() as int
    };
    let hi = if offset + limit <= s.len() {
        offset + limit
    } else {
        s.len() as int
    };
    s.subrange(lo, hi)
}

/// The first `n` pages, joined.
pub open spec fn pages_concat(s: Seq<LogEntryV>, limit: int, n: int) -> Seq<LogEntryV>
    decreases n,
{
    if n <= 0 {
        Seq::empty()
    } else {
        pages_concat(s, limit, n - 1) + page_of(s, (n - 1) * limit, limit)
    }
}

/// Law: pages read at offsets 0, limit, 2·limit, … tile the ordered rows
/// with no duplicate and no gap: the first `n` pages joined are exactly
/// the first `n·limit` rows.
pub proof fn lemma_pagination_coverage(s: Seq<LogEntryV>, limit: int, n: int)
    requires
        limit > 0,
        n >= 0,
    ensures
        pages_concat(s, limit, n) == s.take(
            if n * limit <= s.len() {
                n * limit
            } else {
                s.len() as int
            },
        ),
    decreases n,
{
    if n == 0 {
        assert(s.take(0) =~= Seq::<LogEntryV>::empty());
    } else {
        lemma_pagination_coverage(s, limit, n - 1);
        assert((n - 1) * limit == n * limit - limit) by (nonlinear_arith) {
        }
        assert(n * limit >= limit > 0) by (nonlinear_arith)
            requires
                limit > 0,
                n >= 1,
        {
        }
        let prev = if (n - 1) * limit <= s.len() {
            (n - 1) * limit
        } else {
            s.len() as int
        };
        let cur = if n * limit <= s.len() {
            n * limit
        } else {
            s.len() as int
        };
        assert(s.take(prev) + page_of(s, (n - 1) * limit, limit) =~= s.take(cur));
    }
}

/// Law: every matching row is on some page: enough pages tile all rows.
pub proof fn lemma_pagination_covers_all(s: Seq<LogEntryV>, limit: int, n: int)
    requires
        limit > 0,
        n >= 0,
        n * limit >= s.len(),
    ensures
        pages_concat(s, limit, n) == s,
{
    lemma_pagination_coverage(s, limit, n);
    assert(s.take(s.len() as int) =~= s);
    if n * limit <= s.len() {
        assert(s.take(n * limit) =~= s);
    }
}

/// Law: an empty level list selects nothing — the total of such a read
/// is zero.
pub proof fn lemma_empty_levels_select_nothing(
    entries: Seq<LogEntryV>,
    sid: Seq<char>,
    st: Option<Seq<char>>,
)
    ensures
        filter_seq(entries, entry_pred(sid, Option::Some(Seq::empty()), st)).len() == 0,
{
    let p = entry_pred(sid, Option::Some(Seq::<Seq<char>>::empty()), st);
    assert(forall|i: int| 0 <= i < entries.len() ==> !p(#[trigger] entries[i]));
    lemma_filter_seq_none(entries, p);
}

/// Law: with one selected level X, a read counts exactly the rows of the
/// session whose stored level is X or X in brackets.
pub proof fn lemma_single_level_counts(entries: Seq<LogEntryV>, sid: Seq<char>, x: Seq<char>)
    requires
        x.len() > 0,
        x != "ALL"@,
    ensures
        filter_seq(entries, entry_pred(sid, Option::Some(seq![x]), Option::None)) == filter_seq(
            entries,
            single_level_fn(sid, x),
        ),
{
    let p = entry_pred(sid, Option::Some(seq![x]), Option::None);
    let q = single_level_fn(sid, x);
    assert(level_set(seq![x]) =~= seq![x]) by {
        assert(crate::database::keep_level_fn()(x));
        assert(seq![x].drop_first() =~= Seq::<Seq<char>>::empty());
        assert(filter_seq(Seq::<Seq<char>>::empty(), crate::database::keep_level_fn())
            =~= Seq::<Seq<char>>::empty());
        assert(seq![x] + Seq::<Seq<char>>::empty() =~= seq![x]);
    }
    assert forall|i: int| 0 <= i < entries.len() implies p(#[trigger] entries[i]) == q(
        entries[i],
    ) by {
        let e = entries[i];
        if e.test_session_id == sid {
            if e.level == x || "["@ + x + "]"@ == e.level {
                assert(seq![x][0] == x);
                assert(crate::database::level_matches(e.level, seq![x]));
            }
            if crate::database::level_matches(e.level, seq![x]) {
                let k = choose|k: int|
                    0 <= k < seq![x].len() && (#[trigger] seq![x][k] == e.level || "["@ + seq![
                        x,
                    ][k] + "]"@ == e.level);
                assert(k == 0);
            }
        }
    }
    lemma_filter_seq_ext(entries, p, q);
}

/// The rows a single-level read describes: the session's rows stored
/// under the level itself or its bracketed historical form.
pub open spec fn single_level_fn(sid: Seq<char>, x: Seq<char>) -> spec_fn(LogEntryV) -> bool {
    |e: LogEntryV| e.test_session_id == sid && (e.level == x || "["@ + x + "]"@ == e.level)
}

proof fn lemma_distinct_count<T>(s: Seq<T>, x: T)
    requires
        forall|i: int, j: int| 0 <= i < j < s.len() ==> s[i] != s[j],
    ensures
        s.to_multiset().count(x) <= 1,
    decreases s.len(),
{
    broadcast use vstd::seq_lib::group_to_multiset_ensures;
    broadcast use vstd::multiset::group_multiset_axioms;

    if s.len() == 0 {
        assert(s.to_multiset() =~= vstd::multiset::Multiset::<T>::empty());
    } else {
        let tail = s.drop_first();
        assert(forall|i: int, j: int| 0 <= i < j < tail.len() ==> tail[i] != tail[j]) by {
            assert(forall|i: int| 0 <= i < tail.len() ==> tail[i] == s[i + 1]);
        }
        lemma_distinct_count(tail, x);
        vstd::seq_lib::to_multiset_remove(s, 0);
        assert(s.remove(0) =~= tail);
        if s[0] == x {
            if tail.to_multiset().count(x) > 0 {
                assert(tail.contains(x));
                let k = choose|k: int| 0 <= k < tail.len() && tail[k] == x;
                assert(s[k + 1] == s[0]);
                assert(false);
            }
            assert(s.to_multiset().count(x) == tail.to_multiset().count(x) + 1);
        } else {
            assert(s.to_multiset().count(x) == tail.to_multiset().count(x));
        }
    }
}

proof fn lemma_two_positions_count<T>(s: Seq<T>, i: int, j: int)
    requires
        0 <= i < j < s.len(),
        s[i] == s[j],
    ensures
        s.to_multiset().count(s[i]) >= 2,
{
    broadcast use vstd::seq_lib::group_to_multiset_ensures;
    broadcast use vstd::multiset::group_multiset_axioms;

    vstd::seq_lib::to_multiset_remove(s, j);
    let t = s.remove(j);
    s.remove_ensures(j);
    assert(t[i] == s[i]);
    assert(t.contains(s[i]));
    assert(t.to_multiset().count(s[i]) > 0);
    assert(t.to_multiset() == s.to_multiset().remove(s[j]));
}

/// Law: where an entry matches the filters, the page the resolver names
/// is the page that holds it: the entry sits inside the window
/// `[(page-1)·limit, page·limit)` of the ordered matching rows.
pub proof fn lemma_entry_page_consistent(
    entries: Seq<LogEntryV>,
    sid: Seq<char>,
    lf: Option<Seq<Seq<char>>>,
    st: Option<Seq<char>>,
    e: LogEntryV,
    limit: int,
)
    requires
        limit > 0,
        entries.contains(e),
        entry_matches(e, sid, lf, st),
        forall|i: int| 0 <= i < entries.len() ==> (#[trigger] entries[i]).id is Some,
        forall|i: int, j: int|
            0 <= i < j < entries.len() ==> eid(#[trigger] entries[i]) != eid(
                #[trigger] entries[j],
            ),
    ensures
        ({
            let q = query_rows(entries, sid, lf, st);
            let before = filter_seq(
                entries,
                crate::database::before_pred(sid, lf, st, e),
            ).len() as int;
            let page = before / limit + 1;
            page_of(q, (page - 1) * limit, limit).contains(e)
        }),
{
    broadcast use vstd::seq_lib::group_to_multiset_ensures;

    let pred = entry_pred(sid, lf, st);
    let sb = strictly_before_fn(e);
    let bp = crate::database::before_pred(sid, lf, st, e);
    let m = filter_seq(entries, pred);
    let q = stable_sort(m, entry_le_fn());
    lemma_entry_le_order();
    lemma_stable_sort_multiset(m, entry_le_fn());
    lemma_stable_sort_sorted(m, entry_le_fn());

    // the entry sits somewhere in the ordered rows
    crate::filtering::lemma_filter_seq_contains(entries, pred, e);
    assert(m.contains(e));
    assert(q.to_multiset().count(e) > 0);
    assert(q.contains(e));
    let idx = choose|k: int| 0 <= k < q.len() && q[k] == e;

    // the entries are pairwise distinct, so the entry sits there once
    assert(forall|i: int, j: int|
        0 <= i < j < entries.len() ==> entries[i] != entries[j]);
    let nefn = |a: LogEntryV, b: LogEntryV| a != b;
    assert(sorted_by(entries, nefn)) by {
        assert(forall|i: int, j: int|
            0 <= i < j < entries.len() ==> nefn(#[trigger] entries[i], #[trigger] entries[j]));
    }
    crate::filtering::lemma_filter_preserves_sorted_by(entries, pred, nefn);
    assert(forall|i: int, j: int| 0 <= i < j < m.len() ==> m[i] != m[j]) by {
        assert(forall|i: int, j: int| 0 <= i < j < m.len() ==> nefn(#[trigger] m[i], #[trigger] m[j]));
    }
    lemma_distinct_count(m, e);
    assert forall|k: int| 0 <= k < q.len() && k != idx implies q[k] != e by {
        if q[k] == e {
            if k < idx {
                lemma_two_positions_count(q, k, idx);
            } else {
                lemma_two_positions_count(q, idx, k);
            }
        }
    }

    // every id in the ordered rows is an id of the stored rows
    assert forall|k: int| 0 <= k < q.len() implies (#[trigger] q[k]).id is Some by {
        assert(q.to_multiset().count(q[k]) > 0);
        assert(m.contains(q[k]));
        crate::filtering::lemma_filter_seq_contains(entries, pred, q[k]);
        let t = choose|t: int| 0 <= t < entries.len() && entries[t] == q[k];
        assert(entries[t].id is Some);
    }
    assert forall|k: int| 0 <= k < q.len() && k != idx implies eid(q[k]) != eid(e) by {
        assert(q.to_multiset().count(q[k]) > 0);
        assert(m.contains(q[k]));
        crate::filtering::lemma_filter_seq_contains(entries, pred, q[k]);
        let t = choose|t: int| 0 <= t < entries.len() && entries[t] == q[k];
        let u = choose|u: int| 0 <= u < entries.len() && entries[u] == e;
        if t != u {
            if t < u {
                assert(eid(entries[t]) != eid(entries[u]));
            } else {
                assert(eid(entries[u]) != eid(entries[t]));
            }
        } else {
            assert(q[k] == e);
            assert(false);
        }
    }

    // the rows before the entry are exactly the strictly-earlier ones
    assert forall|k: int| 0 <= k < idx implies sb(#[trigger] q[k]) by {
        assert(entry_le_fn()(q[k], q[idx]));
        assert(q[k] != e);
        assert(eid(q[k]) != eid(e));
        if !lex_lt(q[k].timestamp, e.timestamp) {
            assert(q[k].timestamp == e.timestamp && eid(q[k]) <= eid(e));
        }
    }
    assert forall|k: int| idx <= k < q.len() implies !sb(#[trigger] q[k]) by {
        if k == idx {
            crate::text::lemma_lex_lt_irreflexive(e.timestamp);
        } else {
            assert(entry_le_fn()(q[idx], q[k]));
            assert(eid(q[k]) != eid(e));
            if lex_lt(q[k].timestamp, e.timestamp) {
                if lex_lt(e.timestamp, q[k].timestamp) {
                    crate::text::lemma_lex_lt_transitive(
                        e.timestamp,
                        q[k].timestamp,
                        e.timestamp,
                    );
                    crate::text::lemma_lex_lt_irreflexive(e.timestamp);
                } else {
                    assert(e.timestamp == q[k].timestamp);
                    crate::text::lemma_lex_lt_irreflexive(e.timestamp);
                }
            }
        }
    }

    // so the before-count is the entry's position
    assert(q =~= q.subrange(0, idx) + q.subrange(idx, q.len() as int));
    crate::filtering::lemma_filter_seq_add(
        q.subrange(0, idx),
        q.subrange(idx, q.len() as int),
        sb,
    );
    crate::filtering::lemma_filter_seq_all(q.subrange(0, idx), sb);
    crate::filtering::lemma_filter_seq_none(q.subrange(idx, q.len() as int), sb);
    assert(filter_seq(q, sb).len() == idx);
    assert(forall|x: LogEntryV| #[trigger] bp(x) == (pred(x) && sb(x)));
    crate::filtering::lemma_filter_seq_compose(entries, pred, sb, bp);
    crate::filtering::lemma_filter_len_permutation(m, q, sb);
    let before = filter_seq(entries, bp).len() as int;
    assert(before == idx);

    // and the window of the named page holds the entry
    let page = before / limit + 1;
    let lo = (page - 1) * limit;
    assert(lo == (idx / limit) * limit) by (nonlinear_arith)
        requires
            page == idx / limit + 1,
            lo == (page - 1) * limit,
            before == idx,
    {
    }
    assert(lo <= idx < lo + limit) by (nonlinear_arith)
        requires
            lo == (idx / limit) * limit,
            limit > 0,
            idx >= 0,
    {
    }
    let win = page_of(q, lo, limit);
    assert(win[idx - lo] == q[idx]);
    assert(win.contains(e));
}

/// The rows strictly before one target in the read order.
pub open spec fn strictly_before_fn(e: LogEntryV) -> spec_fn(LogEntryV) -> bool {
    |x: LogEntryV| crate::database::entry_strictly_before(x, e)
}

/// How many sessions of a store carry this name and source.
pub open spec fn count_named(ss: Seq<crate::log_parser::TestSessionV>, name: Seq<char>, dir: Seq<char>) -> int
    decreases ss.len(),
{
    if ss.len() == 0 {
        0
    } else {
        (if ss[0].name == name && ss[0].directory_path == dir {
            1int
        } else {
            0int
        }) + count_named(ss.drop_first(), name, dir)
    }
}

proof fn lemma_count_named_push(
    ss: Seq<crate::log_parser::TestSessionV>,
    s: crate::log_parser::TestSessionV,
    name: Seq<char>,
    dir: Seq<char>,
)
    ensures
        count_named(ss.push(s), name, dir) == count_named(ss, name, dir) + (
        if s.name == name && s.directory_path == dir {
            1int
        } else {
            0int
        }),
    decreases ss.len(),
{
    if ss.len() == 0 {
        assert(ss.push(s)[0] == s);
        assert(ss.push(s).drop_first() =~= Seq::<crate::log_parser::TestSessionV>::empty());
        assert(count_named(Seq::<crate::log_parser::TestSessionV>::empty(), name, dir) == 0);
        assert(count_named(ss, name, dir) == 0);
        assert(ss.push(s).len() > 0);
        assert(count_named(ss.push(s), name, dir) == (if s.name == name && s.directory_path
            == dir {
            1int
        } else {
            0int
        }) + count_named(ss.push(s).drop_first(), name, dir));
    } else {
        lemma_count_named_push(ss.drop_first(), s, name, dir);
        assert(ss.push(s)[0] == ss[0]);
        assert(ss.push(s).drop_first() =~= ss.drop_first().push(s));
        assert(ss.push(s).len() > 0);
        assert(count_named(ss.push(s), name, dir) == (if ss[0].name == name
            && ss[0].directory_path == dir {
            1int
        } else {
            0int
        }) + count_named(ss.drop_first().push(s), name, dir));
        assert(count_named(ss, name, dir) == (if ss[0].name == name && ss[0].directory_path
            == dir {
            1int
        } else {
            0int
        }) + count_named(ss.drop_first(), name, dir));
    }
}

proof fn lemma_count_named_nonneg(
    ss: Seq<crate::log_parser::TestSessionV>,
    name: Seq<char>,
    dir: Seq<char>,
)
    ensures
        count_named(ss, name, dir) >= 0,
    decreases ss.len(),
{
    if ss.len() > 0 {
        lemma_count_named_nonneg(ss.drop_first(), name, dir);
    }
}

proof fn lemma_count_named_none(ss: Seq<crate::log_parser::TestSessionV>, name: Seq<char>, dir: Seq<char>)
    requires
        lookup_session_by(ss, name, dir) is None,
    ensures
        count_named(ss, name, dir) == 0,
    decreases ss.len(),
{
    if ss.len() > 0 {
        lemma_count_named_none(ss.drop_first(), name, dir);
    }
}

proof fn lemma_replace_removes_named(
    ss: Seq<crate::log_parser::TestSessionV>,
    name: Seq<char>,
    dir: Seq<char>,
    sid: Seq<char>,
)
    requires
        count_named(ss, name, dir) <= 1,
        lookup_session_by(ss, name, dir) is Some,
        lookup_session_by(ss, name, dir)->0.id == sid,
        forall|i: int, j: int|
            0 <= i < j < ss.len() ==> (#[trigger] ss[i]).id != (#[trigger] ss[j]).id,
    ensures
        count_named(filter_seq(ss, keep_session_fn(sid)), name, dir) == 0,
    decreases ss.len(),
{
    let p = keep_session_fn(sid);
    if ss.len() > 0 {
        let tail = ss.drop_first();
        assert(forall|i: int, j: int|
            0 <= i < j < tail.len() ==> (#[trigger] tail[i]).id != (#[trigger] tail[j]).id) by {
            assert(forall|i: int| 0 <= i < tail.len() ==> tail[i] == ss[i + 1]);
        }
        if ss[0].name == name && ss[0].directory_path == dir {
            // the head is the looked-up session; the rest holds no other
            assert(ss[0].id == sid);
            assert(!p(ss[0]));
            lemma_count_named_nonneg(tail, name, dir);
            assert(count_named(tail, name, dir) == 0);
            lemma_count_named_zero_filter(tail, name, dir, p);
        } else {
            assert(lookup_session_by(tail, name, dir) is Some);
            assert(lookup_session_by(tail, name, dir)->0.id == sid);
            lemma_replace_removes_named(tail, name, dir, sid);
            if p(ss[0]) {
                assert(count_named(seq![ss[0]] + filter_seq(tail, p), name, dir) == (
                if ss[0].name == name && ss[0].directory_path == dir {
                    1int
                } else {
                    0int
                }) + count_named(filter_seq(tail, p), name, dir)) by {
                    assert((seq![ss[0]] + filter_seq(tail, p)).drop_first() =~= filter_seq(
                        tail,
                        p,
                    ));
                }
            }
        }
    }
}

proof fn lemma_count_named_zero_filter(
    ss: Seq<crate::log_parser::TestSessionV>,
    name: Seq<char>,
    dir: Seq<char>,
    p: spec_fn(crate::log_parser::TestSessionV) -> bool,
)
    requires
        count_named(ss, name, dir) == 0,
    ensures
        count_named(filter_seq(ss, p), name, dir) == 0,
    decreases ss.len(),
{
    if ss.len() > 0 {
        lemma_count_named_nonneg(ss.drop_first(), name, dir);
        lemma_count_named_zero_filter(ss.drop_first(), name, dir, p);
        if p(ss[0]) {
            assert((seq![ss[0]] + filter_seq(ss.drop_first(), p)).drop_first() =~= filter_seq(
                ss.drop_first(),
                p,
            ));
        }
    }
}

/// Law: re-ingesting a session of a name and source that the store holds
/// at most once leaves exactly one session of that name and source — the
/// prior row and its dependents are replaced, never duplicated.
pub proof fn lemma_replace_atomic(
    db: DbView,
    name: Seq<char>,
    dir: Seq<char>,
    stype: Seq<char>,
    files: Seq<(Seq<char>, Seq<char>, int)>,
    nanos: int,
)
    requires
        count_named(db.sessions, name, dir) <= 1,
        crate::database::sessions_wf(db.sessions),
    ensures
        count_named(ingested_db(db, name, dir, stype, files, nanos).sessions, name, dir) == 1,
{
    let db1 = replace_deleted(db, name, dir);
    match lookup_session_by(db.sessions, name, dir) {
        Option::None => {
            lemma_count_named_none(db.sessions, name, dir);
            assert(db1.sessions == db.sessions);
        },
        Option::Some(s) => {
            lemma_lookup_named(db.sessions, name, dir);
            lemma_replace_removes_named(db.sessions, name, dir, s.id);
        },
    }
    assert(count_named(db1.sessions, name, dir) == 0);
    let srow = crate::ingest::ingested_session_row(
        session_id_of(name, nanos),
        name,
        dir,
        stype,
        files.len() as int,
        crate::ingest::parsed_entries(
            stable_sort(files, crate::ingest::triple_le_fn()),
            session_id_of(name, nanos),
        ).len() as int,
        nanos,
    );
    lemma_count_named_push(db1.sessions, srow, name, dir);
}

proof fn lemma_lookup_named(ss: Seq<crate::log_parser::TestSessionV>, name: Seq<char>, dir: Seq<char>)
    requires
        lookup_session_by(ss, name, dir) is Some,
    ensures
        lookup_session_by(ss, name, dir)->0.name == name,
        lookup_session_by(ss, name, dir)->0.directory_path == dir,
    decreases ss.len(),
{
    if ss.len() > 0 && !(ss[0].name == name && ss[0].directory_path == dir) {
        lemma_lookup_named(ss.drop_first(), name, dir);
    }
}


// ------------------------------------------------------------------
// what the bookmark synthesizer guarantees
// ------------------------------------------------------------------

/// Some bookmark sits on this entry.
pub open spec fn has_bookmark(bms: Seq<crate::log_parser::BookmarkV>, id: int) -> bool {
    exists|k: int| 0 <= k < bms.len() && (#[trigger] bms[k]).log_entry_id == id
}

/// Some bookmark of this color sits on this entry.
pub open spec fn has_colored_bookmark(
    bms: Seq<crate::log_parser::BookmarkV>,
    id: int,
    color: Seq<char>,
) -> bool {
    exists|k: int|
        0 <= k < bms.len() && (#[trigger] bms[k]).log_entry_id == id && bms[k].color
            == Option::Some(color)
}

proof fn lemma_lookup_bookmark_sound(bms: Seq<crate::log_parser::BookmarkV>, id: int)
    requires
        crate::database::lookup_bookmark(bms, id) is Some,
    ensures
        ({
            let i = crate::database::lookup_bookmark(bms, id)->0;
            0 <= i < bms.len() && bms[i].log_entry_id == id
        }),
    decreases bms.len(),
{
    if bms.len() > 0 && bms[0].log_entry_id != id {
        lemma_lookup_bookmark_sound(bms.drop_first(), id);
    }
}

proof fn lemma_upgrade_gives_color(
    st: crate::database::SynthState,
    e: LogEntryV,
    color: Seq<char>,
    title: Seq<char>,
)
    ensures
        has_colored_bookmark(
            crate::database::upgrade_step(st, e, color, title).bookmarks,
            eid(e),
            color,
        ),
{
    let r = crate::database::upgrade_step(st, e, color, title);
    match crate::database::lookup_bookmark(st.bookmarks, eid(e)) {
        Option::Some(i) => {
            lemma_lookup_bookmark_sound(st.bookmarks, eid(e));
            if st.bookmarks[i].color != Option::Some(color) {
                assert(r.bookmarks[i].log_entry_id == eid(e));
                assert(r.bookmarks[i].color == Option::Some(color));
            } else {
                assert(r.bookmarks[i].log_entry_id == eid(e));
            }
        },
        Option::None => {
            let k = st.bookmarks.len() as int;
            assert(r.bookmarks[k].log_entry_id == eid(e));
            assert(r.bookmarks[k].color == Option::Some(color));
        },
    }
}

proof fn lemma_upgrade_preserves_colored(
    st: crate::database::SynthState,
    e2: LogEntryV,
    c2: Seq<char>,
    t2: Seq<char>,
    id0: int,
    c0: Seq<char>,
)
    requires
        has_colored_bookmark(st.bookmarks, id0, c0),
        eid(e2) != id0 || c2 == c0,
    ensures
        has_colored_bookmark(
            crate::database::upgrade_step(st, e2, c2, t2).bookmarks,
            id0,
            c0,
        ),
{
    let r = crate::database::upgrade_step(st, e2, c2, t2);
    let w = choose|k: int|
        0 <= k < st.bookmarks.len() && (#[trigger] st.bookmarks[k]).log_entry_id == id0
            && st.bookmarks[k].color == Option::Some(c0);
    match crate::database::lookup_bookmark(st.bookmarks, eid(e2)) {
        Option::Some(i) => {
            lemma_lookup_bookmark_sound(st.bookmarks, eid(e2));
            if st.bookmarks[i].color != Option::Some(c2) {
                if i == w {
                    // the witness itself was recolored; it can only have
                    // been on the same entry, so the new color is c0
                    assert(eid(e2) == id0);
                    assert(c2 == c0);
                    assert(r.bookmarks[i].log_entry_id == id0);
                    assert(r.bookmarks[i].color == Option::Some(c0));
                } else {
                    assert(r.bookmarks[w] == st.bookmarks[w]);
                }
            } else {
                assert(r.bookmarks[w] == st.bookmarks[w]);
            }
        },
        Option::None => {
            assert(r.bookmarks[w] == st.bookmarks[w]);
        },
    }
}

proof fn lemma_other_preserves(
    st: crate::database::SynthState,
    e2: LogEntryV,
    id0: int,
)
    ensures
        forall|c0: Seq<char>|
            has_colored_bookmark(st.bookmarks, id0, c0) ==> has_colored_bookmark(
                #[trigger] crate::database::other_step(st, e2).bookmarks,
                id0,
                c0,
            ),
        has_bookmark(st.bookmarks, id0) ==> has_bookmark(
            crate::database::other_step(st, e2).bookmarks,
            id0,
        ),
{
    let r = crate::database::other_step(st, e2);
    assert forall|c0: Seq<char>|
        has_colored_bookmark(st.bookmarks, id0, c0) implies has_colored_bookmark(
        r.bookmarks,
        id0,
        c0,
    ) by {
        let w = choose|k: int|
            0 <= k < st.bookmarks.len() && (#[trigger] st.bookmarks[k]).log_entry_id == id0
                && st.bookmarks[k].color == Option::Some(c0);
        assert(r.bookmarks[w] == st.bookmarks[w]);
    }
    if has_bookmark(st.bookmarks, id0) {
        let w = choose|k: int|
            0 <= k < st.bookmarks.len() && (#[trigger] st.bookmarks[k]).log_entry_id == id0;
        assert(r.bookmarks[w] == st.bookmarks[w]);
    }
}

proof fn lemma_run_upgrade_preserves(
    st: crate::database::SynthState,
    es: Seq<LogEntryV>,
    color: Seq<char>,
    fixed: Seq<char>,
    use_message: bool,
    id0: int,
    c0: Seq<char>,
)
    requires
        has_colored_bookmark(st.bookmarks, id0, c0),
        color == c0 || forall|j: int| 0 <= j < es.len() ==> eid(#[trigger] es[j]) != id0,
    ensures
        has_colored_bookmark(
            crate::database::run_steps(
                st,
                es,
                crate::database::upgrade_fn(color, fixed, use_message),
            ).bookmarks,
            id0,
            c0,
        ),
    decreases es.len(),
{
    if es.len() > 0 {
        let step = crate::database::upgrade_fn(color, fixed, use_message);
        let title = if use_message { es[0].message } else { fixed };
        lemma_upgrade_preserves_colored(st, es[0], color, title, id0, c0);
        let st1 = step(st, es[0]);
        assert(forall|j: int|
            0 <= j < es.drop_first().len() ==> es.drop_first()[j] == es[j + 1]);
        lemma_run_upgrade_preserves(st1, es.drop_first(), color, fixed, use_message, id0, c0);
    }
}

proof fn lemma_run_upgrade_gives(
    st: crate::database::SynthState,
    es: Seq<LogEntryV>,
    color: Seq<char>,
    fixed: Seq<char>,
    use_message: bool,
)
    ensures
        forall|j: int|
            0 <= j < es.len() ==> has_colored_bookmark(
                crate::database::run_steps(
                    st,
                    es,
                    crate::database::upgrade_fn(color, fixed, use_message),
                ).bookmarks,
                eid(#[trigger] es[j]),
                color,
            ),
    decreases es.len(),
{
    if es.len() > 0 {
        let step = crate::database::upgrade_fn(color, fixed, use_message);
        let title = if use_message { es[0].message } else { fixed };
        lemma_upgrade_gives_color(st, es[0], color, title);
        let st1 = step(st, es[0]);
        lemma_run_upgrade_preserves(st1, es.drop_first(), color, fixed, use_message, eid(es[0]), color);
        lemma_run_upgrade_gives(st1, es.drop_first(), color, fixed, use_message);
        assert forall|j: int|
            0 <= j < es.len() implies has_colored_bookmark(
            crate::database::run_steps(st, es, step).bookmarks,
            eid(#[trigger] es[j]),
            color,
        ) by {
            if j > 0 {
                assert(es.drop_first()[j - 1] == es[j]);
            }
        }
    }
}

proof fn lemma_run_other_preserves(
    st: crate::database::SynthState,
    es: Seq<LogEntryV>,
    id0: int,
)
    ensures
        forall|c0: Seq<char>|
            has_colored_bookmark(st.bookmarks, id0, c0) ==> has_colored_bookmark(
                #[trigger] crate::database::run_steps(
                    st,
                    es,
                    crate::database::other_step_fn(),
                ).bookmarks,
                id0,
                c0,
            ),
        has_bookmark(st.bookmarks, id0) ==> has_bookmark(
            crate::database::run_steps(st, es, crate::database::other_step_fn()).bookmarks,
            id0,
        ),
    decreases es.len(),
{
    if es.len() > 0 {
        lemma_other_preserves(st, es[0], id0);
        let st1 = crate::database::other_step_fn()(st, es[0]);
        lemma_run_other_preserves(st1, es.drop_first(), id0);
    }
}

proof fn lemma_other_gives_bookmark(st: crate::database::SynthState, e: LogEntryV)
    requires
        crate::bookmark_utils::auto_marker_title(e) is Some,
    ensures
        has_bookmark(crate::database::other_step(st, e).bookmarks, eid(e)),
{
    let r = crate::database::other_step(st, e);
    match crate::database::lookup_bookmark(st.bookmarks, eid(e)) {
        Option::Some(i) => {
            lemma_lookup_bookmark_sound(st.bookmarks, eid(e));
            assert(r.bookmarks[i].log_entry_id == eid(e));
        },
        Option::None => {
            let k = st.bookmarks.len() as int;
            assert(r.bookmarks[k].log_entry_id == eid(e));
        },
    }
}

proof fn lemma_run_other_gives(st: crate::database::SynthState, es: Seq<LogEntryV>)
    ensures
        forall|j: int|
            0 <= j < es.len() && crate::bookmark_utils::auto_marker_title(#[trigger] es[j])
                is Some ==> has_bookmark(
                crate::database::run_steps(st, es, crate::database::other_step_fn()).bookmarks,
                eid(es[j]),
            ),
    decreases es.len(),
{
    if es.len() > 0 {
        let step = crate::database::other_step_fn();
        let st1 = step(st, es[0]);
        if crate::bookmark_utils::auto_marker_title(es[0]) is Some {
            lemma_other_gives_bookmark(st, es[0]);
            lemma_run_other_preserves(st1, es.drop_first(), eid(es[0]));
        }
        lemma_run_other_gives(st1, es.drop_first());
        assert forall|j: int|
            0 <= j < es.len() && crate::bookmark_utils::auto_marker_title(#[trigger] es[j])
                is Some implies has_bookmark(
            crate::database::run_steps(st, es, step).bookmarks,
            eid(es[j]),
        ) by {
            if j > 0 {
                assert(es.drop_first()[j - 1] == es[j]);
            }
        }
    }
}

/// A pass list's elements are stored rows that satisfy the pass's
/// selection.
proof fn lemma_pass_list_elements(entries: Seq<LogEntryV>, mode: int, sid: Seq<char>, x: LogEntryV)
    requires
        crate::database::pass_list(entries, mode, sid).contains(x),
    ensures
        entries.contains(x),
        crate::database::pass_sel(mode, sid)(x),
{
    broadcast use vstd::seq_lib::group_to_multiset_ensures;

    let f = filter_seq(entries, crate::database::pass_sel(mode, sid));
    lemma_stable_sort_multiset(f, crate::database::ts_le_fn());
    assert(crate::database::pass_list(entries, mode, sid).to_multiset().count(x) > 0);
    assert(f.to_multiset().count(x) > 0);
    assert(f.contains(x));
    crate::filtering::lemma_filter_seq_contains(entries, crate::database::pass_sel(mode, sid), x);
}

/// Law: after one synthesizer run, every stored entry of the session
/// whose message ends with the failure suffix carries a red bookmark;
/// where none existed one titled `Failure` was created, and an existing
/// one of another color was upgraded in place.
pub proof fn lemma_failure_entries_red(db: DbView, sid: Seq<char>)
    requires
        forall|i: int| 0 <= i < db.entries.len() ==> (#[trigger] db.entries[i]).id is Some,
        forall|i: int, j: int|
            0 <= i < j < db.entries.len() ==> eid(#[trigger] db.entries[i]) != eid(
                #[trigger] db.entries[j],
            ),
    ensures
        forall|i: int|
            0 <= i < db.entries.len() && crate::database::fail_sel_fn(sid)(
                #[trigger] db.entries[i],
            ) ==> has_colored_bookmark(
                crate::database::auto_bookmarks_spec(db, sid).bookmarks,
                eid(db.entries[i]),
                "#F56C6C"@,
            ),
{
    broadcast use vstd::seq_lib::group_to_multiset_ensures;

    let st0 = crate::database::SynthState {
        bookmarks: db.bookmarks,
        next_id: db.next_bookmark_id,
        created: Seq::empty(),
    };
    let l1 = crate::database::pass_list(db.entries, 1, sid);
    let l2 = crate::database::pass_list(db.entries, 2, sid);
    let l3 = crate::database::pass_list(db.entries, 3, sid);
    let st1 = crate::database::run_steps(st0, l1, crate::database::fail_step_fn());
    let st2 = crate::database::run_steps(st1, l2, crate::database::step_step_fn());
    let st3 = crate::database::run_steps(st2, l3, crate::database::other_step_fn());
    assert forall|i: int|
        0 <= i < db.entries.len() && crate::database::fail_sel_fn(sid)(
            #[trigger] db.entries[i],
        ) implies has_colored_bookmark(st3.bookmarks, eid(db.entries[i]), "#F56C6C"@) by {
        let e = db.entries[i];
        // the entry is in the failure pass's list
        let f1 = filter_seq(db.entries, crate::database::pass_sel(1, sid));
        crate::filtering::lemma_filter_seq_contains(
            db.entries,
            crate::database::pass_sel(1, sid),
            e,
        );
        lemma_stable_sort_multiset(f1, crate::database::ts_le_fn());
        assert(f1.contains(e));
        assert(f1.to_multiset().count(e) > 0);
        assert(l1.to_multiset().count(e) > 0);
        assert(l1.contains(e));
        let j = choose|j: int| 0 <= j < l1.len() && l1[j] == e;
        // the failure pass paints it red
        lemma_run_upgrade_gives(st0, l1, "#F56C6C"@, "Failure"@, false);
        assert(has_colored_bookmark(st1.bookmarks, eid(e), "#F56C6C"@));
        // the step pass runs over other entries only
        assert forall|t: int| 0 <= t < l2.len() implies eid(#[trigger] l2[t]) != eid(e) by {
            lemma_pass_list_elements(db.entries, 2, sid, l2[t]);
            let u = choose|u: int| 0 <= u < db.entries.len() && db.entries[u] == l2[t];
            if u != i {
                if u < i {
                    assert(eid(db.entries[u]) != eid(db.entries[i]));
                } else {
                    assert(eid(db.entries[i]) != eid(db.entries[u]));
                }
            } else {
                assert(crate::text::ends_with(e.message, "[FAIL]"@));
                assert(!crate::text::ends_with(l2[t].message, "[FAIL]"@));
                assert(false);
            }
        }
        lemma_run_upgrade_preserves(
            st1,
            l2,
            "#00CED1"@,
            Seq::empty(),
            true,
            eid(e),
            "#F56C6C"@,
        );
        assert(has_colored_bookmark(st2.bookmarks, eid(e), "#F56C6C"@));
        // the plain pass never repaints
        lemma_run_other_preserves(st2, l3, eid(e));
    }
}

/// Law: after one synthesizer run, every marker-level step entry of the
/// session carries a turquoise bookmark — created, or upgraded in place
/// from another color.
pub proof fn lemma_step_entries_turquoise(db: DbView, sid: Seq<char>)
    ensures
        forall|i: int|
            0 <= i < db.entries.len() && crate::database::step_sel_fn(sid)(
                #[trigger] db.entries[i],
            ) ==> has_colored_bookmark(
                crate::database::auto_bookmarks_spec(db, sid).bookmarks,
                eid(db.entries[i]),
                "#00CED1"@,
            ),
{
    broadcast use vstd::seq_lib::group_to_multiset_ensures;

    let st0 = crate::database::SynthState {
        bookmarks: db.bookmarks,
        next_id: db.next_bookmark_id,
        created: Seq::empty(),
    };
    let l1 = crate::database::pass_list(db.entries, 1, sid);
    let l2 = crate::database::pass_list(db.entries, 2, sid);
    let l3 = crate::database::pass_list(db.entries, 3, sid);
    let st1 = crate::database::run_steps(st0, l1, crate::database::fail_step_fn());
    let st2 = crate::database::run_steps(st1, l2, crate::database::step_step_fn());
    assert forall|i: int|
        0 <= i < db.entries.len() && crate::database::step_sel_fn(sid)(
            #[trigger] db.entries[i],
        ) implies has_colored_bookmark(
        crate::database::auto_bookmarks_spec(db, sid).bookmarks,
        eid(db.entries[i]),
        "#00CED1"@,
    ) by {
        let e = db.entries[i];
        let f2 = filter_seq(db.entries, crate::database::pass_sel(2, sid));
        crate::filtering::lemma_filter_seq_contains(
            db.entries,
            crate::database::pass_sel(2, sid),
            e,
        );
        lemma_stable_sort_multiset(f2, crate::database::ts_le_fn());
        assert(f2.contains(e));
        assert(f2.to_multiset().count(e) > 0);
        assert(l2.to_multiset().count(e) > 0);
        assert(l2.contains(e));
        lemma_run_upgrade_gives(st1, l2, "#00CED1"@, Seq::empty(), true);
        assert(has_colored_bookmark(st2.bookmarks, eid(e), "#00CED1"@));
        lemma_run_other_preserves(st2, l3, eid(e));
    }
}

/// Law: after one synthesizer run, every plain anchor entry of the
/// session — one whose message carries a `###...###` anchor or whose
/// level is the marker token, outside the failure and step passes —
/// carries some bookmark.
pub proof fn lemma_anchor_entries_bookmarked(db: DbView, sid: Seq<char>)
    ensures
        forall|i: int|
            0 <= i < db.entries.len() && crate::database::other_sel_fn(sid)(
                #[trigger] db.entries[i],
            ) && crate::bookmark_utils::auto_marker_title(db.entries[i]) is Some
                ==> has_bookmark(
                crate::database::auto_bookmarks_spec(db, sid).bookmarks,
                eid(db.entries[i]),
            ),
{
    broadcast use vstd::seq_lib::group_to_multiset_ensures;

    let st0 = crate::database::SynthState {
        bookmarks: db.bookmarks,
        next_id: db.next_bookmark_id,
        created: Seq::empty(),
    };
    let l1 = crate::database::pass_list(db.entries, 1, sid);
    let l2 = crate::database::pass_list(db.entries, 2, sid);
    let l3 = crate::database::pass_list(db.entries, 3, sid);
    let st1 = crate::database::run_steps(st0, l1, crate::database::fail_step_fn());
    let st2 = crate::database::run_steps(st1, l2, crate::database::step_step_fn());
    assert forall|i: int|
        0 <= i < db.entries.len() && crate::database::other_sel_fn(sid)(
            #[trigger] db.entries[i],
        ) && crate::bookmark_utils::auto_marker_title(db.entries[i]) is Some implies has_bookmark(
        crate::database::auto_bookmarks_spec(db, sid).bookmarks,
        eid(db.entries[i]),
    ) by {
        let e = db.entries[i];
        let f3 = filter_seq(db.entries, crate::database::pass_sel(3, sid));
        crate::filtering::lemma_filter_seq_contains(
            db.entries,
            crate::database::pass_sel(3, sid),
            e,
        );
        lemma_stable_sort_multiset(f3, crate::database::ts_le_fn());
        assert(f3.contains(e));
        assert(f3.to_multiset().count(e) > 0);
        assert(l3.to_multiset().count(e) > 0);
        assert(l3.contains(e));
        lemma_run_other_gives(st2, l3);
        let j = choose|j: int| 0 <= j < l3.len() && l3[j] == e;
        assert(crate::bookmark_utils::auto_marker_title(l3[j]) is Some);
    }
}


// ------------------------------------------------------------------
// the synthesizer is idempotent
// ------------------------------------------------------------------

/// The bookmark the synthesizer reads on an entry: the first stored one.
pub open spec fn first_bookmark(
    bms: Seq<crate::log_parser::BookmarkV>,
    id: int,
) -> Option<crate::log_parser::BookmarkV> {
    match crate::database::lookup_bookmark(bms, id) {
        Option::Some(i) => Option::Some(bms[i]),
        Option::None => Option::None,
    }
}

proof fn lemma_lookup_same_ids(
    a: Seq<crate::log_parser::BookmarkV>,
    b: Seq<crate::log_parser::BookmarkV>,
    id: int,
)
    requires
        a.len() == b.len(),
        forall|k: int| 0 <= k < a.len() ==> (#[trigger] a[k]).log_entry_id == b[k].log_entry_id,
    ensures
        crate::database::lookup_bookmark(a, id) == crate::database::lookup_bookmark(b, id),
    decreases a.len(),
{
    if a.len() > 0 {
        let at = a.drop_first();
        let bt = b.drop_first();
        assert(forall|k: int|
            0 <= k < at.len() ==> (#[trigger] at[k]).log_entry_id == bt[k].log_entry_id) by {
            assert(forall|k: int|
                0 <= k < at.len() ==> at[k] == a[k + 1] && bt[k] == b[k + 1]);
        }
        lemma_lookup_same_ids(at, bt, id);
    }
}

proof fn lemma_lookup_push(
    bms: Seq<crate::log_parser::BookmarkV>,
    b: crate::log_parser::BookmarkV,
    id: int,
)
    ensures
        crate::database::lookup_bookmark(bms.push(b), id) == (
        match crate::database::lookup_bookmark(bms, id) {
            Option::Some(i) => Option::Some(i),
            Option::None => if b.log_entry_id == id {
                Option::Some(bms.len() as int)
            } else {
                Option::None::<int>
            },
        }),
    decreases bms.len(),
{
    if bms.len() == 0 {
        assert(bms.push(b)[0] == b);
        assert(bms.push(b).drop_first() =~= Seq::<crate::log_parser::BookmarkV>::empty());
        if b.log_entry_id != id {
            assert(crate::database::lookup_bookmark(
                Seq::<crate::log_parser::BookmarkV>::empty(),
                id,
            ) is None);
        }
    } else {
        assert(bms.push(b)[0] == bms[0]);
        assert(bms.push(b).drop_first() =~= bms.drop_first().push(b));
        lemma_lookup_push(bms.drop_first(), b, id);
        let tail = bms.drop_first();
        if bms[0].log_entry_id != id {
            match crate::database::lookup_bookmark(tail, id) {
                Option::Some(i) => {
                    assert(crate::database::lookup_bookmark(bms, id) == Option::Some(i + 1));
                    assert(crate::database::lookup_bookmark(tail.push(b), id) == Option::Some(i));
                    assert(crate::database::lookup_bookmark(bms.push(b), id) == Option::Some(
                        i + 1,
                    ));
                },
                Option::None => {
                    assert(crate::database::lookup_bookmark(bms, id) is None);
                    if b.log_entry_id == id {
                        assert(crate::database::lookup_bookmark(tail.push(b), id)
                            == Option::Some(tail.len() as int));
                        assert(crate::database::lookup_bookmark(bms.push(b), id) == Option::Some(
                            bms.len() as int,
                        ));
                    } else {
                        assert(crate::database::lookup_bookmark(tail.push(b), id) is None);
                        assert(crate::database::lookup_bookmark(bms.push(b), id) is None);
                    }
                },
            }
        } else {
            assert(crate::database::lookup_bookmark(bms, id) == Option::Some(0int));
            assert(crate::database::lookup_bookmark(bms.push(b), id) == Option::Some(0int));
        }
    }
}

proof fn lemma_upgrade_first_color(
    st: crate::database::SynthState,
    e: LogEntryV,
    color: Seq<char>,
    title: Seq<char>,
)
    ensures
        ({
            let r = crate::database::upgrade_step(st, e, color, title);
            let lk = crate::database::lookup_bookmark(r.bookmarks, eid(e));
            lk is Some && r.bookmarks[lk->0].color == Option::Some(color)
        }),
{
    let r = crate::database::upgrade_step(st, e, color, title);
    match crate::database::lookup_bookmark(st.bookmarks, eid(e)) {
        Option::Some(i) => {
            lemma_lookup_bookmark_sound(st.bookmarks, eid(e));
            if st.bookmarks[i].color != Option::Some(color) {
                assert(forall|k: int|
                    0 <= k < st.bookmarks.len() ==> (#[trigger] r.bookmarks[k]).log_entry_id
                        == st.bookmarks[k].log_entry_id);
                lemma_lookup_same_ids(r.bookmarks, st.bookmarks, eid(e));
            }
        },
        Option::None => {
            lemma_lookup_push(st.bookmarks, r.bookmarks.last(), eid(e));
        },
    }
}

proof fn lemma_upgrade_preserves_first(
    st: crate::database::SynthState,
    e2: LogEntryV,
    c2: Seq<char>,
    t2: Seq<char>,
    id0: int,
)
    requires
        eid(e2) != id0,
    ensures
        first_bookmark(
            crate::database::upgrade_step(st, e2, c2, t2).bookmarks,
            id0,
        ) == first_bookmark(st.bookmarks, id0),
{
    let r = crate::database::upgrade_step(st, e2, c2, t2);
    match crate::database::lookup_bookmark(st.bookmarks, eid(e2)) {
        Option::Some(i) => {
            lemma_lookup_bookmark_sound(st.bookmarks, eid(e2));
            if st.bookmarks[i].color != Option::Some(c2) {
                assert(forall|k: int|
                    0 <= k < st.bookmarks.len() ==> (#[trigger] r.bookmarks[k]).log_entry_id
                        == st.bookmarks[k].log_entry_id);
                lemma_lookup_same_ids(r.bookmarks, st.bookmarks, id0);
                match crate::database::lookup_bookmark(st.bookmarks, id0) {
                    Option::Some(j) => {
                        lemma_lookup_bookmark_sound(st.bookmarks, id0);
                        assert(j != i);
                        assert(r.bookmarks[j] == st.bookmarks[j]);
                    },
                    Option::None => {},
                }
            }
        },
        Option::None => {
            lemma_lookup_push(st.bookmarks, r.bookmarks.last(), id0);
            match crate::database::lookup_bookmark(st.bookmarks, id0) {
                Option::Some(j) => {
                    lemma_lookup_bookmark_sound(st.bookmarks, id0);
                    assert(r.bookmarks[j] == st.bookmarks[j]);
                },
                Option::None => {},
            }
        },
    }
}

proof fn lemma_other_preserves_first(st: crate::database::SynthState, e2: LogEntryV, id0: int)
    requires
        eid(e2) != id0,
    ensures
        first_bookmark(crate::database::other_step(st, e2).bookmarks, id0) == first_bookmark(
            st.bookmarks,
            id0,
        ),
{
    let r = crate::database::other_step(st, e2);
    match crate::database::lookup_bookmark(st.bookmarks, eid(e2)) {
        Option::Some(_) => {},
        Option::None => match crate::bookmark_utils::auto_marker_title(e2) {
            Option::Some(_) => {
                lemma_lookup_push(st.bookmarks, r.bookmarks.last(), id0);
                match crate::database::lookup_bookmark(st.bookmarks, id0) {
                    Option::Some(j) => {
                        lemma_lookup_bookmark_sound(st.bookmarks, id0);
                        assert(r.bookmarks[j] == st.bookmarks[j]);
                    },
                    Option::None => {},
                }
            },
            Option::None => {},
        },
    }
}

proof fn lemma_other_first_some(st: crate::database::SynthState, e: LogEntryV)
    requires
        crate::bookmark_utils::auto_marker_title(e) is Some || crate::database::lookup_bookmark(
            st.bookmarks,
            eid(e),
        ) is Some,
    ensures
        crate::database::lookup_bookmark(
            crate::database::other_step(st, e).bookmarks,
            eid(e),
        ) is Some,
{
    let r = crate::database::other_step(st, e);
    match crate::database::lookup_bookmark(st.bookmarks, eid(e)) {
        Option::Some(_) => {},
        Option::None => {
            lemma_lookup_push(st.bookmarks, r.bookmarks.last(), eid(e));
        },
    }
}

proof fn lemma_other_preserves_some(st: crate::database::SynthState, e2: LogEntryV, id0: int)
    requires
        crate::database::lookup_bookmark(st.bookmarks, id0) is Some,
    ensures
        crate::database::lookup_bookmark(
            crate::database::other_step(st, e2).bookmarks,
            id0,
        ) is Some,
{
    let r = crate::database::other_step(st, e2);
    match crate::database::lookup_bookmark(st.bookmarks, eid(e2)) {
        Option::Some(_) => {},
        Option::None => match crate::bookmark_utils::auto_marker_title(e2) {
            Option::Some(_) => {
                lemma_lookup_push(st.bookmarks, r.bookmarks.last(), id0);
            },
            Option::None => {},
        },
    }
}

proof fn lemma_run_upgrade_first(
    st: crate::database::SynthState,
    es: Seq<LogEntryV>,
    color: Seq<char>,
    fixed: Seq<char>,
    use_message: bool,
)
    requires
        forall|j: int, k: int|
            0 <= j < k < es.len() ==> eid(#[trigger] es[j]) != eid(#[trigger] es[k]),
    ensures
        forall|j: int|
            0 <= j < es.len() ==> ({
                let r = crate::database::run_steps(
                    st,
                    es,
                    crate::database::upgrade_fn(color, fixed, use_message),
                );
                let lk = crate::database::lookup_bookmark(r.bookmarks, eid(#[trigger] es[j]));
                lk is Some && r.bookmarks[lk->0].color == Option::Some(color)
            }),
    decreases es.len(),
{
    if es.len() > 0 {
        let step = crate::database::upgrade_fn(color, fixed, use_message);
        let title = if use_message { es[0].message } else { fixed };
        lemma_upgrade_first_color(st, es[0], color, title);
        let st1 = step(st, es[0]);
        let tail = es.drop_first();
        assert(forall|j: int, k: int|
            0 <= j < k < tail.len() ==> eid(#[trigger] tail[j]) != eid(#[trigger] tail[k])) by {
            assert(forall|j: int| 0 <= j < tail.len() ==> tail[j] == es[j + 1]);
        }
        lemma_run_upgrade_first(st1, tail, color, fixed, use_message);
        lemma_run_upgrade_keeps_first(st1, tail, color, fixed, use_message, eid(es[0]));
        assert forall|j: int|
            0 <= j < es.len() implies ({
            let r = crate::database::run_steps(st, es, step);
            let lk = crate::database::lookup_bookmark(r.bookmarks, eid(#[trigger] es[j]));
            lk is Some && r.bookmarks[lk->0].color == Option::Some(color)
        }) by {
            if j > 0 {
                assert(tail[j - 1] == es[j]);
            } else {
                assert(forall|k: int| 0 <= k < tail.len() ==> eid(#[trigger] tail[k]) != eid(
                    es[0],
                )) by {
                    assert(forall|k: int| 0 <= k < tail.len() ==> tail[k] == es[k + 1]);
                }
            }
        }
    }
}

proof fn lemma_run_upgrade_keeps_first(
    st: crate::database::SynthState,
    es: Seq<LogEntryV>,
    color: Seq<char>,
    fixed: Seq<char>,
    use_message: bool,
    id0: int,
)
    requires
        forall|j: int| 0 <= j < es.len() ==> eid(#[trigger] es[j]) != id0,
    ensures
        first_bookmark(
            crate::database::run_steps(
                st,
                es,
                crate::database::upgrade_fn(color, fixed, use_message),
            ).bookmarks,
            id0,
        ) == first_bookmark(st.bookmarks, id0),
    decreases es.len(),
{
    if es.len() > 0 {
        let step = crate::database::upgrade_fn(color, fixed, use_message);
        let title = if use_message { es[0].message } else { fixed };
        lemma_upgrade_preserves_first(st, es[0], color, title, id0);
        let st1 = step(st, es[0]);
        let tail = es.drop_first();
        assert(forall|j: int| 0 <= j < tail.len() ==> eid(#[trigger] tail[j]) != id0) by {
            assert(forall|j: int| 0 <= j < tail.len() ==> tail[j] == es[j + 1]);
        }
        lemma_run_upgrade_keeps_first(st1, tail, color, fixed, use_message, id0);
    }
}

proof fn lemma_run_other_keeps_first(
    st: crate::database::SynthState,
    es: Seq<LogEntryV>,
    id0: int,
)
    requires
        forall|j: int| 0 <= j < es.len() ==> eid(#[trigger] es[j]) != id0,
    ensures
        first_bookmark(
            crate::database::run_steps(st, es, crate::database::other_step_fn()).bookmarks,
            id0,
        ) == first_bookmark(st.bookmarks, id0),
    decreases es.len(),
{
    if es.len() > 0 {
        lemma_other_preserves_first(st, es[0], id0);
        let st1 = crate::database::other_step_fn()(st, es[0]);
        let tail = es.drop_first();
        assert(forall|j: int| 0 <= j < tail.len() ==> eid(#[trigger] tail[j]) != id0) by {
            assert(forall|j: int| 0 <= j < tail.len() ==> tail[j] == es[j + 1]);
        }
        lemma_run_other_keeps_first(st1, tail, id0);
    }
}

proof fn lemma_run_other_keeps_some(
    st: crate::database::SynthState,
    es: Seq<LogEntryV>,
    id0: int,
)
    requires
        crate::database::lookup_bookmark(st.bookmarks, id0) is Some,
    ensures
        crate::database::lookup_bookmark(
            crate::database::run_steps(st, es, crate::database::other_step_fn()).bookmarks,
            id0,
        ) is Some,
    decreases es.len(),
{
    if es.len() > 0 {
        lemma_other_preserves_some(st, es[0], id0);
        lemma_run_other_keeps_some(
            crate::database::other_step_fn()(st, es[0]),
            es.drop_first(),
            id0,
        );
    }
}

proof fn lemma_run_other_some(st: crate::database::SynthState, es: Seq<LogEntryV>)
    ensures
        forall|j: int|
            0 <= j < es.len() && crate::bookmark_utils::auto_marker_title(#[trigger] es[j])
                is Some ==> crate::database::lookup_bookmark(
                crate::database::run_steps(st, es, crate::database::other_step_fn()).bookmarks,
                eid(es[j]),
            ) is Some,
    decreases es.len(),
{
    if es.len() > 0 {
        let step = crate::database::other_step_fn();
        let st1 = step(st, es[0]);
        if crate::bookmark_utils::auto_marker_title(es[0]) is Some {
            lemma_other_first_some(st, es[0]);
            lemma_run_other_keeps_some(st1, es.drop_first(), eid(es[0]));
        }
        lemma_run_other_some(st1, es.drop_first());
        assert forall|j: int|
            0 <= j < es.len() && crate::bookmark_utils::auto_marker_title(#[trigger] es[j])
                is Some implies crate::database::lookup_bookmark(
            crate::database::run_steps(st, es, step).bookmarks,
            eid(es[j]),
        ) is Some by {
            if j > 0 {
                assert(es.drop_first()[j - 1] == es[j]);
            }
        }
    }
}

proof fn lemma_run_upgrade_identity(
    st: crate::database::SynthState,
    es: Seq<LogEntryV>,
    color: Seq<char>,
    fixed: Seq<char>,
    use_message: bool,
)
    requires
        forall|j: int|
            0 <= j < es.len() ==> ({
                let lk = crate::database::lookup_bookmark(st.bookmarks, eid(#[trigger] es[j]));
                lk is Some && st.bookmarks[lk->0].color == Option::Some(color)
            }),
    ensures
        crate::database::run_steps(
            st,
            es,
            crate::database::upgrade_fn(color, fixed, use_message),
        ) == st,
    decreases es.len(),
{
    if es.len() > 0 {
        let step = crate::database::upgrade_fn(color, fixed, use_message);
        assert(step(st, es[0]) == st);
        let tail = es.drop_first();
        assert(forall|j: int| 0 <= j < tail.len() ==> tail[j] == es[j + 1]);
        lemma_run_upgrade_identity(st, tail, color, fixed, use_message);
    }
}

proof fn lemma_run_other_identity(st: crate::database::SynthState, es: Seq<LogEntryV>)
    requires
        forall|j: int|
            0 <= j < es.len() ==> (crate::database::lookup_bookmark(
                st.bookmarks,
                eid(#[trigger] es[j]),
            ) is Some || crate::bookmark_utils::auto_marker_title(es[j]) is None),
    ensures
        crate::database::run_steps(st, es, crate::database::other_step_fn()) == st,
    decreases es.len(),
{
    if es.len() > 0 {
        assert(crate::database::other_step_fn()(st, es[0]) == st);
        let tail = es.drop_first();
        assert(forall|j: int| 0 <= j < tail.len() ==> tail[j] == es[j + 1]);
        lemma_run_other_identity(st, tail);
    }
}

/// A pass list names no entry twice.
proof fn lemma_pass_list_distinct(entries: Seq<LogEntryV>, mode: int, sid: Seq<char>)
    requires
        forall|i: int| 0 <= i < entries.len() ==> (#[trigger] entries[i]).id is Some,
        forall|i: int, j: int|
            0 <= i < j < entries.len() ==> eid(#[trigger] entries[i]) != eid(
                #[trigger] entries[j],
            ),
    ensures
        ({
            let l = crate::database::pass_list(entries, mode, sid);
            forall|j: int, k: int| 0 <= j < k < l.len() ==> eid(#[trigger] l[j]) != eid(
                #[trigger] l[k],
            )
        }),
{
    broadcast use vstd::seq_lib::group_to_multiset_ensures;

    let p = crate::database::pass_sel(mode, sid);
    let f = filter_seq(entries, p);
    let l = crate::database::pass_list(entries, mode, sid);
    lemma_stable_sort_multiset(f, crate::database::ts_le_fn());
    assert(forall|i: int, j: int|
        0 <= i < j < entries.len() ==> entries[i] != entries[j]);
    let nefn = |a: LogEntryV, b: LogEntryV| a != b;
    assert(sorted_by(entries, nefn)) by {
        assert(forall|i: int, j: int|
            0 <= i < j < entries.len() ==> nefn(#[trigger] entries[i], #[trigger] entries[j]));
    }
    crate::filtering::lemma_filter_preserves_sorted_by(entries, p, nefn);
    assert(forall|i: int, j: int| 0 <= i < j < f.len() ==> f[i] != f[j]) by {
        assert(forall|i: int, j: int|
            0 <= i < j < f.len() ==> nefn(#[trigger] f[i], #[trigger] f[j]));
    }
    assert forall|j: int, k: int| 0 <= j < k < l.len() implies eid(#[trigger] l[j]) != eid(
        #[trigger] l[k],
    ) by {
        if l[j] == l[k] {
            lemma_distinct_count(f, l[j]);
            lemma_two_positions_count(l, j, k);
        } else {
            assert(l.to_multiset().count(l[j]) > 0);
            assert(f.contains(l[j]));
            assert(l.to_multiset().count(l[k]) > 0);
            assert(f.contains(l[k]));
            crate::filtering::lemma_filter_seq_contains(entries, p, l[j]);
            crate::filtering::lemma_filter_seq_contains(entries, p, l[k]);
            let u = choose|u: int| 0 <= u < entries.len() && entries[u] == l[j];
            let v = choose|v: int| 0 <= v < entries.len() && entries[v] == l[k];
            if u != v {
                if u < v {
                    assert(eid(entries[u]) != eid(entries[v]));
                } else {
                    assert(eid(entries[v]) != eid(entries[u]));
                }
            }
        }
    }
}

/// Entries of two different passes are different entries with different
/// ids: the selections exclude one another.
proof fn lemma_pass_lists_disjoint(
    entries: Seq<LogEntryV>,
    sid: Seq<char>,
    m1: int,
    m2: int,
)
    requires
        1 <= m1 <= 3,
        1 <= m2 <= 3,
        m1 != m2,
        forall|i: int| 0 <= i < entries.len() ==> (#[trigger] entries[i]).id is Some,
        forall|i: int, j: int|
            0 <= i < j < entries.len() ==> eid(#[trigger] entries[i]) != eid(
                #[trigger] entries[j],
            ),
    ensures
        ({
            let a = crate::database::pass_list(entries, m1, sid);
            let b = crate::database::pass_list(entries, m2, sid);
            forall|j: int, k: int|
                0 <= j < a.len() && 0 <= k < b.len() ==> eid(#[trigger] a[j]) != eid(
                    #[trigger] b[k],
                )
        }),
{
    broadcast use vstd::seq_lib::group_to_multiset_ensures;

    let a = crate::database::pass_list(entries, m1, sid);
    let b = crate::database::pass_list(entries, m2, sid);
    assert forall|j: int, k: int|
        0 <= j < a.len() && 0 <= k < b.len() implies eid(#[trigger] a[j]) != eid(
        #[trigger] b[k],
    ) by {
        lemma_pass_list_elements(entries, m1, sid, a[j]);
        lemma_pass_list_elements(entries, m2, sid, b[k]);
        assert(a[j] != b[k]);
        let u = choose|u: int| 0 <= u < entries.len() && entries[u] == a[j];
        let v = choose|v: int| 0 <= v < entries.len() && entries[v] == b[k];
        if u != v {
            if u < v {
                assert(eid(entries[u]) != eid(entries[v]));
            } else {
                assert(eid(entries[v]) != eid(entries[u]));
            }
        }
    }
}

/// Law: the synthesizer is idempotent — a second run over the store it
/// left behind changes no bookmark, spends no id, and reports nothing
/// created or upgraded.
pub proof fn lemma_synthesizer_idempotent(db: DbView, sid: Seq<char>)
    requires
        forall|i: int| 0 <= i < db.entries.len() ==> (#[trigger] db.entries[i]).id is Some,
        forall|i: int, j: int|
            0 <= i < j < db.entries.len() ==> eid(#[trigger] db.entries[i]) != eid(
                #[trigger] db.entries[j],
            ),
    ensures
        ({
            let st = crate::database::auto_bookmarks_spec(db, sid);
            let db2 = DbView {
                bookmarks: st.bookmarks,
                next_bookmark_id: st.next_id,
                ..db
            };
            let st2 = crate::database::auto_bookmarks_spec(db2, sid);
            st2.bookmarks == st.bookmarks && st2.next_id == st.next_id && st2.created
                == Seq::<crate::log_parser::BookmarkV>::empty()
        }),
{
    let st0 = crate::database::SynthState {
        bookmarks: db.bookmarks,
        next_id: db.next_bookmark_id,
        created: Seq::empty(),
    };
    let l1 = crate::database::pass_list(db.entries, 1, sid);
    let l2 = crate::database::pass_list(db.entries, 2, sid);
    let l3 = crate::database::pass_list(db.entries, 3, sid);
    let st1 = crate::database::run_steps(st0, l1, crate::database::fail_step_fn());
    let st2 = crate::database::run_steps(st1, l2, crate::database::step_step_fn());
    let st3 = crate::database::run_steps(st2, l3, crate::database::other_step_fn());
    lemma_pass_list_distinct(db.entries, 1, sid);
    lemma_pass_list_distinct(db.entries, 2, sid);
    lemma_pass_list_distinct(db.entries, 3, sid);
    lemma_pass_lists_disjoint(db.entries, sid, 2, 1);
    lemma_pass_lists_disjoint(db.entries, sid, 3, 1);
    lemma_pass_lists_disjoint(db.entries, sid, 3, 2);

    // after the run, every failure entry's first bookmark is red ...
    lemma_run_upgrade_first(st0, l1, "#F56C6C"@, "Failure"@, false);
    assert forall|j: int|
        0 <= j < l1.len() implies ({
        let lk = crate::database::lookup_bookmark(st3.bookmarks, eid(#[trigger] l1[j]));
        lk is Some && st3.bookmarks[lk->0].color == Option::Some("#F56C6C"@)
    }) by {
        assert(forall|k: int| 0 <= k < l2.len() ==> eid(#[trigger] l2[k]) != eid(l1[j]));
        lemma_run_upgrade_keeps_first(st1, l2, "#00CED1"@, Seq::empty(), true, eid(l1[j]));
        assert(forall|k: int| 0 <= k < l3.len() ==> eid(#[trigger] l3[k]) != eid(l1[j]));
        lemma_run_other_keeps_first(st2, l3, eid(l1[j]));
        assert(first_bookmark(st3.bookmarks, eid(l1[j])) == first_bookmark(
            st1.bookmarks,
            eid(l1[j]),
        ));
    }
    // ... every step entry's first bookmark is turquoise ...
    lemma_run_upgrade_first(st1, l2, "#00CED1"@, Seq::empty(), true);
    assert forall|j: int|
        0 <= j < l2.len() implies ({
        let lk = crate::database::lookup_bookmark(st3.bookmarks, eid(#[trigger] l2[j]));
        lk is Some && st3.bookmarks[lk->0].color == Option::Some("#00CED1"@)
    }) by {
        assert(forall|k: int| 0 <= k < l3.len() ==> eid(#[trigger] l3[k]) != eid(l2[j]));
        lemma_run_other_keeps_first(st2, l3, eid(l2[j]));
        assert(first_bookmark(st3.bookmarks, eid(l2[j])) == first_bookmark(
            st2.bookmarks,
            eid(l2[j]),
        ));
    }
    // ... and every titled anchor entry has one.
    lemma_run_other_some(st2, l3);

    // a second run finds all of that and leaves everything alone
    let st0b = crate::database::SynthState {
        bookmarks: st3.bookmarks,
        next_id: st3.next_id,
        created: Seq::empty(),
    };
    lemma_run_upgrade_identity(st0b, l1, "#F56C6C"@, "Failure"@, false);
    lemma_run_upgrade_identity(st0b, l2, "#00CED1"@, Seq::empty(), true);
    assert(forall|j: int|
        0 <= j < l3.len() ==> (crate::database::lookup_bookmark(
            st0b.bookmarks,
            eid(#[trigger] l3[j]),
        ) is Some || crate::bookmark_utils::auto_marker_title(l3[j]) is None));
    lemma_run_other_identity(st0b, l3);
}

} // verus!
