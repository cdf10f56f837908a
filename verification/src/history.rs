//! The source-history list: a bar-separated line of recent log sources,
//! newest first, at most ten entries, without duplicates.

use vstd::prelude::*;

use crate::filtering::filter_seq;
use crate::text::{str_eq, trim_spec, trim_str};

verus! {

/// One step of splitting on the separator: a bar opens a new piece, any
/// other character extends the last one.
pub open spec fn split_push(acc: Seq<Seq<char>>, c: char) -> Seq<Seq<char>>
    recommends
        acc.len() > 0,
{
    if c == '|' {
        acc.push(Seq::empty())
    } else {
        acc.update(acc.len() - 1, acc.last().push(c))
    }
}

/// The pieces of a line split on bars; an empty line is one empty piece.
pub open spec fn split_bar(s: Seq<char>) -> Seq<Seq<char>>
    decreases s.len(),
{
    if s.len() == 0 {
        seq![Seq::<char>::empty()]
    } else {
        split_push(split_bar(s.drop_last()), s.last())
    }
}

proof fn lemma_split_bar_nonempty(s: Seq<char>)
    ensures
        split_bar(s).len() > 0,
    decreases s.len(),
{
    if s.len() > 0 {
        lemma_split_bar_nonempty(s.drop_last());
    }
}

/// The pieces, trimmed.
pub open spec fn trimmed_pieces(s: Seq<char>) -> Seq<Seq<char>> {
    split_bar(s).map_values(|p: Seq<char>| trim_spec(p))
}

/// Keeps the non-empty pieces.
pub open spec fn nonempty_fn() -> spec_fn(Seq<char>) -> bool {
    |p: Seq<char>| p.len() > 0
}

/// What a stored history line holds: its bar-separated pieces, trimmed,
/// with the empty ones dropped.
pub open spec fn parse_history_spec(s: Seq<char>) -> Seq<Seq<char>> {
    filter_seq(trimmed_pieces(s), nonempty_fn())
}

/// Parses a stored history line, exactly `parse_history_spec`.
pub fn parse_history(content: &str) -> (r: Vec<String>)
    ensures
        r@.map_values(|x: String| x@) == parse_history_spec(content@),
{
    let len = content.unicode_len();
    let mut pieces: Vec<String> = Vec::new();
    pieces.push(String::new());
    let mut i: usize = 0;
    proof {
        assert(content@.take(0) =~= Seq::<char>::empty());
        assert(pieces@.map_values(|x: String| x@) =~= split_bar(content@.take(0)));
    }
    while i < len
        invariant
            i <= len,
            len == content@.len(),
            pieces@.len() > 0,
            pieces@.map_values(|x: String| x@) == split_bar(content@.take(i as int)),
        decreases len - i,
    {
        proof {
            assert(content@.take(i + 1).drop_last() =~= content@.take(i as int));
            assert(content@.take(i + 1).last() == content@[i as int]);
        }
        let c = content.get_char(i);
        if c == '|' {
            let ghost p0 = pieces@;
            pieces.push(String::new());
            proof {
                assert(pieces@.map_values(|x: String| x@) =~= p0.map_values(
                    |x: String| x@,
                ).push(Seq::<char>::empty()));
            }
        } else {
            let ghost p0 = pieces@;
            let n = pieces.len();
            let mut lastp = pieces.remove(n - 1);
            let piece = content.substring_char(i, i + 1);
            lastp.append(piece);
            pieces.insert(n - 1, lastp);
            proof {
                p0.remove_ensures(n - 1);
                p0.remove(n - 1 as int).insert_ensures(n - 1, pieces@[n - 1]);
                assert(pieces@[n - 1]@ =~= p0[n - 1]@.push(content@[i as int]));
                let target = p0.map_values(|x: String| x@).update(
                    n - 1,
                    p0.map_values(|x: String| x@).last().push(content@[i as int]),
                );
                assert forall|t: int|
                    0 <= t < pieces@.len() implies pieces@.map_values(|x: String| x@)[t]
                    == target[t] by {
                    if t < n - 1 {
                        assert(p0.remove(n - 1 as int)[t] == p0[t]);
                        assert(pieces@[t] == p0.remove(n - 1 as int)[t]);
                    }
                }
                assert(pieces@.map_values(|x: String| x@) =~= target);
            }
        }
        i = i + 1;
    }
    proof {
        assert(content@.take(len as int) =~= content@);
    }
    // trim the pieces and keep the non-empty ones
    let ghost tp = trimmed_pieces(content@);
    let ghost pv = pieces@.map_values(|x: String| x@);
    let mut out: Vec<String> = Vec::new();
    let mut k: usize = 0;
    proof {
        assert(tp.skip(0) =~= tp);
        assert(out@.map_values(|x: String| x@) + filter_seq(tp.skip(0), nonempty_fn())
            =~= filter_seq(tp, nonempty_fn()));
    }
    while k < pieces.len()
        invariant
            k <= pieces.len(),
            pv == pieces@.map_values(|x: String| x@),
            tp == trimmed_pieces(content@),
            tp == pv.map_values(|p: Seq<char>| trim_spec(p)),
            filter_seq(tp, nonempty_fn()) == out@.map_values(|x: String| x@) + filter_seq(
                tp.skip(k as int),
                nonempty_fn(),
            ),
        decreases pieces.len() - k,
    {
        let ghost rest = tp.skip(k as int);
        proof {
            assert(rest[0] == tp[k as int]);
            assert(rest.drop_first() =~= tp.skip(k + 1));
            assert(tp[k as int] == trim_spec(pv[k as int]));
        }
        let t = trim_str(pieces[k].as_str());
        if t.as_str().unicode_len() > 0 {
            let ghost o0 = out@;
            out.push(t);
            proof {
                assert(out@.map_values(|x: String| x@) =~= o0.map_values(|x: String| x@).push(
                    tp[k as int],
                ));
                assert(out@.map_values(|x: String| x@) + filter_seq(
                    tp.skip(k + 1),
                    nonempty_fn(),
                ) =~= o0.map_values(|x: String| x@) + (seq![tp[k as int]] + filter_seq(
                    tp.skip(k + 1),
                    nonempty_fn(),
                )));
            }
        } else {
            proof {
                assert(!nonempty_fn()(tp[k as int]));
            }
        }
        k = k + 1;
    }
    proof {
        assert(tp.skip(tp.len() as int) =~= Seq::<Seq<char>>::empty());
        assert(out@.map_values(|x: String| x@) + Seq::<Seq<char>>::empty() =~= out@.map_values(
            |x: String| x@,
        ));
    }
    out
}

/// Keeps the entries that differ from the new one.
pub open spec fn keep_not_fn(e: Seq<char>) -> spec_fn(Seq<char>) -> bool {
    |x: Seq<char>| x != e
}

/// The history after one entry is recorded: the entry first, the rest
/// with its duplicates removed, cut to ten.
pub open spec fn updated_history(h: Seq<Seq<char>>, e: Seq<char>) -> Seq<Seq<char>> {
    let kept = seq![e] + filter_seq(h, keep_not_fn(e));
    if kept.len() > 10 {
        kept.take(10)
    } else {
        kept
    }
}

/// Records one entry, exactly `updated_history`.
pub fn update_history(history: &Vec<String>, entry: String) -> (r: Vec<String>)
    ensures
        r@.map_values(|x: String| x@) == updated_history(
            history@.map_values(|x: String| x@),
            entry@,
        ),
{
    let ghost hv = history@.map_values(|x: String| x@);
    let ghost p = keep_not_fn(entry@);
    let mut kept: Vec<String> = Vec::new();
    let ghost ev = entry@;
    kept.push(entry);
    let mut k: usize = 0;
    proof {
        assert(hv.skip(0) =~= hv);
        assert(kept@.map_values(|x: String| x@) =~= seq![ev]);
        assert(kept@.map_values(|x: String| x@) + filter_seq(hv.skip(0), p) =~= seq![ev]
            + filter_seq(hv, p));
    }
    while k < history.len()
        invariant
            k <= history.len(),
            hv == history@.map_values(|x: String| x@),
            p == keep_not_fn(ev),
            kept@.len() > 0,
            kept@[0]@ == ev,
            seq![ev] + filter_seq(hv, p) == kept@.map_values(|x: String| x@) + filter_seq(
                hv.skip(k as int),
                p,
            ),
        decreases history.len() - k,
    {
        let ghost rest = hv.skip(k as int);
        proof {
            assert(rest[0] == hv[k as int]);
            assert(rest.drop_first() =~= hv.skip(k + 1));
        }
        let x = &history[k];
        if !crate::text::str_eq(x.as_str(), kept[0].as_str()) {
            let ghost o0 = kept@;
            kept.push(x.clone());
            proof {
                assert(kept@.map_values(|y: String| y@) =~= o0.map_values(|y: String| y@).push(
                    hv[k as int],
                ));
                assert(kept@.map_values(|y: String| y@) + filter_seq(hv.skip(k + 1), p) =~= o0
                    .map_values(|y: String| y@) + (seq![hv[k as int]] + filter_seq(
                    hv.skip(k + 1),
                    p,
                )));
            }
        } else {
            proof {
                assert(!p(hv[k as int]));
            }
        }
        k = k + 1;
    }
    proof {
        assert(hv.skip(hv.len() as int) =~= Seq::<Seq<char>>::empty());
        assert(filter_seq(hv.skip(hv.len() as int), p) =~= Seq::<Seq<char>>::empty());
        assert(kept@.map_values(|x: String| x@) + Seq::<Seq<char>>::empty() =~= kept@.map_values(
            |x: String| x@,
        ));
        assert(kept@.map_values(|x: String| x@) == seq![ev] + filter_seq(hv, p));
    }
    let mut out = kept;
    proof {
        let full = seq![ev] + filter_seq(hv, p);
        assert(out@.map_values(|x: String| x@) =~= full);
        assert(out@.len() == full.len());
    }
    while out.len() > 10
        invariant
            ({
                let full = seq![ev] + filter_seq(hv, p);
                &&& out@.map_values(|x: String| x@) == (if full.len() > out@.len() {
                    full.take(out@.len() as int)
                } else {
                    full
                })
                &&& (full.len() > 10 ==> out@.len() >= 10)
                &&& (full.len() <= 10 ==> out@.len() == full.len())
            }),
        decreases out.len(),
    {
        let ghost o0 = out@;
        out.pop();
        proof {
            assert(out@.map_values(|x: String| x@) =~= o0.map_values(|x: String| x@).take(
                o0.len() - 1,
            ));
            let full = seq![ev] + filter_seq(hv, p);
            if full.len() > o0.len() {
                assert(full.take(o0.len() as int).take(o0.len() - 1) =~= full.take(o0.len() - 1));
            } else {
                assert(full.take(full.len() as int) =~= full);
                assert(full.take(o0.len() - 1) =~= full.take(o0.len() - 1));
            }
        }
    }
    proof {
        let full = seq![ev] + filter_seq(hv, p);
        if full.len() > 10 {
            assert(out@.len() == 10);
            assert(out@.map_values(|x: String| x@) == full.take(10));
        } else {
            assert(out@.map_values(|x: String| x@) == full);
        }
        assert(out@.map_values(|x: String| x@) == updated_history(hv, ev));
    }
    out
}

/// The bar-separated line a history list is stored as.
pub open spec fn join_bar(h: Seq<Seq<char>>) -> Seq<char>
    decreases h.len(),
{
    if h.len() == 0 {
        Seq::empty()
    } else if h.len() == 1 {
        h[0]
    } else {
        h[0] + "|"@ + join_bar(h.drop_first())
    }
}

/// Joins a history list with bars, exactly `join_bar`.
pub fn join_history(history: &Vec<String>) -> (r: String)
    ensures
        r@ == join_bar(history@.map_values(|x: String| x@)),
{
    proof {
        reveal_strlit("|");
    }
    let ghost hv = history@.map_values(|x: String| x@);
    if history.len() == 0 {
        let r = String::new();
        proof {
            assert(r@ =~= join_bar(hv));
        }
        return r;
    }
    let mut r = history[0].clone();
    let mut k: usize = 1;
    proof {
        lemma_join_tail(hv, 0);
        assert(hv.skip(0) =~= hv);
    }
    while k < history.len()
        invariant
            1 <= k <= history.len(),
            history.len() > 0,
            hv == history@.map_values(|x: String| x@),
            r@ + tail_join(hv, k as int) == join_bar(hv),
        decreases history.len() - k,
    {
        let r2 = r.concat("|").concat(history[k].as_str());
        proof {
            assert(r2@ + tail_join(hv, k + 1) =~= r@ + ("|"@ + hv[k as int] + tail_join(
                hv,
                k + 1,
            )));
            assert(tail_join(hv, k as int) == "|"@ + hv[k as int] + tail_join(hv, k + 1));
        }
        r = r2;
        k = k + 1;
    }
    proof {
        assert(tail_join(hv, hv.len() as int) == Seq::<char>::empty());
        assert(r@ + Seq::<char>::empty() =~= r@);
    }
    r
}

/// The rest of a joined line from position `k` on: a bar before each
/// remaining piece.
pub open spec fn tail_join(h: Seq<Seq<char>>, k: int) -> Seq<char>
    decreases h.len() - k,
{
    if k < 0 || k >= h.len() {
        Seq::empty()
    } else {
        "|"@ + h[k] + tail_join(h, k + 1)
    }
}

proof fn lemma_join_tail(h: Seq<Seq<char>>, k: int)
    requires
        0 <= k < h.len(),
    ensures
        join_bar(h.skip(k)) == h[k] + tail_join(h, k + 1),
    decreases h.len() - k,
{
    let s = h.skip(k);
    if k == h.len() - 1 {
        assert(s.len() == 1);
        assert(s[0] == h[k]);
        assert(h[k] + tail_join(h, k + 1) =~= h[k]);
    } else {
        lemma_join_tail(h, k + 1);
        assert(s.len() > 1);
        assert(s[0] == h[k]);
        assert(s.drop_first() =~= h.skip(k + 1));
        assert(h[k] + "|"@ + (h[k + 1] + tail_join(h, k + 2)) =~= h[k] + ("|"@ + h[k + 1]
            + tail_join(h, k + 2)));
    }
}

/// The newest `count` entries of a history list.
pub fn get_recent_history(history: &Vec<String>, count: usize) -> (r: Vec<String>)
    ensures
        r@.map_values(|x: String| x@) == (if count as int <= history@.len() {
            history@.map_values(|x: String| x@).take(count as int)
        } else {
            history@.map_values(|x: String| x@)
        }),
{
    let ghost hv = history@.map_values(|x: String| x@);
    let n = if count <= history.len() {
        count
    } else {
        history.len()
    };
    let mut r: Vec<String> = Vec::new();
    let mut k: usize = 0;
    proof {
        assert(r@.map_values(|x: String| x@) =~= hv.take(0));
    }
    while k < n
        invariant
            k <= n,
            n <= history.len(),
            hv == history@.map_values(|x: String| x@),
            r@.map_values(|x: String| x@) == hv.take(k as int),
        decreases n - k,
    {
        let ghost o0 = r@;
        r.push(history[k].clone());
        proof {
            assert(r@.map_values(|x: String| x@) =~= o0.map_values(|x: String| x@).push(
                hv[k as int],
            ));
            assert(hv.take(k + 1) =~= hv.take(k as int).push(hv[k as int]));
        }
        k = k + 1;
    }
    proof {
        if count as int > hv.len() {
            assert(hv.take(hv.len() as int) =~= hv);
        }
    }
    r
}

} // verus!
