//! Detection of bookmark anchors in log messages: the `###...###` pattern,
//! rows whose level is the marker token, and failure suffixes.

use vstd::prelude::*;

use crate::clock::now_unix_nanos;
use crate::log_parser::{Bookmark, LogEntry, LogEntryV};
use crate::text::{ends_with, ends_with_str, matches_at, matches_at_exec, trim_spec, trim_str};

verus! {

/// `j` closes an anchor opened at `i`: both positions carry `###`, at
/// least one character lies between, and none of it is a line break.
pub open spec fn marker_close_at(msg: Seq<char>, i: int, j: int) -> bool {
    matches_at("###"@, msg, i) && matches_at("###"@, msg, j) && j >= i + 4 && (forall|t: int|
        i + 3 <= t < j ==> msg[t] != '\n')
}

/// An anchor opens at `i`.
pub open spec fn marker_match_at(msg: Seq<char>, i: int) -> bool {
    exists|j: int| marker_close_at(msg, i, j)
}

/// `i` is the first position where an anchor opens.
pub open spec fn is_first_marker(msg: Seq<char>, i: int) -> bool {
    marker_match_at(msg, i) && forall|i2: int| 0 <= i2 < i ==> !marker_match_at(msg, i2)
}

/// `j` is the nearest close of the anchor at `i`.
pub open spec fn is_min_close(msg: Seq<char>, i: int, j: int) -> bool {
    marker_close_at(msg, i, j) && forall|j2: int| j2 < j ==> !marker_close_at(msg, i, j2)
}

/// The title the first anchor of a message yields: the text between the
/// first `###` and its nearest close, trimmed; nothing when no anchor
/// matches or the trimmed text is empty.
pub open spec fn marker_title(msg: Seq<char>) -> Option<Seq<char>> {
    if exists|i: int| marker_match_at(msg, i) {
        let i = choose|i: int| is_first_marker(msg, i);
        let j = choose|j: int| is_min_close(msg, i, j);
        let t = trim_spec(msg.subrange(i + 3, j));
        if t.len() > 0 {
            Option::Some(t)
        } else {
            Option::None
        }
    } else {
        Option::None
    }
}

proof fn lemma_first_marker_exists(msg: Seq<char>, i: int)
    requires
        marker_match_at(msg, i),
        i >= 0,
    ensures
        exists|k: int| is_first_marker(msg, k),
    decreases i,
{
    if forall|i2: int| 0 <= i2 < i ==> !marker_match_at(msg, i2) {
        assert(is_first_marker(msg, i));
    } else {
        let i2 = choose|i2: int| 0 <= i2 < i && marker_match_at(msg, i2);
        lemma_first_marker_exists(msg, i2);
    }
}

proof fn lemma_min_close_exists(msg: Seq<char>, i: int, j: int)
    requires
        marker_close_at(msg, i, j),
        j >= 0,
    ensures
        exists|k: int| is_min_close(msg, i, k),
    decreases j,
{
    if forall|j2: int| j2 < j ==> !marker_close_at(msg, i, j2) {
        assert(is_min_close(msg, i, j));
    } else {
        let j2 = choose|j2: int| j2 < j && marker_close_at(msg, i, j2);
        if j2 >= 0 {
            lemma_min_close_exists(msg, i, j2);
        } else {
            assert(matches_at("###"@, msg, j2));
            assert(false);
        }
    }
}

/// Finds the first anchor of a message: its opening position and nearest
/// close, exactly the positions `marker_title` reads.
fn find_marker(msg: &str) -> (r: Option<(usize, usize)>)
    ensures
        match r {
            Option::Some(p) => is_first_marker(msg@, p.0 as int) && is_min_close(
                msg@,
                p.0 as int,
                p.1 as int,
            ),
            Option::None => forall|i: int| !marker_match_at(msg@, i),
        },
{
    proof {
        reveal_strlit("###");
    }
    let len = msg.unicode_len();
    if len < 3 {
        proof {
            assert forall|i: int| !marker_match_at(msg@, i) by {
                if marker_match_at(msg@, i) {
                    let j = choose|j: int| marker_close_at(msg@, i, j);
                    assert(false);
                }
            }
        }
        return None;
    }
    let mut i: usize = 0;
    while i <= len - 3
        invariant
            len == msg@.len(),
            3 <= len,
            "###"@.len() == 3,
            "###"@ =~= seq!['#', '#', '#'],
            i <= len - 3 + 1,
            forall|i2: int| 0 <= i2 < i ==> !marker_match_at(msg@, i2),
        decreases len - i,
    {
        if len >= 7 && i <= len - 7 && matches_at_exec("###", msg, i) {
            // scan for the nearest close
            let mut j = i + 4;
            let mut dead = false;
            while !dead && j <= len - 3
                invariant
                    len == msg@.len(),
                    7 <= len,
                    "###"@.len() == 3,
                    i + 7 <= len,
                    matches_at("###"@, msg@, i as int),
                    i + 4 <= j <= len - 2,
                    forall|i2: int| 0 <= i2 < i ==> !marker_match_at(msg@, i2),
                    !dead ==> forall|t: int| i + 3 <= t < j - 1 ==> msg@[t] != '\n',
                    !dead ==> forall|j2: int|
                        i + 4 <= j2 < j ==> !marker_close_at(msg@, i as int, j2),
                    dead ==> forall|j2: int| !marker_close_at(msg@, i as int, j2),
                decreases (if dead {
                    0int
                } else {
                    1int
                }), len - j,
            {
                if msg.get_char(j - 1) == '\n' {
                    proof {
                        assert forall|j2: int| !marker_close_at(msg@, i as int, j2) by {
                            if marker_close_at(msg@, i as int, j2) {
                                if j2 >= j {
                                    assert(msg@[j - 1] != '\n');
                                } else {
                                    if j2 >= i + 4 {
                                        assert(!marker_close_at(msg@, i as int, j2));
                                    } else {
                                        assert(j2 >= i + 4);
                                    }
                                }
                            }
                        }
                    }
                    dead = true;
                } else if matches_at_exec("###", msg, j) {
                    proof {
                        assert(marker_close_at(msg@, i as int, j as int));
                        assert forall|j2: int| j2 < j implies !marker_close_at(
                            msg@,
                            i as int,
                            j2,
                        ) by {
                            if marker_close_at(msg@, i as int, j2) {
                                assert(j2 >= i + 4);
                            }
                        }
                        assert(is_min_close(msg@, i as int, j as int));
                        assert(marker_match_at(msg@, i as int));
                        assert(is_first_marker(msg@, i as int));
                    }
                    return Some((i, j));
                } else {
                    j = j + 1;
                }
            }
            proof {
                if !dead {
                    assert forall|j2: int| !marker_close_at(msg@, i as int, j2) by {
                        if marker_close_at(msg@, i as int, j2) {
                            if j2 >= j {
                                assert(j2 + 3 <= len);
                                assert(false);
                            } else {
                                assert(j2 >= i + 4);
                            }
                        }
                    }
                }
                assert(!marker_match_at(msg@, i as int)) by {
                    if marker_match_at(msg@, i as int) {
                        let j2 = choose|j2: int| marker_close_at(msg@, i as int, j2);
                        assert(false);
                    }
                }
            }
        } else {
            proof {
                assert(!marker_match_at(msg@, i as int)) by {
                    if marker_match_at(msg@, i as int) {
                        let j2 = choose|j2: int| marker_close_at(msg@, i as int, j2);
                        assert(j2 >= i + 4 && j2 + 3 <= len);
                        assert(i + 7 <= len);
                        assert(matches_at("###"@, msg@, i as int));
                        assert(false);
                    }
                }
            }
        }
        i = i + 1;
    }
    proof {
        assert forall|i2: int| !marker_match_at(msg@, i2) by {
            if marker_match_at(msg@, i2) {
                let j = choose|j: int| marker_close_at(msg@, i2, j);
                if i2 < 0 || i2 + 3 > len {
                    assert(false);
                }
            }
        }
    }
    None
}

/// Extracts the first anchor title of a message, exactly `marker_title`.
pub fn extract_marker_title(msg: &str) -> (r: Option<String>)
    ensures
        match r {
            Option::Some(t) => marker_title(msg@) == Option::Some(t@),
            Option::None => marker_title(msg@) is None,
        },
{
    match find_marker(msg) {
        Option::Some((i, j)) => {
            proof {
                lemma_first_marker_exists(msg@, i as int);
                let i2 = choose|k: int| is_first_marker(msg@, k);
                assert(i2 == i as int) by {
                    if i2 < i as int {
                        assert(!marker_match_at(msg@, i2));
                    } else if i2 > i as int {
                        assert(!marker_match_at(msg@, i as int));
                    }
                }
                lemma_min_close_exists(msg@, i as int, j as int);
                let j2 = choose|k: int| is_min_close(msg@, i as int, k);
                assert(j2 == j as int) by {
                    if j2 < j as int {
                        assert(!marker_close_at(msg@, i as int, j2));
                    } else if j2 > j as int {
                        assert(!marker_close_at(msg@, i as int, j as int));
                    }
                }
            }
            let raw = msg.substring_char(i + 3, j);
            let t = trim_str(raw);
            if t.as_str().unicode_len() == 0 {
                None
            } else {
                Some(t)
            }
        },
        Option::None => None,
    }
}

/// The title an entry yields to the plain marker scan: the first anchor's
/// text, else the whole message of a marker-level row.
pub open spec fn auto_marker_title(e: LogEntryV) -> Option<Seq<char>> {
    match marker_title(e.message) {
        Option::Some(t) => Option::Some(t),
        Option::None => if e.level == "MARKER"@ {
            Option::Some(e.message)
        } else {
            Option::None
        },
    }
}

/// The markers of an entry run: each entry that carries an id and yields
/// a title, as `(id, title)`, in order.
pub open spec fn auto_markers(es: Seq<LogEntryV>) -> Seq<(int, Seq<char>)>
    decreases es.len(),
{
    if es.len() == 0 {
        Seq::empty()
    } else {
        let rest = auto_markers(es.drop_first());
        if es[0].id is Some {
            match auto_marker_title(es[0]) {
                Option::Some(t) => seq![(es[0].id->0, t)] + rest,
                Option::None => rest,
            }
        } else {
            rest
        }
    }
}

/// The entry ids of a run whose message ends in the failure suffix.
pub open spec fn failure_ids(es: Seq<LogEntryV>) -> Seq<int>
    decreases es.len(),
{
    if es.len() == 0 {
        Seq::empty()
    } else {
        let rest = failure_ids(es.drop_first());
        if es[0].id is Some && ends_with(es[0].message, "[FAIL]"@) {
            seq![es[0].id->0] + rest
        } else {
            rest
        }
    }
}

/// Scans entries for anchors: `###...###` yields its text, a bare
/// marker-level row yields its message; the anchor wins where both apply.
/// Entries without an id are passed over.  Exactly `auto_markers`.
pub fn find_auto_bookmark_markers(entries: &[LogEntry]) -> (r: Vec<(i64, String)>)
    ensures
        r@.map_values(|p: (i64, String)| (p.0 as int, p.1@)) == auto_markers(
            entries@.map_values(|e: LogEntry| e@),
        ),
{
    let ghost es = entries@.map_values(|e: LogEntry| e@);
    let mut r: Vec<(i64, String)> = Vec::new();
    let mut k: usize = 0;
    proof {
        assert(es.skip(0) =~= es);
        assert(r@.map_values(|p: (i64, String)| (p.0 as int, p.1@)) + auto_markers(es.skip(0))
            =~= auto_markers(es));
    }
    while k < entries.len()
        invariant
            k <= entries.len(),
            es == entries@.map_values(|e: LogEntry| e@),
            auto_markers(es) == r@.map_values(|p: (i64, String)| (p.0 as int, p.1@))
                + auto_markers(es.skip(k as int)),
        decreases entries.len() - k,
    {
        let ghost rest = es.skip(k as int);
        proof {
            assert(rest[0] == es[k as int]);
            assert(rest.drop_first() =~= es.skip(k + 1));
        }
        let e = &entries[k];
        match e.id {
            Option::Some(entry_id) => {
                let title = match extract_marker_title(e.message.as_str()) {
                    Option::Some(t) => Some(t),
                    Option::None => {
                        if str_is_marker_level(e.level.as_str()) {
                            Some(e.message.clone())
                        } else {
                            None
                        }
                    },
                };
                match title {
                    Option::Some(t) => {
                        let ghost r0 = r@;
                        let ghost tv = t@;
                        r.push((entry_id, t));
                        proof {
                            assert(auto_marker_title(es[k as int]) == Option::Some(tv));
                            assert(r@.map_values(|p: (i64, String)| (p.0 as int, p.1@)) =~= r0
                                .map_values(|p: (i64, String)| (p.0 as int, p.1@)).push(
                                (entry_id as int, tv),
                            ));
                            assert(r@.map_values(|p: (i64, String)| (p.0 as int, p.1@))
                                + auto_markers(es.skip(k + 1)) =~= r0.map_values(
                                |p: (i64, String)| (p.0 as int, p.1@),
                            ) + (seq![(entry_id as int, tv)] + auto_markers(es.skip(k + 1))));
                        }
                    },
                    Option::None => {
                        proof {
                            assert(auto_marker_title(es[k as int]) is None);
                        }
                    },
                }
            },
            Option::None => {
            },
        }
        k = k + 1;
    }
    proof {
        assert(es.skip(es.len() as int) =~= Seq::<LogEntryV>::empty());
        assert(r@.map_values(|p: (i64, String)| (p.0 as int, p.1@)) + Seq::<(
            int,
            Seq<char>,
        )>::empty() =~= r@.map_values(|p: (i64, String)| (p.0 as int, p.1@)));
    }
    r
}

/// Decides whether a level token is the marker level.
fn str_is_marker_level(lv: &str) -> (r: bool)
    ensures
        r == (lv@ == "MARKER"@),
{
    crate::text::str_eq(lv, "MARKER")
}

/// Scans entries for the failure suffix, exactly `failure_ids`; entries
/// without an id are passed over.
pub fn find_failure_anchor_markers(entries: &[LogEntry]) -> (r: Vec<i64>)
    ensures
        r@.map_values(|x: i64| x as int) == failure_ids(entries@.map_values(|e: LogEntry| e@)),
{
    let ghost es = entries@.map_values(|e: LogEntry| e@);
    let mut r: Vec<i64> = Vec::new();
    let mut k: usize = 0;
    proof {
        assert(es.skip(0) =~= es);
        assert(r@.map_values(|x: i64| x as int) + failure_ids(es.skip(0)) =~= failure_ids(es));
    }
    while k < entries.len()
        invariant
            k <= entries.len(),
            es == entries@.map_values(|e: LogEntry| e@),
            failure_ids(es) == r@.map_values(|x: i64| x as int) + failure_ids(es.skip(k as int)),
        decreases entries.len() - k,
    {
        let ghost rest = es.skip(k as int);
        proof {
            assert(rest[0] == es[k as int]);
            assert(rest.drop_first() =~= es.skip(k + 1));
        }
        let e = &entries[k];
        match e.id {
            Option::Some(entry_id) => {
                if ends_with_str(e.message.as_str(), "[FAIL]") {
                    let ghost r0 = r@;
                    r.push(entry_id);
                    proof {
                        assert(r@.map_values(|x: i64| x as int) =~= r0.map_values(
                            |x: i64| x as int,
                        ).push(entry_id as int));
                        assert(r@.map_values(|x: i64| x as int) + failure_ids(es.skip(k + 1))
                            =~= r0.map_values(|x: i64| x as int) + (seq![entry_id as int]
                            + failure_ids(es.skip(k + 1))));
                    }
                }
            },
            Option::None => {
            },
        }
        k = k + 1;
    }
    proof {
        assert(es.skip(es.len() as int) =~= Seq::<LogEntryV>::empty());
        assert(r@.map_values(|x: i64| x as int) + Seq::<int>::empty() =~= r@.map_values(
            |x: i64| x as int,
        ));
    }
    r
}

/// An anchor bookmark without a color, stamped with the wall clock.
pub fn create_auto_bookmark(log_entry_id: i64, title: String) -> (r: Bookmark)
    ensures
        r@.id is None,
        r@.log_entry_id == log_entry_id as int,
        r@.title == Option::Some(title@),
        r@.notes is None,
        r@.color is None,
        r@.created_at is Some,
{
    Bookmark {
        id: None,
        log_entry_id,
        title: Some(title),
        notes: None,
        color: None,
        created_at: Some(now_unix_nanos()),
    }
}

/// A failure bookmark: the failure title, the failure color, stamped with
/// the wall clock.
pub fn create_failure_bookmark(log_entry_id: i64) -> (r: Bookmark)
    ensures
        r@.id is None,
        r@.log_entry_id == log_entry_id as int,
        r@.title == Option::Some("Failure"@),
        r@.notes is None,
        r@.color == Option::Some("#F56C6C"@),
        r@.created_at is Some,
{
    Bookmark {
        id: None,
        log_entry_id,
        title: Some(String::from_str("Failure")),
        notes: None,
        color: Some(String::from_str("#F56C6C")),
        created_at: Some(now_unix_nanos()),
    }
}

} // verus!
