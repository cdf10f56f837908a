//! The row store behind the viewer: sessions, entries and bookmarks held
//! as plain rows, with transactional-style writes, filtered and paginated
//! reads in the stable order `(timestamp, id)`, entry-to-page resolution,
//! and the automatic bookmark synthesizer.

use vstd::prelude::*;

use crate::filtering::{filter_seq, lemma_filter_preserves_sorted_by, lemma_filter_seq_contains};
use crate::log_parser::{
    Bookmark, BookmarkV, LogEntry, LogEntryV, TestSession, TestSessionV,
};
use crate::sorting::{lemma_insert_by_at, stable_sort};
use crate::text::{contains_sub, ends_with, ends_with_str, is_substring, lex_lt, str_eq, str_lt};

verus! {

/// What can go wrong inside the store itself.
#[derive(Clone, Copy, Debug, PartialEq, Eq, Structural)]
pub enum DbError {
    /// A session with the same id is already stored.
    DuplicateSession,
    /// An id counter has no room for the rows of this write.
    CounterExhausted,
}

/// The id a stored entry carries.
pub open spec fn eid(e: LogEntryV) -> int {
    match e.id {
        Option::Some(i) => i,
        Option::None => 0,
    }
}

/// The id a stored bookmark carries.
pub open spec fn bid(b: BookmarkV) -> int {
    match b.id {
        Option::Some(i) => i,
        Option::None => 0,
    }
}

/// `e` with its id assigned.
pub open spec fn with_eid(e: LogEntryV, id: int) -> LogEntryV {
    LogEntryV { id: Option::Some(id), ..e }
}

/// The entries of a batch with consecutive ids from `start`.
pub open spec fn with_ids(es: Seq<LogEntryV>, start: int) -> Seq<LogEntryV> {
    Seq::new(es.len(), |k: int| with_eid(es[k], start + k))
}

/// Entry rows are well formed: every row carries an id below the counter,
/// and ids strictly increase in storage order, so they are unique and
/// monotonic with insertion order.
pub open spec fn entries_wf(entries: Seq<LogEntryV>, next: int) -> bool {
    &&& 1 <= next
    &&& forall|i: int|
        0 <= i < entries.len() ==> (#[trigger] entries[i]).id is Some && 1 <= eid(entries[i])
            && eid(entries[i]) < next
    &&& forall|i: int, j: int|
        0 <= i < j < entries.len() ==> eid(#[trigger] entries[i]) < eid(#[trigger] entries[j])
}

/// Bookmark rows are well formed in the same way.
pub open spec fn bookmarks_wf(bms: Seq<BookmarkV>, next: int) -> bool {
    &&& 1 <= next
    &&& forall|i: int|
        0 <= i < bms.len() ==> (#[trigger] bms[i]).id is Some && 1 <= bid(bms[i]) && bid(bms[i])
            < next
    &&& forall|i: int, j: int|
        0 <= i < j < bms.len() ==> bid(#[trigger] bms[i]) < bid(#[trigger] bms[j])
}

/// Session ids are unique.
pub open spec fn sessions_wf(ss: Seq<TestSessionV>) -> bool {
    forall|i: int, j: int|
        0 <= i < j < ss.len() ==> (#[trigger] ss[i]).id != (#[trigger] ss[j]).id
}

/// The mathematical state of the store.
pub ghost struct DbView {
    pub sessions: Seq<TestSessionV>,
    pub entries: Seq<LogEntryV>,
    pub bookmarks: Seq<BookmarkV>,
    pub next_entry_id: int,
    pub next_bookmark_id: int,
}

/// The row store.
pub struct DatabaseManager {
    sessions: Vec<TestSession>,
    entries: Vec<LogEntry>,
    bookmarks: Vec<Bookmark>,
    next_entry_id: i64,
    next_bookmark_id: i64,
}

impl View for DatabaseManager {
    type V = DbView;

    closed spec fn view(&self) -> DbView {
        DbView {
            sessions: self.sessions@.map_values(|s: TestSession| s@),
            entries: self.entries@.map_values(|e: LogEntry| e@),
            bookmarks: self.bookmarks@.map_values(|b: Bookmark| b@),
            next_entry_id: self.next_entry_id as int,
            next_bookmark_id: self.next_bookmark_id as int,
        }
    }
}

/// A session with this id is stored.
pub open spec fn has_session(ss: Seq<TestSessionV>, id: Seq<char>) -> bool {
    exists|k: int| 0 <= k < ss.len() && (#[trigger] ss[k]).id == id
}

impl DatabaseManager {
    /// The store's invariant.
    pub open spec fn wf(&self) -> bool {
        &&& entries_wf(self@.entries, self@.next_entry_id)
        &&& bookmarks_wf(self@.bookmarks, self@.next_bookmark_id)
        &&& sessions_wf(self@.sessions)
    }

    /// An empty store.
    pub fn new() -> (r: DatabaseManager)
        ensures
            r.wf(),
            r@.sessions == Seq::<TestSessionV>::empty(),
            r@.entries == Seq::<LogEntryV>::empty(),
            r@.bookmarks == Seq::<BookmarkV>::empty(),
            r@.next_entry_id == 1,
            r@.next_bookmark_id == 1,
    {
        let r = DatabaseManager {
            sessions: Vec::new(),
            entries: Vec::new(),
            bookmarks: Vec::new(),
            next_entry_id: 1,
            next_bookmark_id: 1,
        };
        proof {
            assert(r@.sessions =~= Seq::<TestSessionV>::empty());
            assert(r@.entries =~= Seq::<LogEntryV>::empty());
            assert(r@.bookmarks =~= Seq::<BookmarkV>::empty());
        }
        r
    }

    /// How many entry ids are left before the counter is exhausted.
    pub fn next_entry_headroom(&self) -> (r: u64)
        requires
            self.wf(),
        ensures
            r as int == i64::MAX - self@.next_entry_id,
    {
        (i64::MAX - self.next_entry_id) as u64
    }

    /// How many bookmark ids are left before the counter is exhausted.
    pub fn next_bookmark_headroom(&self) -> (r: u64)
        requires
            self.wf(),
        ensures
            r as int == i64::MAX - self@.next_bookmark_id,
    {
        (i64::MAX - self.next_bookmark_id) as u64
    }

    /// Stores a new session row; refused when a session with the same id
    /// exists, and stored exactly as handed in otherwise.
    pub fn create_test_session(&mut self, session: &TestSession) -> (r: Result<String, DbError>)
        requires
            old(self).wf(),
        ensures
            final(self).wf(),
            final(self)@.entries == old(self)@.entries,
            final(self)@.bookmarks == old(self)@.bookmarks,
            final(self)@.next_entry_id == old(self)@.next_entry_id,
            final(self)@.next_bookmark_id == old(self)@.next_bookmark_id,
            match r {
                Result::Ok(id) => !has_session(old(self)@.sessions, session@.id) && id@
                    == session@.id && final(self)@.sessions == old(self)@.sessions.push(session@),
                Result::Err(e) => e == DbError::DuplicateSession && has_session(
                    old(self)@.sessions,
                    session@.id,
                ) && final(self)@.sessions == old(self)@.sessions,
            },
    {
        let ghost ss = self@.sessions;
        let mut k: usize = 0;
        while k < self.sessions.len()
            invariant
                k <= self.sessions.len(),
                *self == *old(self),
                old(self).wf(),
                ss == self@.sessions,
                forall|i: int| 0 <= i < k ==> (#[trigger] ss[i]).id != session@.id,
            decreases self.sessions.len() - k,
        {
            if str_eq(self.sessions[k].id.as_str(), session.id.as_str()) {
                proof {
                    assert(ss[k as int].id == session@.id);
                }
                return Err(DbError::DuplicateSession);
            }
            k = k + 1;
        }
        proof {
            if has_session(ss, session@.id) {
                let i = choose|i: int| 0 <= i < ss.len() && (#[trigger] ss[i]).id == session@.id;
                assert(false);
            }
        }
        let ghost before = self@.sessions;
        self.sessions.push(session.duplicate());
        proof {
            assert(self@.sessions =~= before.push(session@));
            assert forall|i: int, j: int|
                0 <= i < j < self@.sessions.len() implies (#[trigger] self@.sessions[i]).id != (
            #[trigger] self@.sessions[j]).id by {
                if j < before.len() {
                } else {
                    assert(self@.sessions[j] == session@);
                    assert(before[i].id != session@.id);
                }
            }
        }
        Ok(session.id.clone())
    }

    /// Inserts a batch of entries in one transaction: ids are assigned
    /// consecutively in input order and handed back one-to-one.
    pub fn insert_entries(&mut self, entries: &[LogEntry]) -> (r: Vec<i64>)
        requires
            old(self).wf(),
            old(self)@.next_entry_id + entries@.len() <= i64::MAX,
        ensures
            final(self).wf(),
            final(self)@.sessions == old(self)@.sessions,
            final(self)@.bookmarks == old(self)@.bookmarks,
            final(self)@.next_bookmark_id == old(self)@.next_bookmark_id,
            final(self)@.next_entry_id == old(self)@.next_entry_id + entries@.len(),
            final(self)@.entries == old(self)@.entries + with_ids(
                entries@.map_values(|e: LogEntry| e@),
                old(self)@.next_entry_id,
            ),
            r@.len() == entries@.len(),
            forall|k: int|
                0 <= k < r@.len() ==> r@[k] as int == old(self)@.next_entry_id + k,
    {
        let ghost es = entries@.map_values(|e: LogEntry| e@);
        let ghost start = self@.next_entry_id;
        let ghost entries0 = self@.entries;
        let mut ids: Vec<i64> = Vec::new();
        let mut k: usize = 0;
        proof {
            assert(self@.entries =~= entries0 + with_ids(es.take(0), start));
        }
        while k < entries.len()
            invariant
                k <= entries.len(),
                es == entries@.map_values(|e: LogEntry| e@),
                start + es.len() <= i64::MAX,
                1 <= start,
                entries_wf(entries0, start),
                self@.next_entry_id == start + k,
                self@.entries == entries0 + with_ids(es.take(k as int), start),
                self@.sessions == old(self)@.sessions,
                self@.bookmarks == old(self)@.bookmarks,
                self@.next_bookmark_id == old(self)@.next_bookmark_id,
                ids@.len() == k,
                forall|j: int| 0 <= j < k ==> ids@[j] as int == start + j,
            decreases entries.len() - k,
        {
            let mut e = entries[k].duplicate();
            e.id = Some(self.next_entry_id);
            ids.push(self.next_entry_id);
            let ghost ev = e@;
            let ghost before = self@.entries;
            self.entries.push(e);
            self.next_entry_id = self.next_entry_id + 1;
            proof {
                assert(ev == with_eid(es[k as int], start + k));
                assert(self@.entries =~= before.push(ev));
                assert(with_ids(es.take(k + 1), start) =~= with_ids(es.take(k as int), start).push(
                    with_eid(es[k as int], start + k),
                ));
                assert(self@.entries =~= entries0 + with_ids(es.take(k + 1), start));
            }
            k = k + 1;
        }
        proof {
            assert(es.take(es.len() as int) =~= es);
            let all = entries0 + with_ids(es, start);
            assert(entries_wf(all, start + es.len())) by {
                assert(forall|i: int|
                    0 <= i < all.len() ==> (#[trigger] all[i]).id is Some && 1 <= eid(all[i])
                        && eid(all[i]) < start + es.len()) by {
                    assert(forall|i: int|
                        entries0.len() <= i < all.len() ==> all[i] == with_ids(es, start)[i
                            - entries0.len()]);
                }
                assert(forall|i: int, j: int|
                    0 <= i < j < all.len() ==> eid(#[trigger] all[i]) < eid(
                        #[trigger] all[j],
                    )) by {
                    assert(forall|i: int|
                        entries0.len() <= i < all.len() ==> eid(#[trigger] all[i]) == start + i
                            - entries0.len());
                }
            }
        }
        ids
    }

    /// Stores a bookmark row, assigning and returning its id.  The stored
    /// row carries the caller's target entry, title, notes and color.
    pub fn add_bookmark(&mut self, bookmark: &Bookmark) -> (r: i64)
        requires
            old(self).wf(),
            old(self)@.next_bookmark_id < i64::MAX,
        ensures
            final(self).wf(),
            final(self)@.sessions == old(self)@.sessions,
            final(self)@.entries == old(self)@.entries,
            final(self)@.next_entry_id == old(self)@.next_entry_id,
            final(self)@.next_bookmark_id == old(self)@.next_bookmark_id + 1,
            r as int == old(self)@.next_bookmark_id,
            final(self)@.bookmarks == old(self)@.bookmarks.push(
                stored_bookmark(bookmark@, old(self)@.next_bookmark_id),
            ),
    {
        let id = self.next_bookmark_id;
        let mut b = bookmark.duplicate();
        b.id = Some(id);
        b.created_at = None;
        let ghost before = self@.bookmarks;
        self.bookmarks.push(b);
        self.next_bookmark_id = self.next_bookmark_id + 1;
        proof {
            assert(self@.bookmarks =~= before.push(stored_bookmark(bookmark@, id as int)));
            assert forall|i: int, j: int|
                0 <= i < j < self@.bookmarks.len() implies bid(#[trigger] self@.bookmarks[i])
                < bid(#[trigger] self@.bookmarks[j]) by {
                if j < before.len() {
                } else {
                    assert(self@.bookmarks[j] == stored_bookmark(bookmark@, id as int));
                }
            }
        }
        id
    }

    /// Deletes the bookmark with this id, and nothing else.
    pub fn delete_bookmark(&mut self, bookmark_id: i64)
        requires
            old(self).wf(),
        ensures
            final(self).wf(),
            final(self)@.sessions == old(self)@.sessions,
            final(self)@.entries == old(self)@.entries,
            final(self)@.next_entry_id == old(self)@.next_entry_id,
            final(self)@.next_bookmark_id == old(self)@.next_bookmark_id,
            final(self)@.bookmarks == crate::filtering::filter_seq(
                old(self)@.bookmarks,
                keep_other_bookmarks(bookmark_id as int),
            ),
    {
        let ghost bms = self@.bookmarks;
        let ghost p = keep_other_bookmarks(bookmark_id as int);
        let mut out: Vec<Bookmark> = Vec::new();
        let mut k: usize = 0;
        proof {
            assert(bms.skip(0) =~= bms);
            assert(out@.map_values(|b: Bookmark| b@) + crate::filtering::filter_seq(
                bms.skip(0),
                p,
            ) =~= crate::filtering::filter_seq(bms, p));
        }
        while k < self.bookmarks.len()
            invariant
                k <= self.bookmarks.len(),
                bms == self@.bookmarks,
                p == keep_other_bookmarks(bookmark_id as int),
                crate::filtering::filter_seq(bms, p) == out@.map_values(|b: Bookmark| b@)
                    + crate::filtering::filter_seq(bms.skip(k as int), p),
            decreases self.bookmarks.len() - k,
        {
            let ghost rest = bms.skip(k as int);
            proof {
                assert(rest[0] == bms[k as int]);
                assert(rest.drop_first() =~= bms.skip(k + 1));
            }
            let b = &self.bookmarks[k];
            let keep = match b.id {
                Option::Some(i) => i != bookmark_id,
                Option::None => true,
            };
            if keep {
                let ghost out0 = out@;
                out.push(b.duplicate());
                proof {
                    assert(out@.map_values(|x: Bookmark| x@) =~= out0.map_values(
                        |x: Bookmark| x@,
                    ).push(bms[k as int]));
                    assert(out@.map_values(|x: Bookmark| x@) + crate::filtering::filter_seq(
                        bms.skip(k + 1),
                        p,
                    ) =~= out0.map_values(|x: Bookmark| x@) + (seq![bms[k as int]]
                        + crate::filtering::filter_seq(bms.skip(k + 1), p)));
                }
            } else {
                proof {
                    assert(!p(bms[k as int]));
                }
            }
            k = k + 1;
        }
        proof {
            assert(bms.skip(bms.len() as int) =~= Seq::<BookmarkV>::empty());
            assert(out@.map_values(|b: Bookmark| b@) + Seq::<BookmarkV>::empty() =~= out@
                .map_values(|b: Bookmark| b@));
        }
        self.bookmarks = out;
        proof {
            let ltfn = |a: BookmarkV, b: BookmarkV| bid(a) < bid(b);
            assert(vstd::relations::sorted_by(bms, ltfn)) by {
                assert(forall|i: int, j: int|
                    0 <= i < j < bms.len() ==> ltfn(#[trigger] bms[i], #[trigger] bms[j]));
            }
            crate::filtering::lemma_filter_preserves_sorted_by(bms, p, ltfn);
            let f = crate::filtering::filter_seq(bms, p);
            assert forall|i: int|
                0 <= i < f.len() implies (#[trigger] f[i]).id is Some && 1 <= bid(f[i]) && bid(
                f[i],
            ) < self@.next_bookmark_id by {
                crate::filtering::lemma_filter_seq_contains(bms, p, f[i]);
                assert(bms.contains(f[i]));
                let m = choose|m: int| 0 <= m < bms.len() && bms[m] == f[i];
                assert(bms[m].id is Some);
            }
            assert forall|i: int, j: int|
                0 <= i < j < f.len() implies bid(#[trigger] f[i]) < bid(#[trigger] f[j]) by {
                assert(ltfn(f[i], f[j]));
            }
        }
    }

    /// Sets the title of the bookmark with this id, leaving every other
    /// row unchanged.
    pub fn update_bookmark_title(&mut self, bookmark_id: i64, title: &str)
        requires
            old(self).wf(),
        ensures
            final(self).wf(),
            final(self)@.sessions == old(self)@.sessions,
            final(self)@.entries == old(self)@.entries,
            final(self)@.next_entry_id == old(self)@.next_entry_id,
            final(self)@.next_bookmark_id == old(self)@.next_bookmark_id,
            final(self)@.bookmarks == retitled(old(self)@.bookmarks, bookmark_id as int, title@),
    {
        let ghost bms = self@.bookmarks;
        let n = self.bookmarks.len();
        let mut k: usize = 0;
        while k < n
            invariant
                k <= n,
                n == self.bookmarks.len(),
                old(self).wf(),
                bms == old(self)@.bookmarks,
                self@.sessions == old(self)@.sessions,
                self@.entries == old(self)@.entries,
                self@.next_entry_id == old(self)@.next_entry_id,
                self@.next_bookmark_id == old(self)@.next_bookmark_id,
                self@.bookmarks.len() == bms.len(),
                forall|i: int|
                    0 <= i < bms.len() ==> #[trigger] self@.bookmarks[i] == (if i < k {
                        retitle_one(bms[i], bookmark_id as int, title@)
                    } else {
                        bms[i]
                    }),
            decreases n - k,
        {
            let ghost pre = self@.bookmarks;
            proof {
                assert forall|i: int|
                    0 <= i < bms.len() implies #[trigger] pre[i] == (if i < k {
                        retitle_one(bms[i], bookmark_id as int, title@)
                    } else {
                        bms[i]
                    }) by {
                    assert(pre[i] == self@.bookmarks[i]);
                }
            }
            let hit = match self.bookmarks[k].id {
                Option::Some(i) => i == bookmark_id,
                Option::None => false,
            };
            let ghost v0 = self.bookmarks@;
            proof {
                assert(v0[k as int]@ == pre[k as int]);
                assert(pre[k as int] == bms[k as int]);
            }
            if hit {
                let mut b = self.bookmarks.remove(k);
                proof {
                    assert(b@ == bms[k as int]);
                }
                b.title = Some(String::from_str(title));
                let ghost bv = b@;
                self.bookmarks.insert(k, b);
                proof {
                    v0.remove_ensures(k as int);
                    v0.remove(k as int).insert_ensures(k as int, self.bookmarks@[k as int]);
                    assert(self.bookmarks@[k as int]@ == bv);
                    assert(bv.id == bms[k as int].id);
                    assert(bv.title == Option::Some(title@));
                    assert(bms[k as int].id == Option::Some(bookmark_id as int));
                    assert(bv == retitle_one(bms[k as int], bookmark_id as int, title@));
                    assert forall|i: int|
                        0 <= i < v0.len() && i != k implies self.bookmarks@[i] == v0[i] by {
                        if i < k {
                            assert(v0.remove(k as int)[i] == v0[i]);
                        } else {
                            assert(v0.remove(k as int)[i - 1] == v0[i]);
                            assert(self.bookmarks@[i] == v0.remove(k as int)[i - 1]);
                        }
                    }
                }
            }
            proof {
                assert forall|i: int|
                    0 <= i < bms.len() implies #[trigger] self@.bookmarks[i] == (if i < k + 1 {
                        retitle_one(bms[i], bookmark_id as int, title@)
                    } else {
                        bms[i]
                    }) by {
                    if i == k {
                        if hit {
                            assert(self@.bookmarks[i] == self.bookmarks@[i]@);
                        } else {
                            assert(self@.bookmarks[i] == pre[i]);
                            assert(bms[i].id != Option::Some(bookmark_id as int));
                            assert(retitle_one(bms[i], bookmark_id as int, title@) == bms[i]);
                        }
                    } else {
                        if hit {
                            assert(self.bookmarks@[i] == v0[i]);
                            assert(self@.bookmarks[i] == self.bookmarks@[i]@);
                            assert(v0[i]@ == pre[i]);
                        }
                        assert(self@.bookmarks[i] == pre[i]);
                    }
                }
            }
            k = k + 1;
        }
        proof {
            assert(self@.bookmarks =~= retitled(bms, bookmark_id as int, title@));
            assert forall|i: int, j: int|
                0 <= i < j < self@.bookmarks.len() implies bid(#[trigger] self@.bookmarks[i])
                < bid(#[trigger] self@.bookmarks[j]) by {
                assert(bid(self@.bookmarks[i]) == bid(bms[i]));
                assert(bid(self@.bookmarks[j]) == bid(bms[j]));
            }
            assert forall|i: int|
                0 <= i < self@.bookmarks.len() implies (#[trigger] self@.bookmarks[i]).id is Some
                && 1 <= bid(self@.bookmarks[i]) && bid(self@.bookmarks[i])
                < self@.next_bookmark_id by {
                assert(bms[i].id is Some);
            }
        }
    }
    /// A filtered, paginated read: the total count of matching rows, and
    /// the window `[offset, offset+limit)` of the matching rows in the
    /// order `(timestamp, id)`.
    pub fn get_entries_paginated(
        &self,
        session_id: &str,
        offset: usize,
        limit: usize,
        level_filter: Option<&[String]>,
        search_term: Option<&str>,
    ) -> (r: (Vec<LogEntry>, usize))
        requires
            self.wf(),
        ensures
            ({
                let m = filter_seq(
                    self@.entries,
                    entry_pred(session_id@, levels_view(level_filter), search_view(search_term)),
                );
                let sorted = query_rows(
                    self@.entries,
                    session_id@,
                    levels_view(level_filter),
                    search_view(search_term),
                );
                let lo: int = if offset as int <= m.len() {
                    offset as int
                } else {
                    m.len() as int
                };
                let hi: int = if offset + limit <= m.len() {
                    offset + limit
                } else {
                    m.len() as int
                };
                r.1 as int == m.len() && r.0@.map_values(|e: LogEntry| e@) == sorted.subrange(
                    lo,
                    hi,
                )
            }),
    {
        let kept = match level_filter {
            Option::Some(ls) => clean_levels(ls),
            Option::None => Vec::new(),
        };
        let ghost pred = entry_pred(session_id@, levels_view(level_filter), search_view(search_term));
        let ghost ev = self@.entries;
        let mut matching: Vec<LogEntry> = Vec::new();
        let mut k: usize = 0;
        proof {
            assert(ev.skip(0) =~= ev);
            assert(matching@.map_values(|e: LogEntry| e@) + filter_seq(ev.skip(0), pred)
                =~= filter_seq(ev, pred));
        }
        while k < self.entries.len()
            invariant
                k <= self.entries.len(),
                ev == self@.entries,
                pred == entry_pred(
                    session_id@,
                    levels_view(level_filter),
                    search_view(search_term),
                ),
                match level_filter {
                    Option::Some(ls) => strs_view(kept@) == level_set(strs_view(ls@)),
                    Option::None => true,
                },
                filter_seq(ev, pred) == matching@.map_values(|e: LogEntry| e@) + filter_seq(
                    ev.skip(k as int),
                    pred,
                ),
            decreases self.entries.len() - k,
        {
            let ghost rest = ev.skip(k as int);
            proof {
                assert(rest[0] == ev[k as int]);
                assert(rest.drop_first() =~= ev.skip(k + 1));
            }
            let e = &self.entries[k];
            if row_matches_exec(e, session_id, level_filter, &kept, search_term) {
                let ghost m0 = matching@;
                matching.push(e.duplicate());
                proof {
                    assert(matching@.map_values(|x: LogEntry| x@) =~= m0.map_values(
                        |x: LogEntry| x@,
                    ).push(ev[k as int]));
                    assert(matching@.map_values(|x: LogEntry| x@) + filter_seq(
                        ev.skip(k + 1),
                        pred,
                    ) =~= m0.map_values(|x: LogEntry| x@) + (seq![ev[k as int]] + filter_seq(
                        ev.skip(k + 1),
                        pred,
                    )));
                }
            } else {
                proof {
                    assert(!pred(ev[k as int]));
                }
            }
            k = k + 1;
        }
        proof {
            assert(ev.skip(ev.len() as int) =~= Seq::<LogEntryV>::empty());
            assert(matching@.map_values(|e: LogEntry| e@) + Seq::<LogEntryV>::empty() =~= matching@
                .map_values(|e: LogEntry| e@));
        }
        let total = matching.len();
        let ghost mv = matching@.map_values(|e: LogEntry| e@);
        proof {
            crate::sorting::lemma_stable_sort_multiset(mv, entry_le_fn());
        }
        let sorted = sort_entries(matching);
        let ghost sv = sorted@.map_values(|e: LogEntry| e@);
        let lo = if offset <= total {
            offset
        } else {
            total
        };
        let hi = match offset.checked_add(limit) {
            Option::Some(s) => if s <= total {
                s
            } else {
                total
            },
            Option::None => total,
        };
        let mut out: Vec<LogEntry> = Vec::new();
        let mut t = lo;
        proof {
            assert(out@.map_values(|e: LogEntry| e@) =~= sv.subrange(lo as int, lo as int));
        }
        while t < hi
            invariant
                lo <= t <= hi,
                hi <= total,
                total == sv.len(),
                sv == sorted@.map_values(|e: LogEntry| e@),
                sorted@.len() == sv.len(),
                out@.map_values(|e: LogEntry| e@) == sv.subrange(lo as int, t as int),
            decreases hi - t,
        {
            let ghost o0 = out@;
            out.push(sorted[t].duplicate());
            proof {
                assert(out@.map_values(|e: LogEntry| e@) =~= o0.map_values(|e: LogEntry| e@).push(
                    sv[t as int],
                ));
                assert(sv.subrange(lo as int, t + 1) =~= sv.subrange(lo as int, t as int).push(
                    sv[t as int],
                ));
            }
            t = t + 1;
        }
        (out, total)
    }

    /// The one-based page that would contain the entry with this id under
    /// these filters and page size; nothing when the entry is not stored.
    /// The entry itself need not match the filters.
    pub fn get_entry_page(
        &self,
        entry_id: i64,
        items_per_page: usize,
        level_filter: Option<&[String]>,
        search_term: Option<&str>,
    ) -> (r: Option<usize>)
        requires
            self.wf(),
            items_per_page > 0,
            self@.entries.len() < usize::MAX,
        ensures
            match lookup_entry(self@.entries, entry_id as int) {
                Option::None => r is None,
                Option::Some(e) => r == Option::Some(
                    ((filter_seq(
                        self@.entries,
                        before_pred(
                            e.test_session_id,
                            levels_view(level_filter),
                            search_view(search_term),
                            e,
                        ),
                    ).len() as int / (items_per_page as int)) + 1) as usize,
                ),
            },
    {
        let ghost ev = self@.entries;
        let mut k: usize = 0;
        let mut target: Option<LogEntry> = None;
        proof {
            assert(ev.skip(0) =~= ev);
        }
        while k < self.entries.len() && target.is_none()
            invariant
                k <= self.entries.len(),
                ev == self@.entries,
                match target {
                    Option::Some(e) => lookup_entry(ev, entry_id as int) == Option::Some(e@),
                    Option::None => lookup_entry(ev, entry_id as int) == lookup_entry(
                        ev.skip(k as int),
                        entry_id as int,
                    ),
                },
            decreases self.entries.len() - k,
        {
            let ghost rest = ev.skip(k as int);
            proof {
                assert(rest[0] == ev[k as int]);
                assert(rest.drop_first() =~= ev.skip(k + 1));
            }
            let e = &self.entries[k];
            let hit = match e.id {
                Option::Some(i) => i == entry_id,
                Option::None => false,
            };
            if hit {
                target = Some(e.duplicate());
            }
            k = k + 1;
        }
        let found = match target {
            Option::Some(e) => e,
            Option::None => {
                proof {
                    assert(ev.skip(ev.len() as int) =~= Seq::<LogEntryV>::empty());
                }
                return None;
            },
        };
        let kept = match level_filter {
            Option::Some(ls) => clean_levels(ls),
            Option::None => Vec::new(),
        };
        let ghost pred = before_pred(
            found@.test_session_id,
            levels_view(level_filter),
            search_view(search_term),
            found@,
        );
        let found_id = match found.id {
            Option::Some(i) => i,
            Option::None => 0,
        };
        let mut count: usize = 0;
        let mut t: usize = 0;
        proof {
            assert(ev.skip(0) =~= ev);
        }
        while t < self.entries.len()
            invariant
                t <= self.entries.len(),
                ev == self@.entries,
                count <= t,
                pred == before_pred(
                    found@.test_session_id,
                    levels_view(level_filter),
                    search_view(search_term),
                    found@,
                ),
                found_id as int == eid(found@),
                match level_filter {
                    Option::Some(ls) => strs_view(kept@) == level_set(strs_view(ls@)),
                    Option::None => true,
                },
                filter_seq(ev, pred).len() == count + filter_seq(ev.skip(t as int), pred).len(),
            decreases self.entries.len() - t,
        {
            let ghost rest = ev.skip(t as int);
            proof {
                assert(rest[0] == ev[t as int]);
                assert(rest.drop_first() =~= ev.skip(t + 1));
            }
            let e = &self.entries[t];
            let matches = row_matches_exec(
                e,
                found.test_session_id.as_str(),
                level_filter,
                &kept,
                search_term,
            );
            let before = if matches {
                if str_lt(e.timestamp.as_str(), found.timestamp.as_str()) {
                    true
                } else if str_eq(e.timestamp.as_str(), found.timestamp.as_str()) {
                    let ei = match e.id {
                        Option::Some(i) => i,
                        Option::None => 0,
                    };
                    ei < found_id
                } else {
                    false
                }
            } else {
                false
            };
            if before {
                proof {
                    assert(pred(ev[t as int]));
                }
                count = count + 1;
            } else {
                proof {
                    assert(!pred(ev[t as int]));
                }
            }
            t = t + 1;
        }
        proof {
            assert(ev.skip(ev.len() as int) =~= Seq::<LogEntryV>::empty());
            crate::filtering::lemma_filter_seq_len(ev, pred);
        }
        Some(count / items_per_page + 1)
    }

    /// The one-based page of one session entry under no filters; nothing
    /// when the session holds no entry with this id.
    pub fn find_entry_page_simple(
        &self,
        session_id: &str,
        entry_id: i64,
        items_per_page: usize,
    ) -> (r: Option<usize>)
        requires
            self.wf(),
            items_per_page > 0,
            self@.entries.len() < usize::MAX,
        ensures
            match lookup_session_entry(self@.entries, session_id@, entry_id as int) {
                Option::None => r is None,
                Option::Some(e) => r == Option::Some(
                    ((filter_seq(
                        self@.entries,
                        before_pred(session_id@, Option::None, Option::None, e),
                    ).len() as int / (items_per_page as int)) + 1) as usize,
                ),
            },
    {
        let ghost ev = self@.entries;
        let mut k: usize = 0;
        let mut target: Option<LogEntry> = None;
        proof {
            assert(ev.skip(0) =~= ev);
        }
        while k < self.entries.len() && target.is_none()
            invariant
                k <= self.entries.len(),
                ev == self@.entries,
                match target {
                    Option::Some(e) => lookup_session_entry(ev, session_id@, entry_id as int)
                        == Option::Some(e@),
                    Option::None => lookup_session_entry(ev, session_id@, entry_id as int)
                        == lookup_session_entry(ev.skip(k as int), session_id@, entry_id as int),
                },
            decreases self.entries.len() - k,
        {
            let ghost rest = ev.skip(k as int);
            proof {
                assert(rest[0] == ev[k as int]);
                assert(rest.drop_first() =~= ev.skip(k + 1));
            }
            let e = &self.entries[k];
            let hit = match e.id {
                Option::Some(i) => i == entry_id && str_eq(
                    e.test_session_id.as_str(),
                    session_id,
                ),
                Option::None => false,
            };
            if hit {
                target = Some(e.duplicate());
            }
            k = k + 1;
        }
        let found = match target {
            Option::Some(e) => e,
            Option::None => {
                proof {
                    assert(ev.skip(ev.len() as int) =~= Seq::<LogEntryV>::empty());
                }
                return None;
            },
        };
        let ghost pred = before_pred(session_id@, Option::None, Option::None, found@);
        let found_id = match found.id {
            Option::Some(i) => i,
            Option::None => 0,
        };
        let none_levels: Vec<String> = Vec::new();
        let mut count: usize = 0;
        let mut t: usize = 0;
        proof {
            assert(ev.skip(0) =~= ev);
        }
        while t < self.entries.len()
            invariant
                t <= self.entries.len(),
                ev == self@.entries,
                count <= t,
                pred == before_pred(session_id@, Option::None, Option::None, found@),
                found_id as int == eid(found@),
                filter_seq(ev, pred).len() == count + filter_seq(ev.skip(t as int), pred).len(),
            decreases self.entries.len() - t,
        {
            let ghost rest = ev.skip(t as int);
            proof {
                assert(rest[0] == ev[t as int]);
                assert(rest.drop_first() =~= ev.skip(t + 1));
            }
            let e = &self.entries[t];
            let before = if str_eq(e.test_session_id.as_str(), session_id) {
                if str_lt(e.timestamp.as_str(), found.timestamp.as_str()) {
                    true
                } else if str_eq(e.timestamp.as_str(), found.timestamp.as_str()) {
                    let ei = match e.id {
                        Option::Some(i) => i,
                        Option::None => 0,
                    };
                    ei < found_id
                } else {
                    false
                }
            } else {
                false
            };
            if before {
                proof {
                    assert(pred(ev[t as int]));
                }
                count = count + 1;
            } else {
                proof {
                    assert(!pred(ev[t as int]));
                }
            }
            t = t + 1;
        }
        proof {
            assert(ev.skip(ev.len() as int) =~= Seq::<LogEntryV>::empty());
            crate::filtering::lemma_filter_seq_len(ev, pred);
        }
        Some(count / items_per_page + 1)
    }
    /// The first stored entry with this id, as `lookup_entry`.
    fn lookup_entry_exec(&self, entry_id: i64) -> (r: Option<LogEntry>)
        ensures
            match r {
                Option::Some(e) => lookup_entry(self@.entries, entry_id as int) == Option::Some(
                    e@,
                ),
                Option::None => lookup_entry(self@.entries, entry_id as int) is None,
            },
    {
        let ghost ev = self@.entries;
        let mut k: usize = 0;
        let mut target: Option<LogEntry> = None;
        proof {
            assert(ev.skip(0) =~= ev);
        }
        while k < self.entries.len() && target.is_none()
            invariant
                k <= self.entries.len(),
                ev == self@.entries,
                match target {
                    Option::Some(e) => lookup_entry(ev, entry_id as int) == Option::Some(e@),
                    Option::None => lookup_entry(ev, entry_id as int) == lookup_entry(
                        ev.skip(k as int),
                        entry_id as int,
                    ),
                },
            decreases self.entries.len() - k,
        {
            let ghost rest = ev.skip(k as int);
            proof {
                assert(rest[0] == ev[k as int]);
                assert(rest.drop_first() =~= ev.skip(k + 1));
            }
            let e = &self.entries[k];
            let hit = match e.id {
                Option::Some(i) => i == entry_id,
                Option::None => false,
            };
            if hit {
                target = Some(e.duplicate());
            }
            k = k + 1;
        }
        proof {
            if target is None {
                assert(ev.skip(ev.len() as int) =~= Seq::<LogEntryV>::empty());
            }
        }
        target
    }

    /// The distinct level tokens of one session, in ascending order.
    pub fn get_session_log_levels(&self, session_id: &str) -> (r: Vec<String>)
        requires
            self.wf(),
        ensures
            strs_view(r@) == stable_sort(
                session_levels_acc(self@.entries, session_id@),
                lex_le_fn(),
            ),
    {
        let ghost ev = self@.entries;
        let mut acc: Vec<String> = Vec::new();
        let mut k: usize = 0;
        proof {
            assert(ev.take(0) =~= Seq::<LogEntryV>::empty());
            assert(strs_view(acc@) =~= session_levels_acc(ev.take(0), session_id@));
        }
        while k < self.entries.len()
            invariant
                k <= self.entries.len(),
                ev == self@.entries,
                strs_view(acc@) == session_levels_acc(ev.take(k as int), session_id@),
            decreases self.entries.len() - k,
        {
            proof {
                assert(ev.take(k + 1).drop_last() =~= ev.take(k as int));
                assert(ev.take(k + 1).last() == ev[k as int]);
            }
            let e = &self.entries[k];
            if str_eq(e.test_session_id.as_str(), session_id) {
                let ghost av = strs_view(acc@);
                let mut j: usize = 0;
                let mut present = false;
                while j < acc.len()
                    invariant
                        j <= acc.len(),
                        av == strs_view(acc@),
                        present ==> av.contains(e@.level),
                        !present ==> forall|i: int| 0 <= i < j ==> av[i] != e@.level,
                    decreases acc.len() - j,
                {
                    if str_eq(acc[j].as_str(), e.level.as_str()) {
                        present = true;
                        proof {
                            assert(av[j as int] == e@.level);
                        }
                    }
                    j = j + 1;
                }
                if !present {
                    proof {
                        if av.contains(e@.level) {
                            let i = choose|i: int| 0 <= i < av.len() && av[i] == e@.level;
                            assert(false);
                        }
                    }
                    let ghost a0 = acc@;
                    acc.push(e.level.clone());
                    proof {
                        assert(strs_view(acc@) =~= strs_view(a0).push(e@.level));
                    }
                }
            }
            k = k + 1;
        }
        proof {
            assert(ev.take(ev.len() as int) =~= ev);
        }
        let ghost dv = strs_view(acc@);
        let mut r: Vec<String> = Vec::new();
        let mut i: usize = 0;
        proof {
            assert(dv.take(0) =~= Seq::<Seq<char>>::empty());
            assert(strs_view(r@) =~= stable_sort(dv.take(0), lex_le_fn()));
        }
        while i < acc.len()
            invariant
                i <= acc.len(),
                dv == strs_view(acc@),
                strs_view(r@) == stable_sort(dv.take(i as int), lex_le_fn()),
            decreases acc.len() - i,
        {
            let x = acc[i].clone();
            let ghost rv = strs_view(r@);
            let mut j: usize = 0;
            while j < r.len() && (str_lt(r[j].as_str(), x.as_str()) || str_eq(
                r[j].as_str(),
                x.as_str(),
            ))
                invariant
                    j <= r.len(),
                    x@ == dv[i as int],
                    i < acc.len(),
                    dv == strs_view(acc@),
                    rv == strs_view(r@),
                    forall|k2: int| 0 <= k2 < j ==> lex_le_fn()(#[trigger] rv[k2], dv[i as int]),
                decreases r.len() - j,
            {
                j = j + 1;
            }
            proof {
                assert(j < r.len() ==> !lex_le_fn()(rv[j as int], dv[i as int]));
                lemma_insert_by_at(dv[i as int], rv, lex_le_fn(), j as int);
                assert(dv.take(i + 1).drop_last() =~= dv.take(i as int));
                assert(dv.take(i + 1).last() == dv[i as int]);
            }
            r.insert(j, x);
            proof {
                assert(strs_view(r@) =~= rv.insert(j as int, dv[i as int]));
            }
            i = i + 1;
        }
        proof {
            assert(dv.take(acc@.len() as int) =~= dv);
        }
        r
    }

    /// Every stored session, most recently parsed first, with the stamps
    /// the listing does not reproduce cleared.
    pub fn get_sessions(&self) -> (r: Vec<TestSession>)
        requires
            self.wf(),
        ensures
            r@.map_values(|s: TestSession| s@) == scrub_sessions(
                stable_sort(self@.sessions, sess_desc_fn()),
            ),
    {
        let ghost sv = self@.sessions;
        let mut sorted: Vec<TestSession> = Vec::new();
        let mut i: usize = 0;
        proof {
            assert(sv.take(0) =~= Seq::<TestSessionV>::empty());
            assert(sorted@.map_values(|s: TestSession| s@) =~= stable_sort(
                sv.take(0),
                sess_desc_fn(),
            ));
        }
        while i < self.sessions.len()
            invariant
                i <= self.sessions.len(),
                sv == self@.sessions,
                sorted@.map_values(|s: TestSession| s@) == stable_sort(
                    sv.take(i as int),
                    sess_desc_fn(),
                ),
            decreases self.sessions.len() - i,
        {
            let x = self.sessions[i].duplicate();
            let ghost rv = sorted@.map_values(|s: TestSession| s@);
            let mut j: usize = 0;
            while j < sorted.len() && sess_desc_exec(&sorted[j], &x)
                invariant
                    j <= sorted.len(),
                    x == self.sessions@[i as int],
                    i < self.sessions.len(),
                    sv == self@.sessions,
                    rv == sorted@.map_values(|s: TestSession| s@),
                    forall|k2: int|
                        0 <= k2 < j ==> sess_desc_fn()(#[trigger] rv[k2], sv[i as int]),
                decreases sorted.len() - j,
            {
                j = j + 1;
            }
            proof {
                assert(j < sorted.len() ==> !sess_desc_fn()(rv[j as int], sv[i as int]));
                lemma_insert_by_at(sv[i as int], rv, sess_desc_fn(), j as int);
                assert(sv.take(i + 1).drop_last() =~= sv.take(i as int));
                assert(sv.take(i + 1).last() == sv[i as int]);
            }
            sorted.insert(j, x);
            proof {
                assert(sorted@.map_values(|s: TestSession| s@) =~= rv.insert(
                    j as int,
                    sv[i as int],
                ));
            }
            i = i + 1;
        }
        proof {
            assert(sv.take(self.sessions@.len() as int) =~= sv);
        }
        let ghost ordered = stable_sort(sv, sess_desc_fn());
        let mut r: Vec<TestSession> = Vec::new();
        let mut m: usize = 0;
        proof {
            assert(r@.map_values(|s: TestSession| s@) =~= scrub_sessions(ordered).take(0));
            crate::sorting::lemma_stable_sort_multiset(sv, sess_desc_fn());
        }
        while m < sorted.len()
            invariant
                m <= sorted.len(),
                sorted@.map_values(|s: TestSession| s@) == ordered,
                r@.map_values(|s: TestSession| s@) == scrub_sessions(ordered).take(m as int),
            decreases sorted.len() - m,
        {
            let mut s = sorted[m].duplicate();
            s.created_at = None;
            s.last_parsed_at = None;
            let ghost r0 = r@;
            r.push(s);
            proof {
                assert(scrub_sessions(ordered).take(m + 1) =~= scrub_sessions(ordered).take(
                    m as int,
                ).push(scrub_session(ordered[m as int])));
                assert(r@.map_values(|x: TestSession| x@) =~= r0.map_values(
                    |x: TestSession| x@,
                ).push(scrub_session(ordered[m as int])));
            }
            m = m + 1;
        }
        proof {
            assert(scrub_sessions(ordered).take(sorted@.len() as int) =~= scrub_sessions(ordered));
        }
        r
    }

    /// Every bookmark of one session, joined with its entry, ordered by
    /// the entry's timestamp.
    pub fn get_bookmarks(&self, session_id: &str) -> (r: Vec<(Bookmark, LogEntry)>)
        requires
            self.wf(),
        ensures
            r@.map_values(|p: (Bookmark, LogEntry)| (p.0@, p.1@)) == stable_sort(
                bookmark_join(self@.bookmarks, self@.entries, session_id@),
                pair_le_fn(),
            ),
    {
        let ghost bms = self@.bookmarks;
        let ghost ev = self@.entries;
        let mut pairs: Vec<(Bookmark, LogEntry)> = Vec::new();
        let mut k: usize = 0;
        proof {
            assert(bms.skip(0) =~= bms);
            assert(pairs@.map_values(|p: (Bookmark, LogEntry)| (p.0@, p.1@)) + bookmark_join(
                bms.skip(0),
                ev,
                session_id@,
            ) =~= bookmark_join(bms, ev, session_id@));
        }
        while k < self.bookmarks.len()
            invariant
                k <= self.bookmarks.len(),
                bms == self@.bookmarks,
                ev == self@.entries,
                bookmark_join(bms, ev, session_id@) == pairs@.map_values(
                    |p: (Bookmark, LogEntry)| (p.0@, p.1@),
                ) + bookmark_join(bms.skip(k as int), ev, session_id@),
            decreases self.bookmarks.len() - k,
        {
            let ghost rest = bms.skip(k as int);
            proof {
                assert(rest[0] == bms[k as int]);
                assert(rest.drop_first() =~= bms.skip(k + 1));
            }
            let b = &self.bookmarks[k];
            match self.lookup_entry_exec(b.log_entry_id) {
                Option::Some(e) => {
                    if str_eq(e.test_session_id.as_str(), session_id) {
                        let ghost p0 = pairs@;
                        pairs.push((b.duplicate(), e));
                        proof {
                            assert(pairs@.map_values(|p: (Bookmark, LogEntry)| (p.0@, p.1@))
                                =~= p0.map_values(|p: (Bookmark, LogEntry)| (p.0@, p.1@)).push(
                                (bms[k as int], lookup_entry(ev, bms[k as int].log_entry_id)->0),
                            ));
                            assert(pairs@.map_values(|p: (Bookmark, LogEntry)| (p.0@, p.1@))
                                + bookmark_join(bms.skip(k + 1), ev, session_id@)
                                =~= p0.map_values(|p: (Bookmark, LogEntry)| (p.0@, p.1@)) + (seq![
                                (bms[k as int], lookup_entry(ev, bms[k as int].log_entry_id)->0),
                            ] + bookmark_join(bms.skip(k + 1), ev, session_id@)));
                        }
                    }
                },
                Option::None => {
                },
            }
            k = k + 1;
        }
        proof {
            assert(bms.skip(bms.len() as int) =~= Seq::<BookmarkV>::empty());
            assert(pairs@.map_values(|p: (Bookmark, LogEntry)| (p.0@, p.1@))
                + Seq::<(BookmarkV, LogEntryV)>::empty() =~= pairs@.map_values(
                |p: (Bookmark, LogEntry)| (p.0@, p.1@),
            ));
        }
        let ghost pv = pairs@.map_values(|p: (Bookmark, LogEntry)| (p.0@, p.1@));
        let mut r: Vec<(Bookmark, LogEntry)> = Vec::new();
        let mut i: usize = 0;
        proof {
            assert(pv.take(0) =~= Seq::<(BookmarkV, LogEntryV)>::empty());
            assert(r@.map_values(|p: (Bookmark, LogEntry)| (p.0@, p.1@)) =~= stable_sort(
                pv.take(0),
                pair_le_fn(),
            ));
        }
        while i < pairs.len()
            invariant
                i <= pairs.len(),
                pv == pairs@.map_values(|p: (Bookmark, LogEntry)| (p.0@, p.1@)),
                r@.map_values(|p: (Bookmark, LogEntry)| (p.0@, p.1@)) == stable_sort(
                    pv.take(i as int),
                    pair_le_fn(),
                ),
            decreases pairs.len() - i,
        {
            let x = (pairs[i].0.duplicate(), pairs[i].1.duplicate());
            let ghost rv = r@.map_values(|p: (Bookmark, LogEntry)| (p.0@, p.1@));
            proof {
                assert((x.0@, x.1@) == pv[i as int]);
            }
            let mut j: usize = 0;
            while j < r.len() && (str_lt(r[j].1.timestamp.as_str(), x.1.timestamp.as_str())
                || str_eq(r[j].1.timestamp.as_str(), x.1.timestamp.as_str()))
                invariant
                    j <= r.len(),
                    (x.0@, x.1@) == pv[i as int],
                    i < pairs.len(),
                    rv == r@.map_values(|p: (Bookmark, LogEntry)| (p.0@, p.1@)),
                    forall|k2: int| 0 <= k2 < j ==> pair_le_fn()(#[trigger] rv[k2], pv[i as int]),
                decreases r.len() - j,
            {
                j = j + 1;
            }
            proof {
                assert(j < r.len() ==> !pair_le_fn()(rv[j as int], pv[i as int]));
                lemma_insert_by_at(pv[i as int], rv, pair_le_fn(), j as int);
                assert(pv.take(i + 1).drop_last() =~= pv.take(i as int));
                assert(pv.take(i + 1).last() == pv[i as int]);
            }
            r.insert(j, x);
            proof {
                assert(r@.map_values(|p: (Bookmark, LogEntry)| (p.0@, p.1@)) =~= rv.insert(
                    j as int,
                    pv[i as int],
                ));
            }
            i = i + 1;
        }
        proof {
            assert(pv.take(pairs@.len() as int) =~= pv);
        }
        r
    }

    /// Deletes one session and everything under it, in one step: its
    /// bookmarks, its entries, and the session row itself.
    pub fn delete_session(&mut self, session_id: &str)
        requires
            old(self).wf(),
        ensures
            final(self).wf(),
            final(self)@.next_entry_id == old(self)@.next_entry_id,
            final(self)@.next_bookmark_id == old(self)@.next_bookmark_id,
            final(self)@.sessions == filter_seq(
                old(self)@.sessions,
                keep_session_fn(session_id@),
            ),
            final(self)@.entries == filter_seq(old(self)@.entries, keep_entry_fn(session_id@)),
            final(self)@.bookmarks == filter_seq(
                old(self)@.bookmarks,
                keep_bookmark_fn(old(self)@.entries, session_id@),
            ),
    {
        let ghost ev = self@.entries;
        let ghost bms = self@.bookmarks;
        let ghost ssv = self@.sessions;
        // bookmarks of the session's entries go first
        let ghost pb = keep_bookmark_fn(ev, session_id@);
        let mut new_bms: Vec<Bookmark> = Vec::new();
        let mut k: usize = 0;
        proof {
            assert(bms.skip(0) =~= bms);
            assert(new_bms@.map_values(|b: Bookmark| b@) + filter_seq(bms.skip(0), pb)
                =~= filter_seq(bms, pb));
        }
        while k < self.bookmarks.len()
            invariant
                k <= self.bookmarks.len(),
                bms == self@.bookmarks,
                ev == self@.entries,
                pb == keep_bookmark_fn(ev, session_id@),
                filter_seq(bms, pb) == new_bms@.map_values(|b: Bookmark| b@) + filter_seq(
                    bms.skip(k as int),
                    pb,
                ),
            decreases self.bookmarks.len() - k,
        {
            let ghost rest = bms.skip(k as int);
            proof {
                assert(rest[0] == bms[k as int]);
                assert(rest.drop_first() =~= bms.skip(k + 1));
            }
            let b = &self.bookmarks[k];
            let ghost bkv = b@;
            proof {
                assert(bkv == bms[k as int]);
            }
            let mut in_session = false;
            let mut j: usize = 0;
            while j < self.entries.len()
                invariant
                    j <= self.entries.len(),
                    ev == self@.entries,
                    bms == self@.bookmarks,
                    k < self.bookmarks.len(),
                    bkv == bms[k as int],
                    b@ == bkv,
                    in_session ==> bookmark_in_session(ev, session_id@, bkv),
                    !in_session ==> forall|i: int|
                        0 <= i < j ==> !((#[trigger] ev[i]).test_session_id == session_id@
                            && ev[i].id == Option::Some(bkv.log_entry_id)),
                decreases self.entries.len() - j,
            {
                let e = &self.entries[j];
                let hit = match e.id {
                    Option::Some(i) => i == b.log_entry_id && str_eq(
                        e.test_session_id.as_str(),
                        session_id,
                    ),
                    Option::None => false,
                };
                if hit {
                    in_session = true;
                    proof {
                        assert(ev[j as int].test_session_id == session_id@ && ev[j as int].id
                            == Option::Some(bkv.log_entry_id));
                    }
                }
                j = j + 1;
            }
            if !in_session {
                proof {
                    if bookmark_in_session(ev, session_id@, bms[k as int]) {
                        let i = choose|i: int|
                            0 <= i < ev.len() && (#[trigger] ev[i]).test_session_id == session_id@
                                && ev[i].id == Option::Some(bms[k as int].log_entry_id);
                        assert(false);
                    }
                    assert(pb(bms[k as int]));
                }
                let ghost n0 = new_bms@;
                new_bms.push(b.duplicate());
                proof {
                    assert(new_bms@.map_values(|x: Bookmark| x@) =~= n0.map_values(
                        |x: Bookmark| x@,
                    ).push(bms[k as int]));
                    assert(new_bms@.map_values(|x: Bookmark| x@) + filter_seq(
                        bms.skip(k + 1),
                        pb,
                    ) =~= n0.map_values(|x: Bookmark| x@) + (seq![bms[k as int]] + filter_seq(
                        bms.skip(k + 1),
                        pb,
                    )));
                }
            } else {
                proof {
                    assert(!pb(bms[k as int]));
                }
            }
            k = k + 1;
        }
        proof {
            assert(bms.skip(bms.len() as int) =~= Seq::<BookmarkV>::empty());
            assert(new_bms@.map_values(|b: Bookmark| b@) + Seq::<BookmarkV>::empty() =~= new_bms@
                .map_values(|b: Bookmark| b@));
        }
        self.bookmarks = new_bms;
        // then the entries
        let ghost pe = keep_entry_fn(session_id@);
        let mut new_es: Vec<LogEntry> = Vec::new();
        let mut t: usize = 0;
        proof {
            assert(ev.skip(0) =~= ev);
            assert(new_es@.map_values(|e: LogEntry| e@) + filter_seq(ev.skip(0), pe)
                =~= filter_seq(ev, pe));
        }
        while t < self.entries.len()
            invariant
                t <= self.entries.len(),
                ev == self@.entries,
                pe == keep_entry_fn(session_id@),
                filter_seq(ev, pe) == new_es@.map_values(|e: LogEntry| e@) + filter_seq(
                    ev.skip(t as int),
                    pe,
                ),
            decreases self.entries.len() - t,
        {
            let ghost rest = ev.skip(t as int);
            proof {
                assert(rest[0] == ev[t as int]);
                assert(rest.drop_first() =~= ev.skip(t + 1));
            }
            let e = &self.entries[t];
            if !str_eq(e.test_session_id.as_str(), session_id) {
                let ghost n0 = new_es@;
                new_es.push(e.duplicate());
                proof {
                    assert(new_es@.map_values(|x: LogEntry| x@) =~= n0.map_values(
                        |x: LogEntry| x@,
                    ).push(ev[t as int]));
                    assert(new_es@.map_values(|x: LogEntry| x@) + filter_seq(ev.skip(t + 1), pe)
                        =~= n0.map_values(|x: LogEntry| x@) + (seq![ev[t as int]] + filter_seq(
                        ev.skip(t + 1),
                        pe,
                    )));
                }
            } else {
                proof {
                    assert(!pe(ev[t as int]));
                }
            }
            t = t + 1;
        }
        proof {
            assert(ev.skip(ev.len() as int) =~= Seq::<LogEntryV>::empty());
            assert(new_es@.map_values(|e: LogEntry| e@) + Seq::<LogEntryV>::empty() =~= new_es@
                .map_values(|e: LogEntry| e@));
        }
        self.entries = new_es;
        // and the session row
        let ghost ps = keep_session_fn(session_id@);
        let mut new_ss: Vec<TestSession> = Vec::new();
        let mut u: usize = 0;
        proof {
            assert(ssv.skip(0) =~= ssv);
            assert(new_ss@.map_values(|s: TestSession| s@) + filter_seq(ssv.skip(0), ps)
                =~= filter_seq(ssv, ps));
        }
        while u < self.sessions.len()
            invariant
                u <= self.sessions.len(),
                ssv == self@.sessions,
                ps == keep_session_fn(session_id@),
                filter_seq(ssv, ps) == new_ss@.map_values(|s: TestSession| s@) + filter_seq(
                    ssv.skip(u as int),
                    ps,
                ),
            decreases self.sessions.len() - u,
        {
            let ghost rest = ssv.skip(u as int);
            proof {
                assert(rest[0] == ssv[u as int]);
                assert(rest.drop_first() =~= ssv.skip(u + 1));
            }
            let s = &self.sessions[u];
            if !str_eq(s.id.as_str(), session_id) {
                let ghost n0 = new_ss@;
                new_ss.push(s.duplicate());
                proof {
                    assert(new_ss@.map_values(|x: TestSession| x@) =~= n0.map_values(
                        |x: TestSession| x@,
                    ).push(ssv[u as int]));
                    assert(new_ss@.map_values(|x: TestSession| x@) + filter_seq(
                        ssv.skip(u + 1),
                        ps,
                    ) =~= n0.map_values(|x: TestSession| x@) + (seq![ssv[u as int]] + filter_seq(
                        ssv.skip(u + 1),
                        ps,
                    )));
                }
            } else {
                proof {
                    assert(!ps(ssv[u as int]));
                }
            }
            u = u + 1;
        }
        proof {
            assert(ssv.skip(ssv.len() as int) =~= Seq::<TestSessionV>::empty());
            assert(new_ss@.map_values(|s: TestSession| s@) + Seq::<TestSessionV>::empty()
                =~= new_ss@.map_values(|s: TestSession| s@));
        }
        self.sessions = new_ss;
        proof {
            lemma_filter_wf_bookmarks(bms, pb, self@.next_bookmark_id);
            lemma_filter_wf_entries(ev, pe, self@.next_entry_id);
            lemma_filter_wf_sessions(ssv, ps);
        }
    }

    /// Finds the first session with this name and source and deletes it
    /// whole, handing back its id; nothing is touched where none matches.
    pub fn delete_session_by_name_and_path(&mut self, name: &str, directory_path: &str) -> (r:
        Option<String>)
        requires
            old(self).wf(),
        ensures
            final(self).wf(),
            final(self)@.next_entry_id == old(self)@.next_entry_id,
            final(self)@.next_bookmark_id == old(self)@.next_bookmark_id,
            match lookup_session_by(old(self)@.sessions, name@, directory_path@) {
                Option::None => r is None && *final(self) == *old(self),
                Option::Some(s) => {
                    &&& r is Some
                    &&& r->0@ == s.id
                    &&& final(self)@.sessions == filter_seq(
                        old(self)@.sessions,
                        keep_session_fn(s.id),
                    )
                    &&& final(self)@.entries == filter_seq(old(self)@.entries, keep_entry_fn(s.id))
                    &&& final(self)@.bookmarks == filter_seq(
                        old(self)@.bookmarks,
                        keep_bookmark_fn(old(self)@.entries, s.id),
                    )
                },
            },
    {
        let ghost ssv = self@.sessions;
        let mut k: usize = 0;
        let mut found: Option<String> = None;
        proof {
            assert(ssv.skip(0) =~= ssv);
        }
        while k < self.sessions.len() && found.is_none()
            invariant
                k <= self.sessions.len(),
                *self == *old(self),
                old(self).wf(),
                ssv == self@.sessions,
                match found {
                    Option::Some(id) => lookup_session_by(ssv, name@, directory_path@) is Some
                        && lookup_session_by(ssv, name@, directory_path@)->0.id == id@,
                    Option::None => lookup_session_by(ssv, name@, directory_path@)
                        == lookup_session_by(ssv.skip(k as int), name@, directory_path@),
                },
            decreases self.sessions.len() - k,
        {
            let ghost rest = ssv.skip(k as int);
            proof {
                assert(rest[0] == ssv[k as int]);
                assert(rest.drop_first() =~= ssv.skip(k + 1));
            }
            let s = &self.sessions[k];
            if str_eq(s.name.as_str(), name) && str_eq(
                s.directory_path.as_str(),
                directory_path,
            ) {
                found = Some(s.id.clone());
            }
            k = k + 1;
        }
        match found {
            Option::Some(id) => {
                self.delete_session(id.as_str());
                Some(id)
            },
            Option::None => {
                proof {
                    assert(ssv.skip(ssv.len() as int) =~= Seq::<TestSessionV>::empty());
                }
                None
            },
        }
    }

    /// Sets the color and title of the bookmark with this id, leaving
    /// every other row unchanged: the upgrade-in-place of the synthesizer.
    fn update_bookmark_color_and_title(&mut self, bookmark_id: i64, color: &str, title: &str)
        requires
            old(self).wf(),
        ensures
            final(self).wf(),
            final(self)@.sessions == old(self)@.sessions,
            final(self)@.entries == old(self)@.entries,
            final(self)@.next_entry_id == old(self)@.next_entry_id,
            final(self)@.next_bookmark_id == old(self)@.next_bookmark_id,
            final(self)@.bookmarks == recolored(
                old(self)@.bookmarks,
                bookmark_id as int,
                color@,
                title@,
            ),
    {
        let ghost bms = self@.bookmarks;
        let n = self.bookmarks.len();
        let mut k: usize = 0;
        while k < n
            invariant
                k <= n,
                n == self.bookmarks.len(),
                old(self).wf(),
                bms == old(self)@.bookmarks,
                self@.sessions == old(self)@.sessions,
                self@.entries == old(self)@.entries,
                self@.next_entry_id == old(self)@.next_entry_id,
                self@.next_bookmark_id == old(self)@.next_bookmark_id,
                self@.bookmarks.len() == bms.len(),
                forall|i: int|
                    0 <= i < bms.len() ==> #[trigger] self@.bookmarks[i] == (if i < k {
                        recolor_one(bms[i], bookmark_id as int, color@, title@)
                    } else {
                        bms[i]
                    }),
            decreases n - k,
        {
            let ghost pre = self@.bookmarks;
            proof {
                assert forall|i: int|
                    0 <= i < bms.len() implies #[trigger] pre[i] == (if i < k {
                        recolor_one(bms[i], bookmark_id as int, color@, title@)
                    } else {
                        bms[i]
                    }) by {
                    assert(pre[i] == self@.bookmarks[i]);
                }
            }
            let hit = match self.bookmarks[k].id {
                Option::Some(i) => i == bookmark_id,
                Option::None => false,
            };
            let ghost v0 = self.bookmarks@;
            proof {
                assert(v0[k as int]@ == pre[k as int]);
                assert(pre[k as int] == bms[k as int]);
            }
            if hit {
                let mut b = self.bookmarks.remove(k);
                proof {
                    assert(b@ == bms[k as int]);
                }
                b.color = Some(String::from_str(color));
                b.title = Some(String::from_str(title));
                let ghost bv = b@;
                self.bookmarks.insert(k, b);
                proof {
                    v0.remove_ensures(k as int);
                    v0.remove(k as int).insert_ensures(k as int, self.bookmarks@[k as int]);
                    assert(self.bookmarks@[k as int]@ == bv);
                    assert(bv.id == bms[k as int].id);
                    assert(bv.title == Option::Some(title@));
                    assert(bv.color == Option::Some(color@));
                    assert(bms[k as int].id == Option::Some(bookmark_id as int));
                    assert(bv == recolor_one(bms[k as int], bookmark_id as int, color@, title@));
                    assert forall|i: int|
                        0 <= i < v0.len() && i != k implies self.bookmarks@[i] == v0[i] by {
                        if i < k {
                            assert(v0.remove(k as int)[i] == v0[i]);
                        } else {
                            assert(v0.remove(k as int)[i - 1] == v0[i]);
                            assert(self.bookmarks@[i] == v0.remove(k as int)[i - 1]);
                        }
                    }
                }
            }
            proof {
                assert forall|i: int|
                    0 <= i < bms.len() implies #[trigger] self@.bookmarks[i] == (if i < k + 1 {
                        recolor_one(bms[i], bookmark_id as int, color@, title@)
                    } else {
                        bms[i]
                    }) by {
                    if i == k {
                        if hit {
                            assert(self@.bookmarks[i] == self.bookmarks@[i]@);
                        } else {
                            assert(self@.bookmarks[i] == pre[i]);
                            assert(bms[i].id != Option::Some(bookmark_id as int));
                            assert(recolor_one(bms[i], bookmark_id as int, color@, title@)
                                == bms[i]);
                        }
                    } else {
                        if hit {
                            assert(self.bookmarks@[i] == v0[i]);
                            assert(self@.bookmarks[i] == self.bookmarks@[i]@);
                            assert(v0[i]@ == pre[i]);
                        }
                        assert(self@.bookmarks[i] == pre[i]);
                    }
                }
            }
            k = k + 1;
        }
        proof {
            assert(self@.bookmarks =~= recolored(bms, bookmark_id as int, color@, title@));
            assert forall|i: int, j: int|
                0 <= i < j < self@.bookmarks.len() implies bid(#[trigger] self@.bookmarks[i])
                < bid(#[trigger] self@.bookmarks[j]) by {
                assert(bid(self@.bookmarks[i]) == bid(bms[i]));
                assert(bid(self@.bookmarks[j]) == bid(bms[j]));
            }
            assert forall|i: int|
                0 <= i < self@.bookmarks.len() implies (#[trigger] self@.bookmarks[i]).id is Some
                && 1 <= bid(self@.bookmarks[i]) && bid(self@.bookmarks[i])
                < self@.next_bookmark_id by {
                assert(bms[i].id is Some);
            }
        }
    }

    /// Collects one synthesizer pass's entries: the selected rows of the
    /// session, in timestamp order.
    fn collect_pass(&self, session_id: &str, mode: u8) -> (r: Vec<LogEntry>)
        requires
            mode == 1 || mode == 2 || mode == 3,
        ensures
            r@.map_values(|e: LogEntry| e@) == pass_list(
                self@.entries,
                mode as int,
                session_id@,
            ),
            r@.len() <= self@.entries.len(),
    {
        let ghost ev = self@.entries;
        let ghost p = pass_sel(mode as int, session_id@);
        let mut picked: Vec<LogEntry> = Vec::new();
        let mut k: usize = 0;
        proof {
            assert(ev.skip(0) =~= ev);
            assert(picked@.map_values(|e: LogEntry| e@) + filter_seq(ev.skip(0), p)
                =~= filter_seq(ev, p));
        }
        while k < self.entries.len()
            invariant
                k <= self.entries.len(),
                ev == self@.entries,
                mode == 1 || mode == 2 || mode == 3,
                p == pass_sel(mode as int, session_id@),
                picked@.len() <= k,
                filter_seq(ev, p) == picked@.map_values(|e: LogEntry| e@) + filter_seq(
                    ev.skip(k as int),
                    p,
                ),
            decreases self.entries.len() - k,
        {
            let ghost rest = ev.skip(k as int);
            proof {
                assert(rest[0] == ev[k as int]);
                assert(rest.drop_first() =~= ev.skip(k + 1));
            }
            let e = &self.entries[k];
            let sess = str_eq(e.test_session_id.as_str(), session_id);
            let fails = ends_with_str(e.message.as_str(), "[FAIL]");
            let marker = str_eq(e.level.as_str(), "MARKER");
            let keep = if mode == 1 {
                sess && fails
            } else if mode == 2 {
                sess && marker && contains_sub(e.message.as_str(), "[STEP") && !fails
            } else {
                sess && (contains_sub(e.message.as_str(), "###") || marker) && !fails
                    && !contains_sub(e.message.as_str(), "[STEP")
            };
            if keep {
                let ghost m0 = picked@;
                picked.push(e.duplicate());
                proof {
                    assert(p(ev[k as int]));
                    assert(picked@.map_values(|x: LogEntry| x@) =~= m0.map_values(
                        |x: LogEntry| x@,
                    ).push(ev[k as int]));
                    assert(picked@.map_values(|x: LogEntry| x@) + filter_seq(ev.skip(k + 1), p)
                        =~= m0.map_values(|x: LogEntry| x@) + (seq![ev[k as int]] + filter_seq(
                        ev.skip(k + 1),
                        p,
                    )));
                }
            } else {
                proof {
                    assert(!p(ev[k as int]));
                }
            }
            k = k + 1;
        }
        proof {
            assert(ev.skip(ev.len() as int) =~= Seq::<LogEntryV>::empty());
            assert(picked@.map_values(|e: LogEntry| e@) + Seq::<LogEntryV>::empty() =~= picked@
                .map_values(|e: LogEntry| e@));
        }
        let ghost pv = picked@.map_values(|e: LogEntry| e@);
        proof {
            crate::sorting::lemma_stable_sort_multiset(pv, ts_le_fn());
        }
        let mut r: Vec<LogEntry> = Vec::new();
        let mut i: usize = 0;
        proof {
            assert(pv.take(0) =~= Seq::<LogEntryV>::empty());
            assert(r@.map_values(|e: LogEntry| e@) =~= stable_sort(pv.take(0), ts_le_fn()));
        }
        while i < picked.len()
            invariant
                i <= picked.len(),
                pv == picked@.map_values(|e: LogEntry| e@),
                r@.map_values(|e: LogEntry| e@) == stable_sort(pv.take(i as int), ts_le_fn()),
                r@.len() == i,
            decreases picked.len() - i,
        {
            let x = picked[i].duplicate();
            let ghost rv = r@.map_values(|e: LogEntry| e@);
            let mut j: usize = 0;
            while j < r.len() && (str_lt(r[j].timestamp.as_str(), x.timestamp.as_str()) || str_eq(
                r[j].timestamp.as_str(),
                x.timestamp.as_str(),
            ))
                invariant
                    j <= r.len(),
                    x == picked@[i as int],
                    i < picked.len(),
                    pv == picked@.map_values(|e: LogEntry| e@),
                    rv == r@.map_values(|e: LogEntry| e@),
                    forall|k2: int| 0 <= k2 < j ==> ts_le_fn()(#[trigger] rv[k2], pv[i as int]),
                decreases r.len() - j,
            {
                j = j + 1;
            }
            proof {
                assert(j < r.len() ==> !ts_le_fn()(rv[j as int], pv[i as int]));
                lemma_insert_by_at(pv[i as int], rv, ts_le_fn(), j as int);
                assert(pv.take(i + 1).drop_last() =~= pv.take(i as int));
                assert(pv.take(i + 1).last() == pv[i as int]);
            }
            r.insert(j, x);
            proof {
                assert(r@.map_values(|e: LogEntry| e@) =~= rv.insert(j as int, pv[i as int]));
            }
            i = i + 1;
        }
        proof {
            assert(pv.take(picked@.len() as int) =~= pv);
            crate::filtering::lemma_filter_seq_len(ev, p);
            crate::sorting::lemma_stable_sort_multiset(pv, ts_le_fn());
        }
        r
    }

    /// Runs one upgrading pass over its entry list, threading the list of
    /// created and upgraded rows.
    fn run_upgrade_pass(
        &mut self,
        list: &Vec<LogEntry>,
        color: &str,
        fixed: &str,
        use_message: bool,
        created: &mut Vec<Bookmark>,
    )
        requires
            old(self).wf(),
            old(self)@.next_bookmark_id + list@.len() <= i64::MAX,
        ensures
            final(self).wf(),
            final(self)@.sessions == old(self)@.sessions,
            final(self)@.entries == old(self)@.entries,
            final(self)@.next_entry_id == old(self)@.next_entry_id,
            final(self)@.next_bookmark_id <= old(self)@.next_bookmark_id + list@.len(),
            ({
                let st = run_steps(
                    SynthState {
                        bookmarks: old(self)@.bookmarks,
                        next_id: old(self)@.next_bookmark_id,
                        created: old(created)@.map_values(|b: Bookmark| b@),
                    },
                    list@.map_values(|e: LogEntry| e@),
                    upgrade_fn(color@, fixed@, use_message),
                );
                final(self)@.bookmarks == st.bookmarks && final(self)@.next_bookmark_id
                    == st.next_id && final(created)@.map_values(|b: Bookmark| b@) == st.created
            }),
    {
        let ghost lv = list@.map_values(|e: LogEntry| e@);
        let ghost step = upgrade_fn(color@, fixed@, use_message);
        let ghost st0 = SynthState {
            bookmarks: self@.bookmarks,
            next_id: self@.next_bookmark_id,
            created: created@.map_values(|b: Bookmark| b@),
        };
        let mut k: usize = 0;
        proof {
            assert(lv.skip(0) =~= lv);
        }
        while k < list.len()
            invariant
                k <= list.len(),
                lv == list@.map_values(|e: LogEntry| e@),
                step == upgrade_fn(color@, fixed@, use_message),
                self.wf(),
                self@.sessions == old(self)@.sessions,
                self@.entries == old(self)@.entries,
                self@.next_entry_id == old(self)@.next_entry_id,
                self@.next_bookmark_id <= old(self)@.next_bookmark_id + k,
                old(self)@.next_bookmark_id + lv.len() <= i64::MAX,
                st0 == (SynthState {
                    bookmarks: old(self)@.bookmarks,
                    next_id: old(self)@.next_bookmark_id,
                    created: old(created)@.map_values(|b: Bookmark| b@),
                }),
                run_steps(st0, lv, step) == run_steps(
                    SynthState {
                        bookmarks: self@.bookmarks,
                        next_id: self@.next_bookmark_id,
                        created: created@.map_values(|b: Bookmark| b@),
                    },
                    lv.skip(k as int),
                    step,
                ),
            decreases list.len() - k,
        {
            let ghost rest = lv.skip(k as int);
            let ghost cur = SynthState {
                bookmarks: self@.bookmarks,
                next_id: self@.next_bookmark_id,
                created: created@.map_values(|b: Bookmark| b@),
            };
            proof {
                assert(rest[0] == lv[k as int]);
                assert(rest.drop_first() =~= lv.skip(k + 1));
                assert(lv[k as int] == list@[k as int]@);
            }
            let e = &list[k];
            let e_id = match e.id {
                Option::Some(i) => i,
                Option::None => 0,
            };
            proof {
                assert(e_id as int == eid(lv[k as int]));
            }
            let ghost bmsv = self@.bookmarks;
            let n = self.bookmarks.len();
            let mut j: usize = 0;
            while j < n && !bookmark_on_entry(&self.bookmarks[j], e_id)
                invariant
                    j <= n,
                    n == self.bookmarks.len(),
                    bmsv == self@.bookmarks,
                    forall|i: int| 0 <= i < j ==> (#[trigger] bmsv[i]).log_entry_id != e_id as int,
                decreases n - j,
            {
                j = j + 1;
            }
            if j < n {
                proof {
                    assert(bmsv[j as int].log_entry_id == e_id as int);
                    lemma_lookup_bookmark_at(bmsv, e_id as int, j as int);
                }
                let existing = self.bookmarks[j].duplicate();
                proof {
                    assert(existing@ == bmsv[j as int]);
                }
                let is_colored = match &existing.color {
                    Option::Some(c) => str_eq(c.as_str(), color),
                    Option::None => false,
                };
                if !is_colored {
                    proof {
                        assert(bmsv[j as int].color != Option::Some(color@));
                    }
                    let ex_id = match existing.id {
                        Option::Some(i) => i,
                        Option::None => 0,
                    };
                    proof {
                        assert(bmsv[j as int].id is Some);
                        assert(bmsv[j as int].id == Option::Some(ex_id as int));
                    }
                    let the_title: String = if use_message {
                        e.message.clone()
                    } else {
                        String::from_str(fixed)
                    };
                    let ghost title_v = the_title@;
                    proof {
                        assert(title_v == (if use_message {
                            lv[k as int].message
                        } else {
                            fixed@
                        }));
                    }
                    self.update_bookmark_color_and_title(ex_id, color, the_title.as_str());
                    let ghost upd = BookmarkV {
                        color: Option::Some(color@),
                        title: Option::Some(title_v),
                        ..bmsv[j as int]
                    };
                    proof {
                        assert forall|i: int|
                            0 <= i < bmsv.len() implies recolored(
                            bmsv,
                            ex_id as int,
                            color@,
                            title_v,
                        )[i] == bmsv.update(j as int, upd)[i] by {
                            if i != j {
                                if i < j {
                                    assert(bid(bmsv[i]) < bid(bmsv[j as int]));
                                } else {
                                    assert(bid(bmsv[j as int]) < bid(bmsv[i]));
                                }
                                assert(bmsv[i].id is Some);
                                assert(bmsv[i].id != Option::Some(ex_id as int));
                            }
                        }
                        assert(recolored(bmsv, ex_id as int, color@, title_v) =~= bmsv.update(
                            j as int,
                            upd,
                        ));
                    }
                    let mut upd_b = existing;
                    upd_b.color = Some(String::from_str(color));
                    upd_b.title = Some(the_title);
                    let ghost c0 = created@;
                    created.push(upd_b);
                    proof {
                        assert(created@.map_values(|b: Bookmark| b@) =~= c0.map_values(
                            |b: Bookmark| b@,
                        ).push(upd));
                        assert(step(cur, lv[k as int]) == SynthState {
                            bookmarks: self@.bookmarks,
                            next_id: self@.next_bookmark_id,
                            created: created@.map_values(|b: Bookmark| b@),
                        });
                    }
                } else {
                    proof {
                        assert(bmsv[j as int].color == Option::Some(color@));
                        assert(step(cur, lv[k as int]) == cur);
                    }
                }
            } else {
                proof {
                    lemma_lookup_bookmark_none(bmsv, e_id as int);
                }
                let the_title: String = if use_message {
                    e.message.clone()
                } else {
                    String::from_str(fixed)
                };
                let ghost title_v = the_title@;
                let nb = Bookmark {
                    id: None,
                    log_entry_id: e_id,
                    title: Some(the_title),
                    notes: None,
                    color: Some(String::from_str(color)),
                    created_at: None,
                };
                let ghost nbv = nb@;
                let nid = self.add_bookmark(&nb);
                proof {
                    assert(stored_bookmark(nbv, nid as int) == auto_bookmark(
                        e_id as int,
                        nid as int,
                        title_v,
                        Option::Some(color@),
                    ));
                }
                let mut nb2 = nb;
                nb2.id = Some(nid);
                let ghost c0 = created@;
                created.push(nb2);
                proof {
                    assert(nb2@ == auto_bookmark(
                        e_id as int,
                        nid as int,
                        title_v,
                        Option::Some(color@),
                    ));
                    assert(created@.map_values(|b: Bookmark| b@) =~= c0.map_values(
                        |b: Bookmark| b@,
                    ).push(nb2@));
                    assert(step(cur, lv[k as int]) == SynthState {
                        bookmarks: self@.bookmarks,
                        next_id: self@.next_bookmark_id,
                        created: created@.map_values(|b: Bookmark| b@),
                    });
                }
            }
            k = k + 1;
            proof {
                assert(run_steps(cur, rest, step) == run_steps(
                    step(cur, rest[0]),
                    rest.drop_first(),
                    step,
                ));
                assert(run_steps(st0, lv, step) == run_steps(
                    SynthState {
                        bookmarks: self@.bookmarks,
                        next_id: self@.next_bookmark_id,
                        created: created@.map_values(|b: Bookmark| b@),
                    },
                    lv.skip(k as int),
                    step,
                ));
            }
        }
        proof {
            assert(lv.skip(lv.len() as int) =~= Seq::<LogEntryV>::empty());
        }
    }

    /// Runs the plain-anchor pass over its entry list: entries that carry
    /// no bookmark yet get one, without a color.
    fn run_other_pass(&mut self, list: &Vec<LogEntry>, created: &mut Vec<Bookmark>)
        requires
            old(self).wf(),
            old(self)@.next_bookmark_id + list@.len() <= i64::MAX,
        ensures
            final(self).wf(),
            final(self)@.sessions == old(self)@.sessions,
            final(self)@.entries == old(self)@.entries,
            final(self)@.next_entry_id == old(self)@.next_entry_id,
            final(self)@.next_bookmark_id <= old(self)@.next_bookmark_id + list@.len(),
            ({
                let st = run_steps(
                    SynthState {
                        bookmarks: old(self)@.bookmarks,
                        next_id: old(self)@.next_bookmark_id,
                        created: old(created)@.map_values(|b: Bookmark| b@),
                    },
                    list@.map_values(|e: LogEntry| e@),
                    other_step_fn(),
                );
                final(self)@.bookmarks == st.bookmarks && final(self)@.next_bookmark_id
                    == st.next_id && final(created)@.map_values(|b: Bookmark| b@) == st.created
            }),
    {
        let ghost lv = list@.map_values(|e: LogEntry| e@);
        let ghost step = other_step_fn();
        let ghost st0 = SynthState {
            bookmarks: self@.bookmarks,
            next_id: self@.next_bookmark_id,
            created: created@.map_values(|b: Bookmark| b@),
        };
        let mut k: usize = 0;
        proof {
            assert(lv.skip(0) =~= lv);
        }
        while k < list.len()
            invariant
                k <= list.len(),
                lv == list@.map_values(|e: LogEntry| e@),
                step == other_step_fn(),
                self.wf(),
                self@.sessions == old(self)@.sessions,
                self@.entries == old(self)@.entries,
                self@.next_entry_id == old(self)@.next_entry_id,
                self@.next_bookmark_id <= old(self)@.next_bookmark_id + k,
                old(self)@.next_bookmark_id + lv.len() <= i64::MAX,
                st0 == (SynthState {
                    bookmarks: old(self)@.bookmarks,
                    next_id: old(self)@.next_bookmark_id,
                    created: old(created)@.map_values(|b: Bookmark| b@),
                }),
                run_steps(st0, lv, step) == run_steps(
                    SynthState {
                        bookmarks: self@.bookmarks,
                        next_id: self@.next_bookmark_id,
                        created: created@.map_values(|b: Bookmark| b@),
                    },
                    lv.skip(k as int),
                    step,
                ),
            decreases list.len() - k,
        {
            let ghost rest = lv.skip(k as int);
            let ghost cur = SynthState {
                bookmarks: self@.bookmarks,
                next_id: self@.next_bookmark_id,
                created: created@.map_values(|b: Bookmark| b@),
            };
            proof {
                assert(rest[0] == lv[k as int]);
                assert(rest.drop_first() =~= lv.skip(k + 1));
                assert(lv[k as int] == list@[k as int]@);
            }
            let e = &list[k];
            let e_id = match e.id {
                Option::Some(i) => i,
                Option::None => 0,
            };
            proof {
                assert(e_id as int == eid(lv[k as int]));
            }
            let ghost bmsv = self@.bookmarks;
            let n = self.bookmarks.len();
            let mut j: usize = 0;
            while j < n && !bookmark_on_entry(&self.bookmarks[j], e_id)
                invariant
                    j <= n,
                    n == self.bookmarks.len(),
                    bmsv == self@.bookmarks,
                    forall|i: int| 0 <= i < j ==> (#[trigger] bmsv[i]).log_entry_id != e_id as int,
                decreases n - j,
            {
                j = j + 1;
            }
            if j < n {
                proof {
                    assert(bmsv[j as int].log_entry_id == e_id as int);
                    lemma_lookup_bookmark_at(bmsv, e_id as int, j as int);
                    assert(step(cur, lv[k as int]) == cur);
                }
            } else {
                proof {
                    lemma_lookup_bookmark_none(bmsv, e_id as int);
                }
                let title: Option<String> = match crate::bookmark_utils::extract_marker_title(
                    e.message.as_str(),
                ) {
                    Option::Some(t) => Some(t),
                    Option::None => {
                        if str_eq(e.level.as_str(), "MARKER") {
                            Some(e.message.clone())
                        } else {
                            None
                        }
                    },
                };
                match title {
                    Option::Some(t) => {
                        proof {
                            assert(crate::bookmark_utils::auto_marker_title(lv[k as int])
                                == Option::Some(t@));
                        }
                        let ghost title_v = t@;
                        let nb = Bookmark {
                            id: None,
                            log_entry_id: e_id,
                            title: Some(t),
                            notes: None,
                            color: None,
                            created_at: None,
                        };
                        let ghost nbv = nb@;
                        let nid = self.add_bookmark(&nb);
                        proof {
                            assert(stored_bookmark(nbv, nid as int) == auto_bookmark(
                                e_id as int,
                                nid as int,
                                title_v,
                                Option::None,
                            ));
                        }
                        let mut nb2 = nb;
                        nb2.id = Some(nid);
                        let ghost c0 = created@;
                        created.push(nb2);
                        proof {
                            assert(nb2@ == auto_bookmark(
                                e_id as int,
                                nid as int,
                                title_v,
                                Option::None,
                            ));
                            assert(created@.map_values(|b: Bookmark| b@) =~= c0.map_values(
                                |b: Bookmark| b@,
                            ).push(nb2@));
                            assert(step(cur, lv[k as int]) == SynthState {
                                bookmarks: self@.bookmarks,
                                next_id: self@.next_bookmark_id,
                                created: created@.map_values(|b: Bookmark| b@),
                            });
                        }
                    },
                    Option::None => {
                        proof {
                            assert(crate::bookmark_utils::auto_marker_title(lv[k as int])
                                is None);
                            assert(step(cur, lv[k as int]) == cur);
                        }
                    },
                }
            }
            k = k + 1;
            proof {
                assert(run_steps(cur, rest, step) == run_steps(
                    step(cur, rest[0]),
                    rest.drop_first(),
                    step,
                ));
                assert(run_steps(st0, lv, step) == run_steps(
                    SynthState {
                        bookmarks: self@.bookmarks,
                        next_id: self@.next_bookmark_id,
                        created: created@.map_values(|b: Bookmark| b@),
                    },
                    lv.skip(k as int),
                    step,
                ));
            }
        }
        proof {
            assert(lv.skip(lv.len() as int) =~= Seq::<LogEntryV>::empty());
        }
    }

    /// Synthesizes this session's automatic bookmarks: failures first and
    /// in red, step markers next in turquoise, and plain anchors last;
    /// higher passes upgrade an entry's existing bookmark in place, the
    /// plain pass only creates.  Hands back the rows created or upgraded.
    pub fn ensure_auto_bookmarks_for_session(&mut self, session_id: &str) -> (r: Vec<Bookmark>)
        requires
            old(self).wf(),
            old(self)@.next_bookmark_id + 3 * old(self)@.entries.len() <= i64::MAX,
        ensures
            final(self).wf(),
            final(self)@.sessions == old(self)@.sessions,
            final(self)@.entries == old(self)@.entries,
            final(self)@.next_entry_id == old(self)@.next_entry_id,
            ({
                let st = auto_bookmarks_spec(old(self)@, session_id@);
                final(self)@.bookmarks == st.bookmarks && final(self)@.next_bookmark_id
                    == st.next_id && r@.map_values(|b: Bookmark| b@) == st.created
            }),
    {
        let mut created: Vec<Bookmark> = Vec::new();
        proof {
            assert(created@.map_values(|b: Bookmark| b@) =~= Seq::<BookmarkV>::empty());
            reveal_strlit("");
        }
        let l1 = self.collect_pass(session_id, 1);
        self.run_upgrade_pass(&l1, "#F56C6C", "Failure", false, &mut created);
        let l2 = self.collect_pass(session_id, 2);
        self.run_upgrade_pass(&l2, "#00CED1", "", true, &mut created);
        let l3 = self.collect_pass(session_id, 3);
        self.run_other_pass(&l3, &mut created);
        proof {
            assert(""@ =~= Seq::<char>::empty());
            assert(upgrade_fn("#00CED1"@, ""@, true) == step_step_fn());
            assert(upgrade_fn("#F56C6C"@, "Failure"@, false) == fail_step_fn());
        }
        created
    }
}

// ------------------------------------------------------------------
// the read order and the filter predicates
// ------------------------------------------------------------------

/// The total order every paginated read uses: `(timestamp, id)` ascending.
pub open spec fn entry_le(a: LogEntryV, b: LogEntryV) -> bool {
    lex_lt(a.timestamp, b.timestamp) || (a.timestamp == b.timestamp && eid(a) <= eid(b))
}

/// `entry_le` as a first-class order.
pub open spec fn entry_le_fn() -> spec_fn(LogEntryV, LogEntryV) -> bool {
    |a: LogEntryV, b: LogEntryV| entry_le(a, b)
}

/// `a` comes strictly before `b` in the read order.
pub open spec fn entry_strictly_before(a: LogEntryV, b: LogEntryV) -> bool {
    lex_lt(a.timestamp, b.timestamp) || (a.timestamp == b.timestamp && eid(a) < eid(b))
}

/// Decides `entry_le` of two rows.
fn entry_le_exec(a: &LogEntry, b: &LogEntry) -> (r: bool)
    ensures
        r == entry_le(a@, b@),
{
    if str_lt(a.timestamp.as_str(), b.timestamp.as_str()) {
        true
    } else if str_eq(a.timestamp.as_str(), b.timestamp.as_str()) {
        let ia = match a.id {
            Option::Some(i) => i,
            Option::None => 0,
        };
        let ib = match b.id {
            Option::Some(i) => i,
            Option::None => 0,
        };
        ia <= ib
    } else {
        false
    }
}

/// The views of a sequence of strings.
pub open spec fn strs_view(s: Seq<String>) -> Seq<Seq<char>> {
    s.map_values(|x: String| x@)
}

/// The view of an optional level filter.
pub open spec fn levels_view(lf: Option<&[String]>) -> Option<Seq<Seq<char>>> {
    match lf {
        Option::Some(ls) => Option::Some(strs_view(ls@)),
        Option::None => Option::None,
    }
}

/// The view of an optional search term.
pub open spec fn search_view(st: Option<&str>) -> Option<Seq<char>> {
    match st {
        Option::Some(s) => Option::Some(s@),
        Option::None => Option::None,
    }
}

/// Keeps the level tokens that select something: not empty, not the
/// legacy token `ALL`.
pub open spec fn keep_level_fn() -> spec_fn(Seq<char>) -> bool {
    |l: Seq<char>| l.len() > 0 && l != "ALL"@
}

/// The selected levels of a filter, cleaned of empty and legacy tokens.
pub open spec fn level_set(ls: Seq<Seq<char>>) -> Seq<Seq<char>> {
    filter_seq(ls, keep_level_fn())
}

/// A stored level matches the cleaned set: it equals a selected token, or
/// that token kept inside its historical brackets.
pub open spec fn level_matches(lv: Seq<char>, set: Seq<Seq<char>>) -> bool {
    exists|k: int|
        0 <= k < set.len() && (#[trigger] set[k] == lv || "["@ + set[k] + "]"@ == lv)
}

/// The level predicate of a read: absent means everything, an empty list
/// means nothing, a list of only empty or legacy tokens means everything,
/// and otherwise the cleaned set decides.
pub open spec fn level_pred(lv: Seq<char>, lf: Option<Seq<Seq<char>>>) -> bool {
    match lf {
        Option::None => true,
        Option::Some(ls) => if ls.len() == 0 {
            false
        } else {
            let set = level_set(ls);
            if set.len() == 0 {
                true
            } else {
                level_matches(lv, set)
            }
        },
    }
}

/// The search predicate of a read: the term occurs in the timestamp or in
/// the message.
pub open spec fn search_pred(e: LogEntryV, st: Option<Seq<char>>) -> bool {
    match st {
        Option::None => true,
        Option::Some(s) => is_substring(s, e.timestamp) || is_substring(s, e.message),
    }
}

/// The whole row predicate of a filtered read.
pub open spec fn entry_matches(
    e: LogEntryV,
    sid: Seq<char>,
    lf: Option<Seq<Seq<char>>>,
    st: Option<Seq<char>>,
) -> bool {
    e.test_session_id == sid && level_pred(e.level, lf) && search_pred(e, st)
}

/// `entry_matches` as a first-class predicate.
pub open spec fn entry_pred(
    sid: Seq<char>,
    lf: Option<Seq<Seq<char>>>,
    st: Option<Seq<char>>,
) -> spec_fn(LogEntryV) -> bool {
    |e: LogEntryV| entry_matches(e, sid, lf, st)
}

/// What a filtered read of one session yields, before pagination: the
/// matching rows in the order `(timestamp, id)`.
pub open spec fn query_rows(
    entries: Seq<LogEntryV>,
    sid: Seq<char>,
    lf: Option<Seq<Seq<char>>>,
    st: Option<Seq<char>>,
) -> Seq<LogEntryV> {
    stable_sort(filter_seq(entries, entry_pred(sid, lf, st)), entry_le_fn())
}

/// The first stored entry with this id.
pub open spec fn lookup_entry(entries: Seq<LogEntryV>, id: int) -> Option<LogEntryV>
    decreases entries.len(),
{
    if entries.len() == 0 {
        Option::None
    } else if entries[0].id == Option::Some(id) {
        Option::Some(entries[0])
    } else {
        lookup_entry(entries.drop_first(), id)
    }
}

/// The first stored entry of this session with this id.
pub open spec fn lookup_session_entry(
    entries: Seq<LogEntryV>,
    sid: Seq<char>,
    id: int,
) -> Option<LogEntryV>
    decreases entries.len(),
{
    if entries.len() == 0 {
        Option::None
    } else if entries[0].id == Option::Some(id) && entries[0].test_session_id == sid {
        Option::Some(entries[0])
    } else {
        lookup_session_entry(entries.drop_first(), sid, id)
    }
}

/// The rows a page count runs over when a page number is resolved: the
/// rows that match the filters and come strictly before the target.
pub open spec fn before_pred(
    sid: Seq<char>,
    lf: Option<Seq<Seq<char>>>,
    st: Option<Seq<char>>,
    target: LogEntryV,
) -> spec_fn(LogEntryV) -> bool {
    |x: LogEntryV| entry_matches(x, sid, lf, st) && entry_strictly_before(x, target)
}

/// Ascending lexicographic order as a first-class order.
pub open spec fn lex_le_fn() -> spec_fn(Seq<char>, Seq<char>) -> bool {
    |a: Seq<char>, b: Seq<char>| crate::text::lex_le(a, b)
}

/// `x` appended where it is new.
pub open spec fn dedup_push(acc: Seq<Seq<char>>, x: Seq<char>) -> Seq<Seq<char>> {
    if acc.contains(x) {
        acc
    } else {
        acc.push(x)
    }
}

/// The distinct level tokens of one session's rows, each at its first
/// appearance, in storage order.
pub open spec fn session_levels_acc(entries: Seq<LogEntryV>, sid: Seq<char>) -> Seq<Seq<char>>
    decreases entries.len(),
{
    if entries.len() == 0 {
        Seq::empty()
    } else {
        let acc = session_levels_acc(entries.drop_last(), sid);
        if entries.last().test_session_id == sid {
            dedup_push(acc, entries.last().level)
        } else {
            acc
        }
    }
}

/// The listing order of sessions: most recently parsed first, a missing
/// stamp last.
pub open spec fn sess_desc_le(a: TestSessionV, b: TestSessionV) -> bool {
    match (a.last_parsed_at, b.last_parsed_at) {
        (Option::Some(x), Option::Some(y)) => x >= y,
        (Option::Some(x), Option::None) => true,
        (Option::None, Option::Some(y)) => false,
        (Option::None, Option::None) => true,
    }
}

/// `sess_desc_le` as a first-class order.
pub open spec fn sess_desc_fn() -> spec_fn(TestSessionV, TestSessionV) -> bool {
    |a: TestSessionV, b: TestSessionV| sess_desc_le(a, b)
}

/// A listed session row: the stored fields with the stamps the listing
/// does not reproduce cleared.
pub open spec fn scrub_session(s: TestSessionV) -> TestSessionV {
    TestSessionV { created_at: Option::None, last_parsed_at: Option::None, ..s }
}

/// The listed form of a whole session sequence.
pub open spec fn scrub_sessions(ss: Seq<TestSessionV>) -> Seq<TestSessionV> {
    ss.map_values(|s: TestSessionV| scrub_session(s))
}

/// The bookmarks of one session joined with their entries, in bookmark
/// storage order: a bookmark whose entry is missing or belongs to another
/// session is passed over.
pub open spec fn bookmark_join(
    bms: Seq<BookmarkV>,
    entries: Seq<LogEntryV>,
    sid: Seq<char>,
) -> Seq<(BookmarkV, LogEntryV)>
    decreases bms.len(),
{
    if bms.len() == 0 {
        Seq::empty()
    } else {
        let rest = bookmark_join(bms.drop_first(), entries, sid);
        match lookup_entry(entries, bms[0].log_entry_id) {
            Option::Some(e) => if e.test_session_id == sid {
                seq![(bms[0], e)] + rest
            } else {
                rest
            },
            Option::None => rest,
        }
    }
}

/// The order of a bookmark listing: the joined entry's timestamp.
pub open spec fn pair_le_fn() -> spec_fn((BookmarkV, LogEntryV), (BookmarkV, LogEntryV)) -> bool {
    |a: (BookmarkV, LogEntryV), b: (BookmarkV, LogEntryV)|
        crate::text::lex_le(a.1.timestamp, b.1.timestamp)
}

/// Keeps the sessions whose id differs.
pub open spec fn keep_session_fn(sid: Seq<char>) -> spec_fn(TestSessionV) -> bool {
    |s: TestSessionV| s.id != sid
}

/// Keeps the entries of other sessions.
pub open spec fn keep_entry_fn(sid: Seq<char>) -> spec_fn(LogEntryV) -> bool {
    |e: LogEntryV| e.test_session_id != sid
}

/// The bookmark's entry belongs to this session.
pub open spec fn bookmark_in_session(
    entries: Seq<LogEntryV>,
    sid: Seq<char>,
    b: BookmarkV,
) -> bool {
    exists|k: int|
        0 <= k < entries.len() && (#[trigger] entries[k]).test_session_id == sid && entries[k].id
            == Option::Some(b.log_entry_id)
}

/// Keeps the bookmarks whose entry is not in this session.
pub open spec fn keep_bookmark_fn(entries: Seq<LogEntryV>, sid: Seq<char>) -> spec_fn(
    BookmarkV,
) -> bool {
    |b: BookmarkV| !bookmark_in_session(entries, sid, b)
}

/// The first session with this name and source.
pub open spec fn lookup_session_by(
    ss: Seq<TestSessionV>,
    name: Seq<char>,
    path: Seq<char>,
) -> Option<TestSessionV>
    decreases ss.len(),
{
    if ss.len() == 0 {
        Option::None
    } else if ss[0].name == name && ss[0].directory_path == path {
        Option::Some(ss[0])
    } else {
        lookup_session_by(ss.drop_first(), name, path)
    }
}

/// The bookmark targets this entry.
fn bookmark_on_entry(b: &Bookmark, entry_id: i64) -> (r: bool)
    ensures
        r == (b@.log_entry_id == entry_id as int),
{
    b.log_entry_id == entry_id
}

/// Decides `sess_desc_le` of two rows.
fn sess_desc_exec(a: &TestSession, b: &TestSession) -> (r: bool)
    ensures
        r == sess_desc_le(a@, b@),
{
    match (a.last_parsed_at, b.last_parsed_at) {
        (Option::Some(x), Option::Some(y)) => x >= y,
        (Option::Some(_), Option::None) => true,
        (Option::None, Option::Some(_)) => false,
        (Option::None, Option::None) => true,
    }
}

proof fn lemma_filter_wf_bookmarks(bms: Seq<BookmarkV>, p: spec_fn(BookmarkV) -> bool, next: int)
    requires
        bookmarks_wf(bms, next),
    ensures
        bookmarks_wf(filter_seq(bms, p), next),
{
    let ltfn = |a: BookmarkV, b: BookmarkV| bid(a) < bid(b);
    assert(vstd::relations::sorted_by(bms, ltfn)) by {
        assert(forall|i: int, j: int|
            0 <= i < j < bms.len() ==> ltfn(#[trigger] bms[i], #[trigger] bms[j]));
    }
    lemma_filter_preserves_sorted_by(bms, p, ltfn);
    let f = filter_seq(bms, p);
    assert forall|i: int|
        0 <= i < f.len() implies (#[trigger] f[i]).id is Some && 1 <= bid(f[i]) && bid(f[i])
        < next by {
        lemma_filter_seq_contains(bms, p, f[i]);
        assert(bms.contains(f[i]));
        let m = choose|m: int| 0 <= m < bms.len() && bms[m] == f[i];
        assert(bms[m].id is Some);
    }
    assert forall|i: int, j: int|
        0 <= i < j < f.len() implies bid(#[trigger] f[i]) < bid(#[trigger] f[j]) by {
        assert(ltfn(f[i], f[j]));
    }
}

proof fn lemma_filter_wf_entries(es: Seq<LogEntryV>, p: spec_fn(LogEntryV) -> bool, next: int)
    requires
        entries_wf(es, next),
    ensures
        entries_wf(filter_seq(es, p), next),
{
    let ltfn = |a: LogEntryV, b: LogEntryV| eid(a) < eid(b);
    assert(vstd::relations::sorted_by(es, ltfn)) by {
        assert(forall|i: int, j: int|
            0 <= i < j < es.len() ==> ltfn(#[trigger] es[i], #[trigger] es[j]));
    }
    lemma_filter_preserves_sorted_by(es, p, ltfn);
    let f = filter_seq(es, p);
    assert forall|i: int|
        0 <= i < f.len() implies (#[trigger] f[i]).id is Some && 1 <= eid(f[i]) && eid(f[i])
        < next by {
        lemma_filter_seq_contains(es, p, f[i]);
        assert(es.contains(f[i]));
        let m = choose|m: int| 0 <= m < es.len() && es[m] == f[i];
        assert(es[m].id is Some);
    }
    assert forall|i: int, j: int|
        0 <= i < j < f.len() implies eid(#[trigger] f[i]) < eid(#[trigger] f[j]) by {
        assert(ltfn(f[i], f[j]));
    }
}

proof fn lemma_filter_wf_sessions(ss: Seq<TestSessionV>, p: spec_fn(TestSessionV) -> bool)
    requires
        sessions_wf(ss),
    ensures
        sessions_wf(filter_seq(ss, p)),
{
    let nefn = |a: TestSessionV, b: TestSessionV| a.id != b.id;
    assert(vstd::relations::sorted_by(ss, nefn)) by {
        assert(forall|i: int, j: int|
            0 <= i < j < ss.len() ==> nefn(#[trigger] ss[i], #[trigger] ss[j]));
    }
    lemma_filter_preserves_sorted_by(ss, p, nefn);
    let f = filter_seq(ss, p);
    assert forall|i: int, j: int|
        0 <= i < j < f.len() implies (#[trigger] f[i]).id != (#[trigger] f[j]).id by {
        assert(nefn(f[i], f[j]));
    }
}

/// Drops empty and legacy tokens from a level filter, exactly `level_set`.
fn clean_levels(ls: &[String]) -> (r: Vec<String>)
    ensures
        strs_view(r@) == level_set(strs_view(ls@)),
{
    let ghost lv = strs_view(ls@);
    let ghost p = keep_level_fn();
    let mut r: Vec<String> = Vec::new();
    let mut k: usize = 0;
    proof {
        assert(lv.skip(0) =~= lv);
        assert(strs_view(r@) + filter_seq(lv.skip(0), p) =~= filter_seq(lv, p));
    }
    while k < ls.len()
        invariant
            k <= ls.len(),
            lv == strs_view(ls@),
            p == keep_level_fn(),
            filter_seq(lv, p) == strs_view(r@) + filter_seq(lv.skip(k as int), p),
        decreases ls.len() - k,
    {
        let ghost rest = lv.skip(k as int);
        proof {
            assert(rest[0] == lv[k as int]);
            assert(rest.drop_first() =~= lv.skip(k + 1));
        }
        let l = &ls[k];
        let keep = l.as_str().unicode_len() > 0 && !str_eq(l.as_str(), "ALL");
        if keep {
            let ghost r0 = r@;
            r.push(l.clone());
            proof {
                assert(strs_view(r@) =~= strs_view(r0).push(lv[k as int]));
                assert(strs_view(r@) + filter_seq(lv.skip(k + 1), p) =~= strs_view(r0) + (seq![
                    lv[k as int],
                ] + filter_seq(lv.skip(k + 1), p)));
            }
        } else {
            proof {
                assert(!p(lv[k as int]));
            }
        }
        k = k + 1;
    }
    proof {
        assert(lv.skip(lv.len() as int) =~= Seq::<Seq<char>>::empty());
        assert(strs_view(r@) + Seq::<Seq<char>>::empty() =~= strs_view(r@));
    }
    r
}

/// Decides `level_matches` against a cleaned set.
fn level_matches_exec(lv: &str, set: &Vec<String>) -> (r: bool)
    ensures
        r == level_matches(lv@, strs_view(set@)),
{
    let ghost sv = strs_view(set@);
    let mut j: usize = 0;
    while j < set.len()
        invariant
            j <= set.len(),
            sv == strs_view(set@),
            forall|k: int|
                0 <= k < j ==> !(#[trigger] sv[k] == lv@ || "["@ + sv[k] + "]"@ == lv@),
        decreases set.len() - j,
    {
        if str_eq(lv, set[j].as_str()) {
            proof {
                assert(sv[j as int] == lv@);
            }
            return true;
        }
        let bracketed = String::from_str("[").concat(set[j].as_str()).concat("]");
        if str_eq(lv, bracketed.as_str()) {
            proof {
                assert("["@ + sv[j as int] + "]"@ == lv@);
            }
            return true;
        }
        j = j + 1;
    }
    proof {
        if level_matches(lv@, sv) {
            let k = choose|k: int|
                0 <= k < sv.len() && (#[trigger] sv[k] == lv@ || "["@ + sv[k] + "]"@ == lv@);
            assert(false);
        }
    }
    false
}

/// Decides the whole row predicate of a filtered read; `kept` must be the
/// cleaned set of the level filter.
fn row_matches_exec(
    e: &LogEntry,
    session_id: &str,
    level_filter: Option<&[String]>,
    kept: &Vec<String>,
    search_term: Option<&str>,
) -> (r: bool)
    requires
        match level_filter {
            Option::Some(ls) => strs_view(kept@) == level_set(strs_view(ls@)),
            Option::None => true,
        },
    ensures
        r == entry_matches(
            e@,
            session_id@,
            levels_view(level_filter),
            search_view(search_term),
        ),
{
    if !str_eq(e.test_session_id.as_str(), session_id) {
        return false;
    }
    let m_level = match level_filter {
        Option::None => true,
        Option::Some(ls) => if ls.len() == 0 {
            false
        } else if kept.len() == 0 {
            proof {
                assert(level_set(strs_view(ls@)).len() == 0);
            }
            true
        } else {
            level_matches_exec(e.level.as_str(), kept)
        },
    };
    if !m_level {
        return false;
    }
    match search_term {
        Option::None => true,
        Option::Some(s) => contains_sub(e.timestamp.as_str(), s) || contains_sub(
            e.message.as_str(),
            s,
        ),
    }
}

/// Orders rows by `(timestamp, id)`, exactly the stable sort under
/// `entry_le_fn`.
fn sort_entries(v: Vec<LogEntry>) -> (r: Vec<LogEntry>)
    ensures
        r@.map_values(|e: LogEntry| e@) == stable_sort(
            v@.map_values(|e: LogEntry| e@),
            entry_le_fn(),
        ),
{
    let ghost vv = v@.map_values(|e: LogEntry| e@);
    let mut r: Vec<LogEntry> = Vec::new();
    let mut i: usize = 0;
    proof {
        assert(vv.take(0) =~= Seq::<LogEntryV>::empty());
        assert(r@.map_values(|e: LogEntry| e@) =~= stable_sort(vv.take(0), entry_le_fn()));
    }
    while i < v.len()
        invariant
            i <= v.len(),
            vv == v@.map_values(|e: LogEntry| e@),
            r@.map_values(|e: LogEntry| e@) == stable_sort(vv.take(i as int), entry_le_fn()),
        decreases v.len() - i,
    {
        let x = v[i].duplicate();
        let ghost rv = r@.map_values(|e: LogEntry| e@);
        let mut j: usize = 0;
        while j < r.len() && entry_le_exec(&r[j], &x)
            invariant
                j <= r.len(),
                x == v@[i as int],
                i < v.len(),
                vv == v@.map_values(|e: LogEntry| e@),
                rv == r@.map_values(|e: LogEntry| e@),
                forall|k: int| 0 <= k < j ==> entry_le_fn()(#[trigger] rv[k], vv[i as int]),
            decreases r.len() - j,
        {
            j = j + 1;
        }
        proof {
            assert(j < r.len() ==> !entry_le_fn()(rv[j as int], vv[i as int]));
            lemma_insert_by_at(vv[i as int], rv, entry_le_fn(), j as int);
            assert(vv.take(i + 1).drop_last() =~= vv.take(i as int));
            assert(vv.take(i + 1).last() == vv[i as int]);
        }
        r.insert(j, x);
        proof {
            assert(r@.map_values(|e: LogEntry| e@) =~= rv.insert(j as int, vv[i as int]));
        }
        i = i + 1;
    }
    proof {
        assert(vv.take(v@.len() as int) =~= vv);
    }
    r
}

/// How a bookmark row is stored: the caller's fields, the assigned id.
pub open spec fn stored_bookmark(b: BookmarkV, id: int) -> BookmarkV {
    BookmarkV { id: Option::Some(id), created_at: Option::None, ..b }
}

/// Keeps every bookmark but the one with this id.
pub open spec fn keep_other_bookmarks(id: int) -> spec_fn(BookmarkV) -> bool {
    |b: BookmarkV| b.id != Option::Some(id)
}

// ------------------------------------------------------------------
// the bookmark synthesizer
// ------------------------------------------------------------------

/// The index of the first bookmark on this entry.
pub open spec fn lookup_bookmark(bms: Seq<BookmarkV>, entry_id: int) -> Option<int>
    decreases bms.len(),
{
    if bms.len() == 0 {
        Option::None
    } else if bms[0].log_entry_id == entry_id {
        Option::Some(0int)
    } else {
        match lookup_bookmark(bms.drop_first(), entry_id) {
            Option::Some(i) => Option::Some(i + 1),
            Option::None => Option::None,
        }
    }
}

proof fn lemma_lookup_bookmark_at(bms: Seq<BookmarkV>, entry_id: int, j: int)
    requires
        0 <= j < bms.len(),
        bms[j].log_entry_id == entry_id,
        forall|i: int| 0 <= i < j ==> (#[trigger] bms[i]).log_entry_id != entry_id,
    ensures
        lookup_bookmark(bms, entry_id) == Option::Some(j),
    decreases j,
{
    if j > 0 {
        let tail = bms.drop_first();
        assert(forall|i: int| 0 <= i < j - 1 ==> (#[trigger] tail[i]).log_entry_id != entry_id)
            by {
            assert(forall|i: int| 0 <= i < j - 1 ==> tail[i] == bms[i + 1]);
        }
        assert(tail[j - 1] == bms[j]);
        lemma_lookup_bookmark_at(tail, entry_id, j - 1);
    }
}

proof fn lemma_lookup_bookmark_none(bms: Seq<BookmarkV>, entry_id: int)
    requires
        forall|i: int| 0 <= i < bms.len() ==> (#[trigger] bms[i]).log_entry_id != entry_id,
    ensures
        lookup_bookmark(bms, entry_id) is None,
    decreases bms.len(),
{
    if bms.len() > 0 {
        let tail = bms.drop_first();
        assert(forall|i: int| 0 <= i < tail.len() ==> (#[trigger] tail[i]).log_entry_id
            != entry_id) by {
            assert(forall|i: int| 0 <= i < tail.len() ==> tail[i] == bms[i + 1]);
        }
        lemma_lookup_bookmark_none(tail, entry_id);
    }
}

/// `b` recolored and retitled where its id matches.
pub open spec fn recolor_one(b: BookmarkV, id: int, color: Seq<char>, title: Seq<char>) -> BookmarkV {
    if b.id == Option::Some(id) {
        BookmarkV { color: Option::Some(color), title: Option::Some(title), ..b }
    } else {
        b
    }
}

/// Every bookmark with this id recolored and retitled.
pub open spec fn recolored(bms: Seq<BookmarkV>, id: int, color: Seq<char>, title: Seq<char>) -> Seq<
    BookmarkV,
> {
    Seq::new(bms.len(), |k: int| recolor_one(bms[k], id, color, title))
}

/// A bookmark the synthesizer creates.
pub open spec fn auto_bookmark(
    entry_id: int,
    id: int,
    title: Seq<char>,
    color: Option<Seq<char>>,
) -> BookmarkV {
    BookmarkV {
        id: Option::Some(id),
        log_entry_id: entry_id,
        title: Option::Some(title),
        notes: Option::None,
        color,
        created_at: Option::None,
    }
}

/// A synthesizer pass's running state: the bookmark table, the id
/// counter, and the rows created or upgraded so far.
pub ghost struct SynthState {
    pub bookmarks: Seq<BookmarkV>,
    pub next_id: int,
    pub created: Seq<BookmarkV>,
}

/// One upgrading step: where the entry has a bookmark of another color it
/// is upgraded in place, where it has none one is created, and a bookmark
/// already of this color is left alone.
pub open spec fn upgrade_step(
    st: SynthState,
    e: LogEntryV,
    color: Seq<char>,
    title: Seq<char>,
) -> SynthState {
    match lookup_bookmark(st.bookmarks, eid(e)) {
        Option::Some(i) => if st.bookmarks[i].color != Option::Some(color) {
            let updated = BookmarkV {
                color: Option::Some(color),
                title: Option::Some(title),
                ..st.bookmarks[i]
            };
            SynthState {
                bookmarks: st.bookmarks.update(i, updated),
                next_id: st.next_id,
                created: st.created.push(updated),
            }
        } else {
            st
        },
        Option::None => {
            let nb = auto_bookmark(eid(e), st.next_id, title, Option::Some(color));
            SynthState {
                bookmarks: st.bookmarks.push(nb),
                next_id: st.next_id + 1,
                created: st.created.push(nb),
            }
        },
    }
}

/// An upgrading pass's step as a first-class function: the title is the
/// fixed one, or the entry's own message.
pub open spec fn upgrade_fn(color: Seq<char>, fixed: Seq<char>, use_message: bool) -> spec_fn(
    SynthState,
    LogEntryV,
) -> SynthState {
    |st: SynthState, e: LogEntryV|
        upgrade_step(
            st,
            e,
            color,
            if use_message {
                e.message
            } else {
                fixed
            },
        )
}

/// The failure pass: red, titled `Failure`.
pub open spec fn fail_step_fn() -> spec_fn(SynthState, LogEntryV) -> SynthState {
    upgrade_fn("#F56C6C"@, "Failure"@, false)
}

/// The step pass: turquoise, titled with the message.
pub open spec fn step_step_fn() -> spec_fn(SynthState, LogEntryV) -> SynthState {
    upgrade_fn("#00CED1"@, Seq::empty(), true)
}

/// One plain-anchor step: only entries without any bookmark get one, the
/// anchor text or a marker row's message as its title, and no color.
pub open spec fn other_step(st: SynthState, e: LogEntryV) -> SynthState {
    match lookup_bookmark(st.bookmarks, eid(e)) {
        Option::Some(_) => st,
        Option::None => match crate::bookmark_utils::auto_marker_title(e) {
            Option::Some(t) => {
                let nb = auto_bookmark(eid(e), st.next_id, t, Option::None);
                SynthState {
                    bookmarks: st.bookmarks.push(nb),
                    next_id: st.next_id + 1,
                    created: st.created.push(nb),
                }
            },
            Option::None => st,
        },
    }
}

/// The plain-anchor pass as a first-class function.
pub open spec fn other_step_fn() -> spec_fn(SynthState, LogEntryV) -> SynthState {
    |st: SynthState, e: LogEntryV| other_step(st, e)
}

/// A pass folded over its entry list, first entry first.
pub open spec fn run_steps(
    st: SynthState,
    es: Seq<LogEntryV>,
    step: spec_fn(SynthState, LogEntryV) -> SynthState,
) -> SynthState
    decreases es.len(),
{
    if es.len() == 0 {
        st
    } else {
        run_steps(step(st, es[0]), es.drop_first(), step)
    }
}

/// The entries the failure pass runs over.
pub open spec fn fail_sel_fn(sid: Seq<char>) -> spec_fn(LogEntryV) -> bool {
    |e: LogEntryV| e.test_session_id == sid && ends_with(e.message, "[FAIL]"@)
}

/// The entries the step pass runs over.
pub open spec fn step_sel_fn(sid: Seq<char>) -> spec_fn(LogEntryV) -> bool {
    |e: LogEntryV|
        e.test_session_id == sid && e.level == "MARKER"@ && is_substring("[STEP"@, e.message)
            && !ends_with(e.message, "[FAIL]"@)
}

/// The entries the plain-anchor pass runs over.
pub open spec fn other_sel_fn(sid: Seq<char>) -> spec_fn(LogEntryV) -> bool {
    |e: LogEntryV|
        e.test_session_id == sid && (is_substring("###"@, e.message) || e.level == "MARKER"@)
            && !ends_with(e.message, "[FAIL]"@) && !is_substring("[STEP"@, e.message)
}

/// A pass's selection by number, in priority order.
pub open spec fn pass_sel(mode: int, sid: Seq<char>) -> spec_fn(LogEntryV) -> bool {
    if mode == 1 {
        fail_sel_fn(sid)
    } else if mode == 2 {
        step_sel_fn(sid)
    } else {
        other_sel_fn(sid)
    }
}

/// The order a pass visits its entries: timestamp ascending.
pub open spec fn ts_le_fn() -> spec_fn(LogEntryV, LogEntryV) -> bool {
    |a: LogEntryV, b: LogEntryV| crate::text::lex_le(a.timestamp, b.timestamp)
}

/// One pass's entry list: the selected rows in timestamp order.
pub open spec fn pass_list(entries: Seq<LogEntryV>, mode: int, sid: Seq<char>) -> Seq<LogEntryV> {
    stable_sort(filter_seq(entries, pass_sel(mode, sid)), ts_le_fn())
}

/// What one synthesizer run does to the store: the failure pass, then the
/// step pass, then the plain-anchor pass.
pub open spec fn auto_bookmarks_spec(db: DbView, sid: Seq<char>) -> SynthState {
    let st0 = SynthState {
        bookmarks: db.bookmarks,
        next_id: db.next_bookmark_id,
        created: Seq::empty(),
    };
    let st1 = run_steps(st0, pass_list(db.entries, 1, sid), fail_step_fn());
    let st2 = run_steps(st1, pass_list(db.entries, 2, sid), step_step_fn());
    run_steps(st2, pass_list(db.entries, 3, sid), other_step_fn())
}

/// `b` with its title replaced where its id matches.
pub open spec fn retitle_one(b: BookmarkV, id: int, title: Seq<char>) -> BookmarkV {
    if b.id == Option::Some(id) {
        BookmarkV { title: Option::Some(title), ..b }
    } else {
        b
    }
}

/// Every bookmark with this id retitled.
pub open spec fn retitled(bms: Seq<BookmarkV>, id: int, title: Seq<char>) -> Seq<BookmarkV> {
    Seq::new(bms.len(), |k: int| retitle_one(bms[k], id, title))
}

} // verus!
