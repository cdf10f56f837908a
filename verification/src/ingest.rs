//! Ingesting one downloaded session into the store: the files sorted by
//! their index, parsed in order, the prior session of the same name and
//! source replaced, the rows inserted in one batch, and the anchor
//! bookmarks synthesized — with the prior copy untouched until the new
//! rows are ready.

use vstd::prelude::*;

use crate::bookmark_utils::{auto_markers, find_auto_bookmark_markers};
use crate::database::{
    auto_bookmark, has_session, keep_bookmark_fn, keep_entry_fn, keep_session_fn,
    lookup_session_by, stored_bookmark, with_ids, DatabaseManager, DbError, DbView,
};
use crate::filtering::filter_seq;
use crate::log_parser::{
    entries_from_rows, table_rows, HtmlLogParser, LogEntry, LogEntryV, TestSession, TestSessionV,
};
use crate::sorting::{lemma_insert_by_at, stable_sort};
use crate::text::dec_int_str;

verus! {

/// Whether std counts a character as alphanumeric; a function of the
/// character alone, spoken for only by `is_alnum_char`.
pub uninterp spec fn alnum(c: char) -> bool;

/// Relies on `char::is_alphanumeric`: whether a character counts as
/// alphanumeric depends on the character alone.
#[verifier::external_body]
fn is_alnum_char(c: char) -> (r: bool)
    ensures
        r == alnum(c),
{
    c.is_alphanumeric()
}

/// A session name flattened for use inside an id: every character that
/// is neither alphanumeric nor an underscore becomes an underscore.
pub open spec fn slug_of(s: Seq<char>) -> Seq<char> {
    Seq::new(
        s.len(),
        |i: int|
            if alnum(s[i]) || s[i] == '_' {
                s[i]
            } else {
                '_'
            },
    )
}

/// The id a new session gets: the prefix, the flattened name, and the
/// moment of ingest in nanoseconds.
pub open spec fn session_id_of(name: Seq<char>, nanos: int) -> Seq<char> {
    "session_"@ + slug_of(name) + "_"@ + dec_int_str(nanos)
}

/// Builds a session id, exactly `session_id_of`.
pub fn make_session_id(name: &str, nanos: i64) -> (r: String)
    ensures
        r@ == session_id_of(name@, nanos as int),
{
    proof {
        reveal_strlit("session_");
        reveal_strlit("_");
    }
    let len = name.unicode_len();
    let mut slug = String::new();
    let mut i: usize = 0;
    proof {
        assert(slug@ =~= slug_of(name@).take(0));
    }
    while i < len
        invariant
            i <= len,
            len == name@.len(),
            "_"@ =~= seq!['_'],
            slug@ == slug_of(name@).take(i as int),
        decreases len - i,
    {
        let c = name.get_char(i);
        if is_alnum_char(c) || c == '_' {
            let piece = name.substring_char(i, i + 1);
            slug.append(piece);
        } else {
            slug.append("_");
        }
        proof {
            assert(slug@ =~= slug_of(name@).take(i + 1));
        }
        i = i + 1;
    }
    proof {
        assert(slug_of(name@).take(len as int) =~= slug_of(name@));
    }
    let r = String::from_str("session_").concat(slug.as_str()).concat("_").concat(
        crate::text::i64_to_string(nanos).as_str(),
    );
    proof {
        assert(r@ =~= session_id_of(name@, nanos as int));
    }
    r
}

/// The order of a session's files: by their carried index.
pub open spec fn triple_le_fn() -> spec_fn((Seq<char>, Seq<char>, int), (Seq<char>, Seq<char>, int)) -> bool {
    |a: (Seq<char>, Seq<char>, int), b: (Seq<char>, Seq<char>, int)| a.2 <= b.2
}

/// The view of a downloaded file list.
pub open spec fn files_view(files: Seq<(String, String, usize)>) -> Seq<(Seq<char>, Seq<char>, int)> {
    files.map_values(|f: (String, String, usize)| (f.0@, f.1@, f.2 as int))
}

/// The records of a session's files, parsed in the given order: each
/// file's rows, with its URL and index, under the session id, joined.
pub open spec fn parsed_entries(
    files: Seq<(Seq<char>, Seq<char>, int)>,
    sid: Seq<char>,
) -> Seq<LogEntryV>
    decreases files.len(),
{
    if files.len() == 0 {
        Seq::empty()
    } else {
        entries_from_rows(table_rows(files[0].1), 0, files[0].0, sid, files[0].2)
            + parsed_entries(files.drop_first(), sid)
    }
}

/// The bookmark table after the anchor rows are appended, with the ids
/// they take.
pub open spec fn add_markers(
    bms: Seq<crate::log_parser::BookmarkV>,
    next: int,
    ms: Seq<(int, Seq<char>)>,
) -> (Seq<crate::log_parser::BookmarkV>, int)
    decreases ms.len(),
{
    if ms.len() == 0 {
        (bms, next)
    } else {
        add_markers(
            bms.push(auto_bookmark(ms[0].0, next, ms[0].1, Option::None)),
            next + 1,
            ms.drop_first(),
        )
    }
}

/// Each entry yields at most one anchor.
pub proof fn lemma_auto_markers_len(es: Seq<LogEntryV>)
    ensures
        auto_markers(es).len() <= es.len(),
    decreases es.len(),
{
    if es.len() > 0 {
        lemma_auto_markers_len(es.drop_first());
    }
}

/// The store after the prior session of this name and source is replaced
/// away: unchanged where none is stored.
pub open spec fn replace_deleted(db: DbView, name: Seq<char>, dir: Seq<char>) -> DbView {
    match lookup_session_by(db.sessions, name, dir) {
        Option::None => db,
        Option::Some(s) => DbView {
            sessions: filter_seq(db.sessions, keep_session_fn(s.id)),
            entries: filter_seq(db.entries, keep_entry_fn(s.id)),
            bookmarks: filter_seq(db.bookmarks, keep_bookmark_fn(db.entries, s.id)),
            ..db
        },
    }
}

/// The session row one ingest stores.
pub open spec fn ingested_session_row(
    sid: Seq<char>,
    name: Seq<char>,
    dir: Seq<char>,
    stype: Seq<char>,
    file_count: int,
    total_entries: int,
    nanos: int,
) -> TestSessionV {
    TestSessionV {
        id: sid,
        name: name,
        directory_path: dir,
        file_count: file_count,
        total_entries: total_entries,
        created_at: Option::Some(nanos),
        last_parsed_at: Option::Some(nanos),
        source_type: Option::Some(stype),
    }
}

/// The store after one successful non-empty ingest.
pub open spec fn ingested_db(
    db: DbView,
    name: Seq<char>,
    dir: Seq<char>,
    stype: Seq<char>,
    files: Seq<(Seq<char>, Seq<char>, int)>,
    nanos: int,
) -> DbView {
    let sid = session_id_of(name, nanos);
    let sorted = stable_sort(files, triple_le_fn());
    let entries = parsed_entries(sorted, sid);
    let db1 = replace_deleted(db, name, dir);
    let srow = ingested_session_row(
        sid,
        name,
        dir,
        stype,
        files.len() as int,
        entries.len() as int,
        nanos,
    );
    let entries2 = with_ids(entries, db1.next_entry_id);
    let ms = auto_markers(entries2);
    let bm = add_markers(db1.bookmarks, db1.next_bookmark_id, ms);
    DbView {
        sessions: db1.sessions.push(srow),
        entries: db1.entries + entries2,
        bookmarks: bm.0,
        next_entry_id: db1.next_entry_id + entries.len(),
        next_bookmark_id: bm.1,
    }
}

/// Ingests one downloaded session: sorts its files by index, parses them
/// in order, replaces the prior session of the same name and source,
/// inserts the new rows in one batch, and synthesizes anchor bookmarks.
/// An empty parse still replaces the prior session and stores nothing
/// else.  A full id counter refuses the write with the store unchanged;
/// an id collision refuses it after the replace, as a transactional
/// insert would.
pub fn ingest_session(
    db: &mut DatabaseManager,
    name: &str,
    directory_path: &str,
    source_type: &str,
    files: &Vec<(String, String, usize)>,
    nanos: i64,
) -> (r: Result<String, DbError>)
    requires
        old(db).wf(),
    ensures
        final(db).wf(),
        match r {
            Result::Ok(sid) => {
                let sorted = stable_sort(files_view(files@), triple_le_fn());
                let entries = parsed_entries(sorted, session_id_of(name@, nanos as int));
                &&& sid@ == session_id_of(name@, nanos as int)
                &&& (if entries.len() == 0 {
                    final(db)@ == replace_deleted(old(db)@, name@, directory_path@)
                } else {
                    final(db)@ == ingested_db(
                        old(db)@,
                        name@,
                        directory_path@,
                        source_type@,
                        files_view(files@),
                        nanos as int,
                    )
                })
            },
            Result::Err(e) => match e {
                DbError::CounterExhausted => {
                    let sorted = stable_sort(files_view(files@), triple_le_fn());
                    let entries = parsed_entries(sorted, session_id_of(name@, nanos as int));
                    &&& *final(db) == *old(db)
                    &&& (old(db)@.next_entry_id + entries.len() > i64::MAX || old(
                        db,
                    )@.next_bookmark_id + entries.len() > i64::MAX)
                },
                DbError::DuplicateSession => final(db)@ == replace_deleted(
                    old(db)@,
                    name@,
                    directory_path@,
                ) && has_session(
                    replace_deleted(old(db)@, name@, directory_path@).sessions,
                    session_id_of(name@, nanos as int),
                ),
            },
        },
{
    let ghost fv = files_view(files@);
    let sid = make_session_id(name, nanos);
    // order the files by their carried index
    let mut sorted: Vec<(String, String, usize)> = Vec::new();
    let mut i: usize = 0;
    proof {
        assert(fv.take(0) =~= Seq::<(Seq<char>, Seq<char>, int)>::empty());
        assert(files_view(sorted@) =~= stable_sort(fv.take(0), triple_le_fn()));
    }
    while i < files.len()
        invariant
            i <= files.len(),
            fv == files_view(files@),
            files_view(sorted@) == stable_sort(fv.take(i as int), triple_le_fn()),
        decreases files.len() - i,
    {
        let x = (files[i].0.clone(), files[i].1.clone(), files[i].2);
        let ghost rv = files_view(sorted@);
        proof {
            assert((x.0@, x.1@, x.2 as int) == fv[i as int]);
        }
        let mut j: usize = 0;
        while j < sorted.len() && sorted[j].2 <= x.2
            invariant
                j <= sorted.len(),
                (x.0@, x.1@, x.2 as int) == fv[i as int],
                i < files.len(),
                fv == files_view(files@),
                rv == files_view(sorted@),
                forall|k: int| 0 <= k < j ==> triple_le_fn()(#[trigger] rv[k], fv[i as int]),
            decreases sorted.len() - j,
        {
            j = j + 1;
        }
        proof {
            assert(j < sorted.len() ==> !triple_le_fn()(rv[j as int], fv[i as int]));
            lemma_insert_by_at(fv[i as int], rv, triple_le_fn(), j as int);
            assert(fv.take(i + 1).drop_last() =~= fv.take(i as int));
            assert(fv.take(i + 1).last() == fv[i as int]);
        }
        sorted.insert(j, x);
        proof {
            assert(files_view(sorted@) =~= rv.insert(j as int, fv[i as int]));
        }
        i = i + 1;
    }
    proof {
        assert(fv.take(files@.len() as int) =~= fv);
    }
    let ghost sfv = stable_sort(fv, triple_le_fn());
    // parse every file, in index order
    let mut entries: Vec<LogEntry> = Vec::new();
    let mut k: usize = 0;
    proof {
        assert(sfv.skip(0) =~= sfv);
        assert(entries@.map_values(|e: LogEntry| e@) + parsed_entries(sfv.skip(0), sid@)
            =~= parsed_entries(sfv, sid@));
    }
    while k < sorted.len()
        invariant
            k <= sorted.len(),
            sfv == files_view(sorted@),
            sid@ == session_id_of(name@, nanos as int),
            parsed_entries(sfv, sid@) == entries@.map_values(|e: LogEntry| e@) + parsed_entries(
                sfv.skip(k as int),
                sid@,
            ),
        decreases sorted.len() - k,
    {
        let ghost rest = sfv.skip(k as int);
        proof {
            assert(rest[0] == sfv[k as int]);
            assert(rest.drop_first() =~= sfv.skip(k + 1));
            assert(sfv[k as int] == (sorted@[k as int].0@, sorted@[k as int].1@, sorted@[k
                as int].2 as int));
        }
        let f = &sorted[k];
        let parsed = HtmlLogParser::parse_html_string(f.1.as_str(), f.0.as_str(), sid.as_str(), f.2);
        let ghost e0 = entries@;
        let ghost pv = parsed@;
        let mut t: usize = 0;
        let mut parsed_mut = parsed;
        while parsed_mut.len() > 0
            invariant
                entries@.map_values(|e: LogEntry| e@) + parsed_mut@.map_values(|e: LogEntry| e@)
                    == e0.map_values(|e: LogEntry| e@) + pv.map_values(|e: LogEntry| e@),
            decreases parsed_mut.len(),
        {
            let ghost en0 = entries@;
            let ghost pm0 = parsed_mut@;
            let e = parsed_mut.remove(0);
            entries.push(e);
            proof {
                pm0.remove_ensures(0);
                assert(entries@.map_values(|x: LogEntry| x@) =~= en0.map_values(
                    |x: LogEntry| x@,
                ).push(pm0[0]@));
                assert(parsed_mut@ =~= pm0.drop_first());
                assert(en0.map_values(|x: LogEntry| x@).push(pm0[0]@) + pm0.drop_first()
                    .map_values(|x: LogEntry| x@) =~= en0.map_values(|x: LogEntry| x@)
                    + pm0.map_values(|x: LogEntry| x@));
            }
        }
        proof {
            assert(parsed_mut@.map_values(|e: LogEntry| e@) =~= Seq::<LogEntryV>::empty());
            assert(entries@.map_values(|e: LogEntry| e@) =~= e0.map_values(|e: LogEntry| e@)
                + pv.map_values(|e: LogEntry| e@));
            assert(pv.map_values(|e: LogEntry| e@) == entries_from_rows(
                table_rows(sfv[k as int].1),
                0,
                sfv[k as int].0,
                sid@,
                sfv[k as int].2,
            ));
            assert(entries@.map_values(|e: LogEntry| e@) + parsed_entries(sfv.skip(k + 1), sid@)
                =~= e0.map_values(|e: LogEntry| e@) + (entries_from_rows(
                table_rows(sfv[k as int].1),
                0,
                sfv[k as int].0,
                sid@,
                sfv[k as int].2,
            ) + parsed_entries(sfv.skip(k + 1), sid@)));
        }
        k = k + 1;
    }
    proof {
        assert(sfv.skip(sfv.len() as int) =~= Seq::<(Seq<char>, Seq<char>, int)>::empty());
        assert(entries@.map_values(|e: LogEntry| e@) + Seq::<LogEntryV>::empty() =~= entries@
            .map_values(|e: LogEntry| e@));
    }
    let ghost ev = entries@.map_values(|e: LogEntry| e@);
    // refuse the write where an id counter has no room
    let total = entries.len();
    let head_e = db.next_entry_headroom();
    let head_b = db.next_bookmark_headroom();
    if total as u64 > head_e || total as u64 > head_b {
        proof {
            assert(ev.len() == total as int);
            assert(old(db)@.next_entry_id + ev.len() > i64::MAX || old(db)@.next_bookmark_id
                + ev.len() > i64::MAX);
        }
        return Err(DbError::CounterExhausted);
    }
    // replace the prior session of the same name and source
    let _prior = db.delete_session_by_name_and_path(name, directory_path);
    proof {
        assert(db@ == replace_deleted(old(db)@, name@, directory_path@));
    }
    if total == 0 {
        return Ok(sid);
    }
    // the new session row
    let session = TestSession {
        id: sid.clone(),
        name: String::from_str(name),
        directory_path: String::from_str(directory_path),
        file_count: files.len(),
        total_entries: total,
        created_at: Some(nanos),
        last_parsed_at: Some(nanos),
        source_type: Some(String::from_str(source_type)),
    };
    match db.create_test_session(&session) {
        Result::Ok(_) => {
        },
        Result::Err(_) => {
            return Err(DbError::DuplicateSession);
        },
    }
    let ghost db1 = db@;
    let ids = db.insert_entries(entries.as_slice());
    // hand the assigned ids back to the rows for anchor detection
    let mut entries_with_ids: Vec<LogEntry> = Vec::new();
    let mut m: usize = 0;
    proof {
        assert(with_ids(ev, db1.next_entry_id).take(0) =~= Seq::<LogEntryV>::empty());
        assert(entries_with_ids@.map_values(|e: LogEntry| e@) =~= with_ids(
            ev,
            db1.next_entry_id,
        ).take(0));
    }
    while m < entries.len()
        invariant
            m <= entries.len(),
            ev == entries@.map_values(|e: LogEntry| e@),
            ids@.len() == entries@.len(),
            forall|t: int| 0 <= t < ids@.len() ==> ids@[t] as int == db1.next_entry_id + t,
            entries_with_ids@.map_values(|e: LogEntry| e@) == with_ids(
                ev,
                db1.next_entry_id,
            ).take(m as int),
        decreases entries.len() - m,
    {
        let mut e = entries[m].duplicate();
        e.id = Some(ids[m]);
        let ghost w0 = entries_with_ids@;
        entries_with_ids.push(e);
        proof {
            assert(entries_with_ids@.map_values(|x: LogEntry| x@) =~= w0.map_values(
                |x: LogEntry| x@,
            ).push(crate::database::with_eid(ev[m as int], db1.next_entry_id + m)));
            assert(with_ids(ev, db1.next_entry_id).take(m + 1) =~= with_ids(
                ev,
                db1.next_entry_id,
            ).take(m as int).push(crate::database::with_eid(ev[m as int], db1.next_entry_id + m)));
        }
        m = m + 1;
    }
    proof {
        assert(with_ids(ev, db1.next_entry_id).take(entries@.len() as int) =~= with_ids(
            ev,
            db1.next_entry_id,
        ));
    }
    // synthesize the anchor bookmarks
    let markers = find_auto_bookmark_markers(entries_with_ids.as_slice());
    let ghost mv = auto_markers(with_ids(ev, db1.next_entry_id));
    let ghost db2 = db@;
    let mut q: usize = 0;
    proof {
        lemma_auto_markers_len(with_ids(ev, db1.next_entry_id));
        assert(mv.skip(0) =~= mv);
        assert(add_markers(db2.bookmarks, db2.next_bookmark_id, mv) == add_markers(
            db@.bookmarks,
            db@.next_bookmark_id,
            mv.skip(0),
        ));
    }
    while q < markers.len()
        invariant
            q <= markers.len(),
            db.wf(),
            mv == markers@.map_values(|p: (i64, String)| (p.0 as int, p.1@)),
            db@.sessions == db2.sessions,
            db@.entries == db2.entries,
            db@.next_entry_id == db2.next_entry_id,
            db@.next_bookmark_id + (mv.len() - q) <= i64::MAX,
            add_markers(db2.bookmarks, db2.next_bookmark_id, mv) == add_markers(
                db@.bookmarks,
                db@.next_bookmark_id,
                mv.skip(q as int),
            ),
        decreases markers.len() - q,
    {
        let ghost rest = mv.skip(q as int);
        proof {
            assert(rest[0] == mv[q as int]);
            assert(rest.drop_first() =~= mv.skip(q + 1));
            assert(mv[q as int] == (markers@[q as int].0 as int, markers@[q as int].1@));
        }
        let bk = crate::log_parser::Bookmark {
            id: None,
            log_entry_id: markers[q].0,
            title: Some(markers[q].1.clone()),
            notes: None,
            color: None,
            created_at: None,
        };
        let ghost bv = bk@;
        let nid = db.add_bookmark(&bk);
        proof {
            assert(stored_bookmark(bv, nid as int) == auto_bookmark(
                mv[q as int].0,
                nid as int,
                mv[q as int].1,
                Option::None,
            ));
        }
        q = q + 1;
    }
    proof {
        assert(mv.skip(mv.len() as int) =~= Seq::<(int, Seq<char>)>::empty());
        let spec_final = ingested_db(
            old(db)@,
            name@,
            directory_path@,
            source_type@,
            fv,
            nanos as int,
        );
        assert(db@.bookmarks == spec_final.bookmarks && db@.next_bookmark_id
            == spec_final.next_bookmark_id) by {
            assert(add_markers(db2.bookmarks, db2.next_bookmark_id, mv) == (
                db@.bookmarks,
                db@.next_bookmark_id,
            ));
        }
        assert(db@.sessions =~= spec_final.sessions);
        assert(db@.entries =~= spec_final.entries);
        assert(db@ == spec_final);
    }
    Ok(sid)
}

} // verus!
