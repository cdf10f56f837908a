//! The log data model and the HTML log parser: one HTML document in, an
//! ordered sequence of log records out, plus the file-name grammar that
//! decides which files belong to a test session.

use vstd::prelude::*;

use crate::sorting::{lemma_insert_by_at, lemma_remove_insert_update, stable_sort};
use crate::text::{
    all_digits, ends_with, ends_with_str, last_match, parse_dec, parse_usize, rfind_sub,
    strip_level, strip_level_str, trim_spec, trim_str,
};

verus! {

/// One row of a parsed log table.
#[derive(Clone, Debug)]
pub struct LogEntry {
    pub id: Option<i64>,
    pub test_session_id: String,
    pub file_path: String,
    pub file_index: usize,
    pub timestamp: String,
    pub level: String,
    pub stack: String,
    pub message: String,
    pub line_number: usize,
    pub created_at: Option<i64>,
}

/// The mathematical value of a `LogEntry`.
pub ghost struct LogEntryV {
    pub id: Option<int>,
    pub test_session_id: Seq<char>,
    pub file_path: Seq<char>,
    pub file_index: int,
    pub timestamp: Seq<char>,
    pub level: Seq<char>,
    pub stack: Seq<char>,
    pub message: Seq<char>,
    pub line_number: int,
    pub created_at: Option<int>,
}

impl View for LogEntry {
    type V = LogEntryV;

    open spec fn view(&self) -> LogEntryV {
        LogEntryV {
            id: match self.id {
                Option::Some(i) => Option::Some(i as int),
                Option::None => Option::None,
            },
            test_session_id: self.test_session_id@,
            file_path: self.file_path@,
            file_index: self.file_index as int,
            timestamp: self.timestamp@,
            level: self.level@,
            stack: self.stack@,
            message: self.message@,
            line_number: self.line_number as int,
            created_at: match self.created_at {
                Option::Some(i) => Option::Some(i as int),
                Option::None => Option::None,
            },
        }
    }
}

impl LogEntry {
    /// A field-for-field copy whose value Verus can see.
    pub fn duplicate(&self) -> (r: LogEntry)
        ensures
            r == *self,
    {
        LogEntry {
            id: self.id,
            test_session_id: self.test_session_id.clone(),
            file_path: self.file_path.clone(),
            file_index: self.file_index,
            timestamp: self.timestamp.clone(),
            level: self.level.clone(),
            stack: self.stack.clone(),
            message: self.message.clone(),
            line_number: self.line_number,
            created_at: self.created_at,
        }
    }
}

/// A user or synthesized anchor on one log entry.
#[derive(Clone, Debug)]
pub struct Bookmark {
    pub id: Option<i64>,
    pub log_entry_id: i64,
    pub title: Option<String>,
    pub notes: Option<String>,
    pub color: Option<String>,
    pub created_at: Option<i64>,
}

/// The mathematical value of a `Bookmark`.
pub ghost struct BookmarkV {
    pub id: Option<int>,
    pub log_entry_id: int,
    pub title: Option<Seq<char>>,
    pub notes: Option<Seq<char>>,
    pub color: Option<Seq<char>>,
    pub created_at: Option<int>,
}

impl View for Bookmark {
    type V = BookmarkV;

    open spec fn view(&self) -> BookmarkV {
        BookmarkV {
            id: match self.id {
                Option::Some(i) => Option::Some(i as int),
                Option::None => Option::None,
            },
            log_entry_id: self.log_entry_id as int,
            title: match self.title {
                Option::Some(ref s) => Option::Some(s@),
                Option::None => Option::None,
            },
            notes: match self.notes {
                Option::Some(ref s) => Option::Some(s@),
                Option::None => Option::None,
            },
            color: match self.color {
                Option::Some(ref s) => Option::Some(s@),
                Option::None => Option::None,
            },
            created_at: match self.created_at {
                Option::Some(i) => Option::Some(i as int),
                Option::None => Option::None,
            },
        }
    }
}

impl Bookmark {
    /// A field-for-field copy whose value Verus can see.
    pub fn duplicate(&self) -> (r: Bookmark)
        ensures
            r == *self,
    {
        Bookmark {
            id: self.id,
            log_entry_id: self.log_entry_id,
            title: match &self.title {
                Option::Some(s) => Option::Some(s.clone()),
                Option::None => Option::None,
            },
            notes: match &self.notes {
                Option::Some(s) => Option::Some(s.clone()),
                Option::None => Option::None,
            },
            color: match &self.color {
                Option::Some(s) => Option::Some(s.clone()),
                Option::None => Option::None,
            },
            created_at: self.created_at,
        }
    }
}

/// One logical test run: a named group of parsed log files.
#[derive(Clone, Debug)]
pub struct TestSession {
    pub id: String,
    pub name: String,
    pub directory_path: String,
    pub file_count: usize,
    pub total_entries: usize,
    pub created_at: Option<i64>,
    pub last_parsed_at: Option<i64>,
    pub source_type: Option<String>,
}

/// The mathematical value of a `TestSession`.
pub ghost struct TestSessionV {
    pub id: Seq<char>,
    pub name: Seq<char>,
    pub directory_path: Seq<char>,
    pub file_count: int,
    pub total_entries: int,
    pub created_at: Option<int>,
    pub last_parsed_at: Option<int>,
    pub source_type: Option<Seq<char>>,
}

impl View for TestSession {
    type V = TestSessionV;

    open spec fn view(&self) -> TestSessionV {
        TestSessionV {
            id: self.id@,
            name: self.name@,
            directory_path: self.directory_path@,
            file_count: self.file_count as int,
            total_entries: self.total_entries as int,
            created_at: match self.created_at {
                Option::Some(i) => Option::Some(i as int),
                Option::None => Option::None,
            },
            last_parsed_at: match self.last_parsed_at {
                Option::Some(i) => Option::Some(i as int),
                Option::None => Option::None,
            },
            source_type: match self.source_type {
                Option::Some(ref s) => Option::Some(s@),
                Option::None => Option::None,
            },
        }
    }
}

impl TestSession {
    /// A field-for-field copy whose value Verus can see.
    pub fn duplicate(&self) -> (r: TestSession)
        ensures
            r == *self,
    {
        TestSession {
            id: self.id.clone(),
            name: self.name.clone(),
            directory_path: self.directory_path.clone(),
            file_count: self.file_count,
            total_entries: self.total_entries,
            created_at: self.created_at,
            last_parsed_at: self.last_parsed_at,
            source_type: match &self.source_type {
                Option::Some(s) => Option::Some(s.clone()),
                Option::None => Option::None,
            },
        }
    }
}

/// The probe-only view of one would-be session, for a host to display.
#[derive(Clone, Debug)]
pub struct ScanResult {
    pub test_name: String,
    pub file_count: usize,
    pub is_loaded: bool,
    pub existing_session_id: Option<String>,
    pub estimated_entries: Option<usize>,
}

/// The mathematical value of a `ScanResult`.
pub ghost struct ScanResultV {
    pub test_name: Seq<char>,
    pub file_count: int,
    pub is_loaded: bool,
    pub existing_session_id: Option<Seq<char>>,
    pub estimated_entries: Option<int>,
}

impl View for ScanResult {
    type V = ScanResultV;

    open spec fn view(&self) -> ScanResultV {
        ScanResultV {
            test_name: self.test_name@,
            file_count: self.file_count as int,
            is_loaded: self.is_loaded,
            existing_session_id: match self.existing_session_id {
                Option::Some(ref s) => Option::Some(s@),
                Option::None => Option::None,
            },
            estimated_entries: match self.estimated_entries {
                Option::Some(n) => Option::Some(n as int),
                Option::None => Option::None,
            },
        }
    }
}

/// One row of a caller-shaped search, as the store hands it back.
#[derive(Clone, Debug)]
pub struct SearchResult {
    pub id: i64,
    pub timestamp: String,
    pub line_number: usize,
    pub message: String,
}

// ------------------------------------------------------------------
// file-name grammar
// ------------------------------------------------------------------

/// The part of a path after its final separator.
pub open spec fn base_name(path: Seq<char>) -> Seq<char> {
    match last_match("/"@, path) {
        Option::None => path,
        Option::Some(i) => path.skip(i + "/"@.len()),
    }
}

/// The session key of a test-log file name, when the name matches the
/// grammar `<name>_ID_<digits>---<digits>.html` with `<name>` non-empty;
/// the key is the prefix through `_ID_<digits>`.  An index too large for
/// the machine word is treated as no match.
pub open spec fn test_log_name(filename: Seq<char>) -> Option<Seq<char>> {
    match last_match("---"@, filename) {
        Option::None => Option::None,
        Option::Some(dash) => {
            let tail = filename.skip(dash + "---"@.len());
            let prefix = filename.take(dash);
            if !ends_with(tail, ".html"@) {
                Option::None
            } else {
                let digits2 = tail.take(tail.len() - ".html"@.len());
                match parse_dec(digits2) {
                    Option::None => Option::None,
                    Option::Some(v) => if v > usize::MAX {
                        Option::None
                    } else {
                        match last_match("_ID_"@, prefix) {
                            Option::None => Option::None,
                            Option::Some(idp) => {
                                let digits1 = prefix.skip(idp + "_ID_"@.len());
                                if idp > 0 && digits1.len() > 0 && all_digits(digits1) {
                                    Option::Some(prefix)
                                } else {
                                    Option::None
                                }
                            },
                        }
                    },
                }
            }
        },
    }
}

/// The ordering index a file carries after its `---`, and zero where the
/// name carries none that parses.
pub open spec fn file_index_of(path: Seq<char>) -> int {
    let name = base_name(path);
    match last_match("---"@, name) {
        Option::None => 0,
        Option::Some(dash) => match last_match(".html"@, name) {
            Option::None => 0,
            Option::Some(dot) => if dot < dash + "---"@.len() {
                0
            } else {
                match parse_dec(name.subrange(dash + "---"@.len(), dot)) {
                    Option::Some(v) => if v <= usize::MAX {
                        v
                    } else {
                        0
                    },
                    Option::None => 0,
                }
            },
        },
    }
}

// ------------------------------------------------------------------
// HTML table rows
// ------------------------------------------------------------------

/// One `<tr>` of a log document, reduced to the cell texts the log format
/// tags: the `date`, `level`, `message` and hidden `stack` cells, the first
/// plain cell, and whether the row holds a `<th>` header cell.
pub struct RawRow {
    pub has_header: bool,
    pub date: Option<String>,
    pub level: Option<String>,
    pub message: Option<String>,
    pub stack: Option<String>,
    pub first_cell: Option<String>,
}

/// The mathematical value of a `RawRow`.
pub ghost struct RawRowV {
    pub has_header: bool,
    pub date: Option<Seq<char>>,
    pub level: Option<Seq<char>>,
    pub message: Option<Seq<char>>,
    pub stack: Option<Seq<char>>,
    pub first_cell: Option<Seq<char>>,
}

impl View for RawRow {
    type V = RawRowV;

    open spec fn view(&self) -> RawRowV {
        RawRowV {
            has_header: self.has_header,
            date: match self.date {
                Option::Some(ref s) => Option::Some(s@),
                Option::None => Option::None,
            },
            level: match self.level {
                Option::Some(ref s) => Option::Some(s@),
                Option::None => Option::None,
            },
            message: match self.message {
                Option::Some(ref s) => Option::Some(s@),
                Option::None => Option::None,
            },
            stack: match self.stack {
                Option::Some(ref s) => Option::Some(s@),
                Option::None => Option::None,
            },
            first_cell: match self.first_cell {
                Option::Some(ref s) => Option::Some(s@),
                Option::None => Option::None,
            },
        }
    }
}

/// What scraper's HTML parse and CSS selection yield for a document: the
/// rows of its tables with their tagged cell texts.  A function of the
/// document alone; only `extract_table_rows` speaks for it.
pub uninterp spec fn table_rows(html: Seq<char>) -> Seq<RawRowV>;

/// Relies on scraper: its HTML parse of the document and its CSS selection
/// of the table rows and of the cells `th`, `td.date`, `td.level`,
/// `td.message`, `td.stack[hidden]` and `td` within each row, with the
/// concatenated text of the first cell each selector finds.
#[verifier::external_body]
fn extract_table_rows(html: &str) -> (rows: Vec<RawRow>)
    ensures
        rows@.map_values(|x: RawRow| x@) == table_rows(html@),
{
    let sel = |s: &str| scraper::Selector::parse(s).unwrap();
    let text = |r: scraper::ElementRef, s: &str| r.select(&sel(s)).next().map(|e| e.text().collect::<String>());
    let doc = scraper::Html::parse_document(html);
    doc.select(&sel("table tr")).map(|r| RawRow {
        has_header: text(r, "th").is_some(),
        date: text(r, "td.date"),
        level: text(r, "td.level"),
        message: text(r, "td.message"),
        stack: text(r, "td.stack[hidden]"),
        first_cell: text(r, "td"),
    }).collect()
}

/// The timestamp a row carries: the `date` cell, else the first cell,
/// trimmed.
pub open spec fn row_timestamp(r: RawRowV) -> Seq<char> {
    match r.date {
        Option::Some(t) => trim_spec(t),
        Option::None => match r.first_cell {
            Option::Some(t) => trim_spec(t),
            Option::None => Seq::empty(),
        },
    }
}

/// A row the parser drops: a header row, an empty timestamp, or the
/// header text `Timestamp` itself.
pub open spec fn row_skip(r: RawRowV) -> bool {
    r.has_header || row_timestamp(r).len() == 0 || row_timestamp(r) == "Timestamp"@
}

/// The level token a row carries, trimmed and unbracketed.
pub open spec fn row_level(r: RawRowV) -> Seq<char> {
    match r.level {
        Option::Some(t) => strip_level(trim_spec(t)),
        Option::None => Seq::empty(),
    }
}

/// The message a row carries, trimmed.
pub open spec fn row_message(r: RawRowV) -> Seq<char> {
    match r.message {
        Option::Some(t) => trim_spec(t),
        Option::None => Seq::empty(),
    }
}

/// The hidden stack text a row carries, trimmed; empty where absent.
pub open spec fn row_stack(r: RawRowV) -> Seq<char> {
    match r.stack {
        Option::Some(t) => trim_spec(t),
        Option::None => Seq::empty(),
    }
}

/// The record one kept row yields.
pub open spec fn entry_of_row(
    r: RawRowV,
    line: int,
    file_url: Seq<char>,
    session_id: Seq<char>,
    file_index: int,
) -> LogEntryV {
    LogEntryV {
        id: Option::None,
        test_session_id: session_id,
        file_path: file_url,
        file_index: file_index,
        timestamp: row_timestamp(r),
        level: row_level(r),
        stack: row_stack(r),
        message: row_message(r),
        line_number: line,
        created_at: Option::None,
    }
}

/// The records of a row sequence: every row advances the line number, and
/// every row `row_skip` does not drop contributes one record.
pub open spec fn entries_from_rows(
    rows: Seq<RawRowV>,
    line: int,
    file_url: Seq<char>,
    session_id: Seq<char>,
    file_index: int,
) -> Seq<LogEntryV>
    decreases rows.len(),
{
    if rows.len() == 0 {
        Seq::empty()
    } else {
        let rest = entries_from_rows(rows.drop_first(), line + 1, file_url, session_id, file_index);
        if row_skip(rows[0]) {
            rest
        } else {
            seq![entry_of_row(rows[0], line, file_url, session_id, file_index)] + rest
        }
    }
}

// ------------------------------------------------------------------
// grouping files into sessions
// ------------------------------------------------------------------

/// The paths that name test-log files, grouped by session key in order of
/// first appearance.
pub open spec fn group_paths(paths: Seq<Seq<char>>) -> Seq<(Seq<char>, Seq<Seq<char>>)>
    decreases paths.len(),
{
    if paths.len() == 0 {
        Seq::empty()
    } else {
        let gs = group_paths(paths.drop_last());
        match test_log_name(base_name(paths.last())) {
            Option::Some(k) => crate::grouping::add_group(gs, k, paths.last()),
            Option::None => gs,
        }
    }
}

/// The order of files within a group: by their `---` index.
pub open spec fn file_leq_fn() -> spec_fn(Seq<char>, Seq<char>) -> bool {
    |a: Seq<char>, b: Seq<char>| file_index_of(a) <= file_index_of(b)
}

/// Each group's files ordered by file index.
pub open spec fn sort_groups(
    gs: Seq<(Seq<char>, Seq<Seq<char>>)>,
) -> Seq<(Seq<char>, Seq<Seq<char>>)> {
    gs.map_values(|g: (Seq<char>, Seq<Seq<char>>)| (g.0, stable_sort(g.1, file_leq_fn())))
}

/// The groups of `group_paths`, each ordered by file index.
pub open spec fn grouped_sorted(paths: Seq<Seq<char>>) -> Seq<(Seq<char>, Seq<Seq<char>>)> {
    sort_groups(group_paths(paths))
}


/// Orders one group's files by their index, exactly the stable sort under
/// `file_leq_fn`.
fn sort_files_by_index(files: &Vec<String>) -> (r: Vec<String>)
    ensures
        r.deep_view() == stable_sort(files.deep_view(), file_leq_fn()),
{
    let mut r: Vec<String> = Vec::new();
    let mut i: usize = 0;
    proof {
        assert(files.deep_view().take(0) =~= Seq::<Seq<char>>::empty());
        assert(r.deep_view() =~= stable_sort(files.deep_view().take(0), file_leq_fn()));
    }
    while i < files.len()
        invariant
            i <= files.len(),
            r.deep_view() == stable_sort(files.deep_view().take(i as int), file_leq_fn()),
        decreases files.len() - i,
    {
        let x = files[i].clone();
        let xi = HtmlLogParser::extract_file_index(x.as_str());
        let mut j: usize = 0;
        while j < r.len() && HtmlLogParser::extract_file_index(r[j].as_str()) <= xi
            invariant
                j <= r.len(),
                xi as int == file_index_of(x@),
                x@ == files.deep_view()[i as int],
                i < files.len(),
                forall|k: int|
                    0 <= k < j ==> file_leq_fn()(#[trigger] r.deep_view()[k], x@),
            decreases r.len() - j,
        {
            j = j + 1;
        }
        proof {
            assert(j < r.len() ==> !file_leq_fn()(r.deep_view()[j as int], x@));
            lemma_insert_by_at(x@, r.deep_view(), file_leq_fn(), j as int);
            assert(files.deep_view().take(i + 1).drop_last() =~= files.deep_view().take(i as int));
            assert(files.deep_view().take(i + 1).last() == files.deep_view()[i as int]);
        }
        let ghost r_old = r.deep_view();
        r.insert(j, x);
        proof {
            assert(r.deep_view() =~= r_old.insert(j as int, files.deep_view()[i as int]));
        }
        i = i + 1;
    }
    proof {
        assert(files.deep_view().take(files.len() as int) =~= files.deep_view());
    }
    r
}

/// The HTML log parser.
pub struct HtmlLogParser;

impl HtmlLogParser {
    /// The file's ordering index, exactly `file_index_of` of the path.
    pub fn extract_file_index(file_path: &str) -> (r: usize)
        ensures
            r as int == file_index_of(file_path@),
    {
        proof {
            reveal_strlit("/");
            reveal_strlit("---");
            reveal_strlit(".html");
        }
        let len = file_path.unicode_len();
        let name: &str = match rfind_sub(file_path, "/") {
            Option::Some(i) => file_path.substring_char(i + 1, len),
            Option::None => file_path,
        };
        let nlen = name.unicode_len();
        let dash = match rfind_sub(name, "---") {
            Option::Some(d) => d,
            Option::None => {
                return 0;
            },
        };
        let dot = match rfind_sub(name, ".html") {
            Option::Some(d) => d,
            Option::None => {
                return 0;
            },
        };
        if dot < dash + 3 {
            return 0;
        }
        let digits = name.substring_char(dash + 3, dot);
        proof {
            assert(base_name(file_path@) == name@);
            assert(digits@ == base_name(file_path@).subrange(dash + 3, dot as int));
        }
        match parse_usize(digits) {
            Option::Some(v) => v,
            Option::None => 0,
        }
    }

    /// The session key of a file name, exactly `test_log_name`.
    pub fn is_test_log_file(filename: &str) -> (r: Option<String>)
        ensures
            match r {
                Option::Some(s) => test_log_name(filename@) == Option::Some(s@),
                Option::None => test_log_name(filename@) is None,
            },
    {
        proof {
            reveal_strlit("---");
            reveal_strlit(".html");
            reveal_strlit("_ID_");
        }
        let len = filename.unicode_len();
        let dash = match rfind_sub(filename, "---") {
            Option::Some(d) => d,
            Option::None => {
                return None;
            },
        };
        let tail = filename.substring_char(dash + 3, len);
        if !ends_with_str(tail, ".html") {
            return None;
        }
        let tlen = tail.unicode_len();
        let digits2 = tail.substring_char(0, tlen - 5);
        if parse_usize(digits2).is_none() {
            return None;
        }
        let prefix = filename.substring_char(0, dash);
        let idp = match rfind_sub(prefix, "_ID_") {
            Option::Some(p) => p,
            Option::None => {
                return None;
            },
        };
        if idp == 0 {
            return None;
        }
        let plen = prefix.unicode_len();
        let digits1 = prefix.substring_char(idp + 4, plen);
        let d1len = digits1.unicode_len();
        if d1len == 0 {
            return None;
        }
        proof {
            assert(!all_digits(digits1@) ==> test_log_name(filename@) is None);
            assert(all_digits(digits1@) ==> test_log_name(filename@) == Option::Some(prefix@));
        }
        let mut k: usize = 0;
        while k < d1len
            invariant
                k <= d1len,
                d1len == digits1@.len(),
                forall|j: int| 0 <= j < k ==> crate::text::is_digit(#[trigger] digits1@[j]),
                !all_digits(digits1@) ==> test_log_name(filename@) is None,
                all_digits(digits1@) ==> test_log_name(filename@) == Option::Some(prefix@),
            decreases d1len - k,
        {
            let c = digits1.get_char(k);
            let u = c as u32;
            if u < 48 || u > 57 {
                proof {
                    assert(!crate::text::is_digit(digits1@[k as int]));
                    assert(!all_digits(digits1@));
                }
                return None;
            }
            k = k + 1;
        }
        proof {
            assert(all_digits(digits1@));
        }
        Some(String::from_str(prefix))
    }

    /// Parses one HTML log document into its ordered log records, exactly
    /// `entries_from_rows` of the document's table rows.
    pub fn parse_html_string(
        html: &str,
        file_url: &str,
        test_session_id: &str,
        file_index: usize,
    ) -> (r: Vec<LogEntry>)
        ensures
            r@.map_values(|e: LogEntry| e@) == entries_from_rows(
                table_rows(html@),
                0,
                file_url@,
                test_session_id@,
                file_index as int,
            ),
    {
        let rows = extract_table_rows(html);
        let ghost rows_v = rows@.map_values(|x: RawRow| x@);
        let mut out: Vec<LogEntry> = Vec::new();
        let mut i: usize = 0;
        proof {
            assert(rows_v.skip(0) =~= rows_v);
            assert(out@.map_values(|e: LogEntry| e@) + entries_from_rows(
                rows_v.skip(0),
                0,
                file_url@,
                test_session_id@,
                file_index as int,
            ) =~= entries_from_rows(rows_v, 0, file_url@, test_session_id@, file_index as int));
        }
        while i < rows.len()
            invariant
                i <= rows.len(),
                rows_v == rows@.map_values(|x: RawRow| x@),
                entries_from_rows(rows_v, 0, file_url@, test_session_id@, file_index as int)
                    == out@.map_values(|e: LogEntry| e@) + entries_from_rows(
                    rows_v.skip(i as int),
                    i as int,
                    file_url@,
                    test_session_id@,
                    file_index as int,
                ),
            decreases rows.len() - i,
        {
            let ghost rest = rows_v.skip(i as int);
            proof {
                assert(rows_v[i as int] == rows@[i as int]@);
                assert(rest[0] == rows_v[i as int]);
                assert(rest.drop_first() =~= rows_v.skip(i + 1));
            }
            let row = &rows[i];
            let timestamp = match &row.date {
                Option::Some(t) => trim_str(t.as_str()),
                Option::None => match &row.first_cell {
                    Option::Some(t) => trim_str(t.as_str()),
                    Option::None => String::new(),
                },
            };
            proof {
                assert(timestamp@ == row_timestamp(rows_v[i as int]));
            }
            let skip_row = row.has_header || timestamp.unicode_len() == 0 || crate::text::str_eq(
                timestamp.as_str(),
                "Timestamp",
            );
            if !skip_row {
                let level = match &row.level {
                    Option::Some(t) => strip_level_str(trim_str(t.as_str()).as_str()),
                    Option::None => String::new(),
                };
                let message = match &row.message {
                    Option::Some(t) => trim_str(t.as_str()),
                    Option::None => String::new(),
                };
                let stack = match &row.stack {
                    Option::Some(t) => trim_str(t.as_str()),
                    Option::None => String::new(),
                };
                let entry = LogEntry {
                    id: None,
                    test_session_id: String::from_str(test_session_id),
                    file_path: String::from_str(file_url),
                    file_index,
                    timestamp,
                    level,
                    stack,
                    message,
                    line_number: i,
                    created_at: None,
                };
                proof {
                    assert(entry@ == entry_of_row(
                        rows_v[i as int],
                        i as int,
                        file_url@,
                        test_session_id@,
                        file_index as int,
                    ));
                }
                let ghost out_before = out@;
                out.push(entry);
                proof {
                    assert(out@.map_values(|e: LogEntry| e@) =~= out_before.map_values(
                        |e: LogEntry| e@,
                    ).push(entry@));
                    assert(out@.map_values(|e: LogEntry| e@) + entries_from_rows(
                        rows_v.skip(i + 1),
                        i + 1,
                        file_url@,
                        test_session_id@,
                        file_index as int,
                    ) =~= out_before.map_values(|e: LogEntry| e@) + (seq![entry@]
                        + entries_from_rows(
                        rows_v.skip(i + 1),
                        i + 1,
                        file_url@,
                        test_session_id@,
                        file_index as int,
                    )));
                }
            } else {
                proof {
                    assert(row_skip(rows_v[i as int]));
                }
            }
            i = i + 1;
        }
        proof {
            assert(rows_v.skip(rows_v.len() as int) =~= Seq::<RawRowV>::empty());
            assert(out@.map_values(|e: LogEntry| e@) + Seq::<LogEntryV>::empty() =~= out@
                .map_values(|e: LogEntry| e@));
        }
        out
    }

    /// Groups a set of file paths by session key and orders each group by
    /// file index, exactly `grouped_sorted` of the paths.
    pub fn group_html_files(paths: &Vec<String>) -> (r: Vec<(String, Vec<String>)>)
        ensures
            r.deep_view() == grouped_sorted(paths.deep_view()),
    {
        let mut groups: Vec<(String, Vec<String>)> = Vec::new();
        let mut i: usize = 0;
        proof {
            assert(paths.deep_view().take(0) =~= Seq::<Seq<char>>::empty());
            assert(groups.deep_view() =~= group_paths(paths.deep_view().take(0)));
        }
        while i < paths.len()
            invariant
                i <= paths.len(),
                groups.deep_view() == group_paths(paths.deep_view().take(i as int)),
            decreases paths.len() - i,
        {
            proof {
                assert(paths.deep_view().take(i + 1).drop_last() =~= paths.deep_view().take(
                    i as int,
                ));
                assert(paths.deep_view().take(i + 1).last() == paths.deep_view()[i as int]);
                assert(paths.deep_view()[i as int] == paths[i as int]@);
            }
            let p = &paths[i];
            match Self::extract_test_name(p.as_str()) {
                Option::Some(name) => {
                    let ghost gs = groups.deep_view();
                    let ghost v0 = groups@;
                    let mut j: usize = 0;
                    while j < groups.len() && !crate::text::str_eq(
                        groups[j].0.as_str(),
                        name.as_str(),
                    )
                        invariant
                            j <= groups.len(),
                            gs == groups.deep_view(),
                            forall|k: int| 0 <= k < j ==> (#[trigger] gs[k]).0 != name@,
                        decreases groups.len() - j,
                    {
                        j = j + 1;
                    }
                    if j < groups.len() {
                        proof {
                            assert(gs[j as int].0 == name@);
                        }
                        let (gname, mut gfiles) = groups.remove(j);
                        let ghost gname0 = gname;
                        let ghost gfiles0 = gfiles@;
                        gfiles.push(p.clone());
                        groups.insert(j, (gname, gfiles));
                        proof {
                            crate::grouping::lemma_add_group_found(gs, name@, p@, j as int);
                            let t = groups@[j as int];
                            assert(v0.remove(j as int).insert(j as int, t)[j as int] == t);
                            lemma_remove_insert_update(v0, j as int, t);
                            assert(groups@ =~= v0.update(j as int, t));
                            assert(t.0 == gname0 && gname0 == v0[j as int].0);
                            assert(t.1@ =~= v0[j as int].1@.push(*p));
                            assert(t.1.deep_view() =~= gs[j as int].1.push(p@));
                            let target = gs.update(j as int, (name@, gs[j as int].1.push(p@)));
                            assert(groups.deep_view().len() == target.len());
                            assert forall|k: int|
                                0 <= k < target.len() implies groups.deep_view()[k] == target[k] by {
                                if k == j {
                                    assert(t.0@ == name@);
                                    assert(groups@[k].deep_view() == (
                                        name@,
                                        gs[j as int].1.push(p@),
                                    ));
                                } else {
                                    assert(groups@[k] == v0[k]);
                                    assert(gs[k] == v0[k].deep_view());
                                }
                            }
                            assert(groups.deep_view() =~= target);
                        }
                    } else {
                        let mut files: Vec<String> = Vec::new();
                        files.push(p.clone());
                        groups.push((name.clone(), files));
                        proof {
                            crate::grouping::lemma_add_group_new(gs, name@, p@);
                            let target = gs.push((name@, seq![p@]));
                            assert(groups.deep_view().len() == target.len());
                            assert forall|k: int|
                                0 <= k < target.len() implies groups.deep_view()[k] == target[k] by {
                                if k < gs.len() {
                                    assert(groups@[k] == v0[k]);
                                    assert(gs[k] == v0[k].deep_view());
                                } else {
                                    assert(groups@[k].deep_view() == (name@, seq![p@]));
                                }
                            }
                            assert(groups.deep_view() =~= target);
                        }
                    }
                },
                Option::None => {
                },
            }
            i = i + 1;
        }
        proof {
            assert(paths.deep_view().take(paths.len() as int) =~= paths.deep_view());
        }
        let mut out: Vec<(String, Vec<String>)> = Vec::new();
        let mut m: usize = 0;
        let ghost grouped = group_paths(paths.deep_view());
        proof {
            assert(grouped.take(0) =~= Seq::<(Seq<char>, Seq<Seq<char>>)>::empty());
            assert(out.deep_view() =~= sort_groups(grouped.take(0)));
        }
        while m < groups.len()
            invariant
                m <= groups.len(),
                groups.deep_view() == grouped,
                out.deep_view() == sort_groups(grouped.take(m as int)),
            decreases groups.len() - m,
        {
            let g = &groups[m];
            proof {
                assert(groups@[m as int].deep_view() == grouped[m as int]);
            }
            let sorted = sort_files_by_index(&g.1);
            let ghost out0 = out.deep_view();
            out.push((g.0.clone(), sorted));
            proof {
                let target = sort_groups(grouped.take(m + 1));
                assert(target.len() == grouped.take(m + 1).len());
                assert(grouped.take(m + 1).len() == m + 1);
                assert(out0.len() == m as int);
                assert(out.deep_view().len() == out@.len());
                assert(out.deep_view().len() == target.len());
                assert forall|k: int|
                    0 <= k < target.len() implies out.deep_view()[k] == target[k] by {
                    assert(grouped.take(m + 1)[k] == grouped[k]);
                    if k < m {
                        assert(out.deep_view()[k] == out0[k]);
                        assert(out0[k] == sort_groups(grouped.take(m as int))[k]);
                        assert(sort_groups(grouped.take(m as int))[k] == (
                            grouped[k].0,
                            stable_sort(grouped[k].1, file_leq_fn()),
                        ));
                    } else {
                        assert(out.deep_view()[k] == (
                            grouped[m as int].0,
                            stable_sort(grouped[m as int].1, file_leq_fn()),
                        ));
                    }
                }
                assert(out.deep_view() =~= target);
            }
            m = m + 1;
        }
        proof {
            assert(grouped.take(groups.len() as int) =~= grouped);
        }
        out
    }

    /// The session key of the file a path names, exactly `test_log_name`
    /// of the path's base name.
    pub fn extract_test_name(file_path: &str) -> (r: Option<String>)
        ensures
            match r {
                Option::Some(s) => test_log_name(base_name(file_path@)) == Option::Some(s@),
                Option::None => test_log_name(base_name(file_path@)) is None,
            },
    {
        proof {
            reveal_strlit("/");
        }
        let len = file_path.unicode_len();
        let name: &str = match rfind_sub(file_path, "/") {
            Option::Some(i) => file_path.substring_char(i + 1, len),
            Option::None => file_path,
        };
        Self::is_test_log_file(name)
    }
}

} // verus!
