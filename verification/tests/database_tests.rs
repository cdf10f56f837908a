use logterminator::database::DatabaseManager;
use logterminator::log_parser::{Bookmark, HtmlLogParser, LogEntry, TestSession};

fn entry(session: &str, ts: &str, level: &str, message: &str) -> LogEntry {
    LogEntry {
        id: None,
        test_session_id: session.to_string(),
        file_path: "f.html".to_string(),
        file_index: 0,
        timestamp: ts.to_string(),
        level: level.to_string(),
        stack: String::new(),
        message: message.to_string(),
        line_number: 0,
        created_at: None,
    }
}

fn session(id: &str, name: &str, dir: &str) -> TestSession {
    TestSession {
        id: id.to_string(),
        name: name.to_string(),
        directory_path: dir.to_string(),
        file_count: 1,
        total_entries: 0,
        created_at: None,
        last_parsed_at: None,
        source_type: Some("local".to_string()),
    }
}

#[test]
fn test_insert_returns_ids_in_order() {
    let mut db = DatabaseManager::new();
    let rows = vec![
        entry("s1", "t1", "INFO", "a"),
        entry("s1", "t2", "WARN", "b"),
    ];
    let ids = db.insert_entries(&rows);
    assert_eq!(ids, vec![1, 2]);
    let ids2 = db.insert_entries(&rows);
    assert_eq!(ids2, vec![3, 4]);
}

#[test]
fn test_round_trip_unfiltered_read() {
    // parsed rows come back unchanged, in (timestamp, id) order
    let html = r#"<html><body><table>
<tr><th>Timestamp</th></tr>
<tr><td class="date"> 2026/01/01 00:00:02 </td><td class="level">[WARN]</td><td class="message"> second </td></tr>
<tr><td class="date">2026/01/01 00:00:01</td><td class="level">INFO</td><td class="stack" hidden> tr </td><td class="message">first</td></tr>
</table></body></html>"#;
    let rows = HtmlLogParser::parse_html_string(html, "f.html", "s1", 0);
    assert_eq!(rows.len(), 2);
    let mut db = DatabaseManager::new();
    db.insert_entries(&rows);
    let (page, total) = db.get_entries_paginated("s1", 0, 100, None, None);
    assert_eq!(total, 2);
    assert_eq!(page.len(), 2);
    assert_eq!(page[0].timestamp, "2026/01/01 00:00:01");
    assert_eq!(page[0].level, "INFO");
    assert_eq!(page[0].message, "first");
    assert_eq!(page[0].stack, "tr");
    assert_eq!(page[1].timestamp, "2026/01/01 00:00:02");
    assert_eq!(page[1].level, "WARN");
    assert_eq!(page[1].message, "second");
    assert_eq!(page[1].stack, "");
}

#[test]
fn test_level_bracket_tolerance() {
    let mut db = DatabaseManager::new();
    db.insert_entries(&vec![
        entry("s1", "t1", "INFO", "a"),
        entry("s1", "t2", "[INFO]", "b"),
        entry("s1", "t3", "WARN", "c"),
    ]);
    let levels = vec!["INFO".to_string()];
    let (page, total) = db.get_entries_paginated("s1", 0, 10, Some(&levels), None);
    assert_eq!(total, 2);
    assert_eq!(page.len(), 2);
    assert_eq!(page[0].message, "a");
    assert_eq!(page[1].message, "b");
}

#[test]
fn test_empty_level_list_selects_nothing() {
    let mut db = DatabaseManager::new();
    db.insert_entries(&vec![entry("s1", "t1", "INFO", "a")]);
    let levels: Vec<String> = Vec::new();
    let (page, total) = db.get_entries_paginated("s1", 0, 10, Some(&levels), None);
    assert_eq!(total, 0);
    assert!(page.is_empty());
}

#[test]
fn test_legacy_all_token_selects_everything() {
    let mut db = DatabaseManager::new();
    db.insert_entries(&vec![
        entry("s1", "t1", "INFO", "a"),
        entry("s1", "t2", "WARN", "b"),
    ]);
    let levels = vec!["ALL".to_string(), String::new()];
    let (_, total) = db.get_entries_paginated("s1", 0, 10, Some(&levels), None);
    assert_eq!(total, 2);
}

#[test]
fn test_search_counts_substring_rows() {
    let mut db = DatabaseManager::new();
    db.insert_entries(&vec![
        entry("s1", "2026-01-01", "INFO", "connection made"),
        entry("s1", "2026-01-02", "INFO", "idle"),
        entry("s1", "2026-01-03 conn", "INFO", "nothing"),
        entry("s2", "2026-01-04", "INFO", "connection elsewhere"),
    ]);
    let (page, total) = db.get_entries_paginated("s1", 0, 10, None, Some("conn"));
    assert_eq!(total, 2);
    assert_eq!(page[0].message, "connection made");
    assert_eq!(page[1].message, "nothing");
}

#[test]
fn test_pagination_tiles_the_rows() {
    let mut db = DatabaseManager::new();
    let mut rows = Vec::new();
    for i in 0..7 {
        rows.push(entry("s1", &format!("t{}", i), "INFO", &format!("m{}", i)));
    }
    db.insert_entries(&rows);
    let mut seen: Vec<String> = Vec::new();
    let mut offset = 0;
    loop {
        let (page, total) = db.get_entries_paginated("s1", offset, 3, None, None);
        assert_eq!(total, 7);
        if page.is_empty() {
            break;
        }
        for e in &page {
            seen.push(e.message.clone());
        }
        offset += 3;
    }
    assert_eq!(seen, vec!["m0", "m1", "m2", "m3", "m4", "m5", "m6"]);
}

#[test]
fn test_entry_page_resolution() {
    // 137 entries, 50 per page: the 75th entry lands on page 2
    let mut db = DatabaseManager::new();
    let mut rows = Vec::new();
    for i in 0..137 {
        rows.push(entry("s1", &format!("t{:03}", i), "INFO", "m"));
    }
    let ids = db.insert_entries(&rows);
    let e75 = ids[74];
    assert_eq!(db.get_entry_page(e75, 50, None, None), Some(2));
    assert_eq!(db.find_entry_page_simple("s1", e75, 50), Some(2));
    assert_eq!(db.get_entry_page(99999, 50, None, None), None);
    assert_eq!(db.find_entry_page_simple("s2", e75, 50), None);
}

#[test]
fn test_entry_page_matches_its_page_window() {
    let mut db = DatabaseManager::new();
    let mut rows = Vec::new();
    for i in 0..23 {
        let lv = if i % 2 == 0 { "INFO" } else { "WARN" };
        rows.push(entry("s1", &format!("t{:02}", i), lv, "m"));
    }
    let ids = db.insert_entries(&rows);
    let levels = vec!["INFO".to_string()];
    // entry 16 (t16, INFO) is the 9th matching row: with 4 per page it is on page 3
    let target = ids[16];
    let page_no = db.get_entry_page(target, 4, Some(&levels), None).unwrap();
    assert_eq!(page_no, 3);
    let (page, _) = db.get_entries_paginated("s1", (page_no - 1) * 4, 4, Some(&levels), None);
    assert!(page.iter().any(|e| e.id == Some(target)));
}

#[test]
fn test_session_listing_and_levels() {
    let mut db = DatabaseManager::new();
    let mut s1 = session("id1", "A", "/d");
    s1.last_parsed_at = Some(10);
    let mut s2 = session("id2", "B", "/d");
    s2.last_parsed_at = Some(20);
    db.create_test_session(&s1).unwrap();
    db.create_test_session(&s2).unwrap();
    assert!(db.create_test_session(&s2).is_err());
    let listed = db.get_sessions();
    assert_eq!(listed.len(), 2);
    assert_eq!(listed[0].id, "id2");
    assert_eq!(listed[1].id, "id1");
    assert_eq!(listed[0].last_parsed_at, None);

    db.insert_entries(&vec![
        entry("id1", "t1", "INFO", "a"),
        entry("id1", "t2", "WARN", "b"),
        entry("id1", "t3", "INFO", "c"),
        entry("id2", "t4", "ERROR", "d"),
    ]);
    assert_eq!(db.get_session_log_levels("id1"), vec!["INFO", "WARN"]);
    assert_eq!(db.get_session_log_levels("id2"), vec!["ERROR"]);
}

#[test]
fn test_delete_session_cascades() {
    let mut db = DatabaseManager::new();
    db.create_test_session(&session("id1", "A", "/d")).unwrap();
    db.create_test_session(&session("id2", "B", "/d")).unwrap();
    let ids = db.insert_entries(&vec![
        entry("id1", "t1", "INFO", "a"),
        entry("id2", "t2", "INFO", "b"),
    ]);
    db.add_bookmark(&Bookmark {
        id: None,
        log_entry_id: ids[0],
        title: Some("one".to_string()),
        notes: None,
        color: None,
        created_at: None,
    });
    db.add_bookmark(&Bookmark {
        id: None,
        log_entry_id: ids[1],
        title: Some("two".to_string()),
        notes: None,
        color: None,
        created_at: None,
    });
    db.delete_session("id1");
    assert_eq!(db.get_sessions().len(), 1);
    let (_, total1) = db.get_entries_paginated("id1", 0, 10, None, None);
    assert_eq!(total1, 0);
    let (_, total2) = db.get_entries_paginated("id2", 0, 10, None, None);
    assert_eq!(total2, 1);
    assert!(db.get_bookmarks("id1").is_empty());
    assert_eq!(db.get_bookmarks("id2").len(), 1);
}

#[test]
fn test_delete_session_by_name_and_path() {
    let mut db = DatabaseManager::new();
    db.create_test_session(&session("id1", "A", "/d")).unwrap();
    assert_eq!(
        db.delete_session_by_name_and_path("A", "/d"),
        Some("id1".to_string())
    );
    assert_eq!(db.delete_session_by_name_and_path("A", "/d"), None);
}

#[test]
fn test_bookmark_crud() {
    let mut db = DatabaseManager::new();
    db.create_test_session(&session("id1", "A", "/d")).unwrap();
    let ids = db.insert_entries(&vec![entry("id1", "t1", "INFO", "a")]);
    let b = db.add_bookmark(&Bookmark {
        id: None,
        log_entry_id: ids[0],
        title: Some("note".to_string()),
        notes: Some("body".to_string()),
        color: Some("yellow".to_string()),
        created_at: None,
    });
    db.update_bookmark_title(b, "renamed");
    let listed = db.get_bookmarks("id1");
    assert_eq!(listed.len(), 1);
    assert_eq!(listed[0].0.title, Some("renamed".to_string()));
    assert_eq!(listed[0].1.message, "a");
    db.delete_bookmark(b);
    assert!(db.get_bookmarks("id1").is_empty());
}

#[test]
fn test_auto_bookmark_priorities() {
    let mut db = DatabaseManager::new();
    db.create_test_session(&session("id1", "A", "/d")).unwrap();
    let mut failure = entry("id1", "t1", "INFO", "assertion xyz [FAIL]");
    failure.line_number = 0;
    let mut step = entry("id1", "t2", "MARKER", "[STEP 1] begin");
    step.line_number = 1;
    let mut anchor = entry("id1", "t3", "INFO", "###STEP-MARK###");
    anchor.line_number = 2;
    let mut marker = entry("id1", "t4", "MARKER", "plain marker row");
    marker.line_number = 3;
    let plain = entry("id1", "t5", "INFO", "nothing here");
    db.insert_entries(&vec![failure, step, anchor, marker, plain]);

    let created = db.ensure_auto_bookmarks_for_session("id1");
    assert_eq!(created.len(), 4);

    let listed = db.get_bookmarks("id1");
    assert_eq!(listed.len(), 4);
    assert_eq!(listed[0].0.title, Some("Failure".to_string()));
    assert_eq!(listed[0].0.color, Some("#F56C6C".to_string()));
    assert_eq!(listed[1].0.title, Some("[STEP 1] begin".to_string()));
    assert_eq!(listed[1].0.color, Some("#00CED1".to_string()));
    assert_eq!(listed[2].0.title, Some("STEP-MARK".to_string()));
    assert_eq!(listed[2].0.color, None);
    assert_eq!(listed[3].0.title, Some("plain marker row".to_string()));
    assert_eq!(listed[3].0.color, None);

    // a second run changes nothing
    let again = db.ensure_auto_bookmarks_for_session("id1");
    assert!(again.is_empty());
    let relisted = db.get_bookmarks("id1");
    assert_eq!(relisted.len(), 4);
    for (a, b) in listed.iter().zip(relisted.iter()) {
        assert_eq!(a.0.id, b.0.id);
        assert_eq!(a.0.title, b.0.title);
        assert_eq!(a.0.color, b.0.color);
    }
}

#[test]
fn test_auto_bookmark_upgrades_user_bookmark() {
    let mut db = DatabaseManager::new();
    db.create_test_session(&session("id1", "A", "/d")).unwrap();
    let ids = db.insert_entries(&vec![entry("id1", "t1", "INFO", "assertion xyz [FAIL]")]);
    let user = db.add_bookmark(&Bookmark {
        id: None,
        log_entry_id: ids[0],
        title: Some("note".to_string()),
        notes: None,
        color: None,
        created_at: None,
    });
    db.ensure_auto_bookmarks_for_session("id1");
    let listed = db.get_bookmarks("id1");
    assert_eq!(listed.len(), 1);
    assert_eq!(listed[0].0.id, Some(user));
    assert_eq!(listed[0].0.title, Some("Failure".to_string()));
    assert_eq!(listed[0].0.color, Some("#F56C6C".to_string()));
}

#[test]
fn test_marker_anchor_beats_marker_level() {
    let mut db = DatabaseManager::new();
    db.create_test_session(&session("id1", "A", "/d")).unwrap();
    let mut a = entry("id1", "t1", "INFO", "###STEP 1 START###");
    a.line_number = 0;
    let mut b = entry("id1", "t2", "MARKER", "###STEP 1 START###");
    b.line_number = 1;
    db.insert_entries(&vec![a, b]);
    db.ensure_auto_bookmarks_for_session("id1");
    let listed = db.get_bookmarks("id1");
    assert_eq!(listed.len(), 2);
    assert_eq!(listed[0].0.title, Some("STEP 1 START".to_string()));
    assert_eq!(listed[0].0.color, None);
    assert_eq!(listed[1].0.title, Some("STEP 1 START".to_string()));
    assert_eq!(listed[1].0.color, None);
}
