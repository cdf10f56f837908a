use logterminator::database::DatabaseManager;
use logterminator::http_log_fetcher::{build_scan_results, filter_selected_groups, group_test_urls};
use logterminator::ingest::{ingest_session, make_session_id};

fn log_html(rows: &[(&str, &str, &str)]) -> String {
    let mut s = String::from("<html><body><table><tr><th>Timestamp</th></tr>");
    for (ts, lv, msg) in rows {
        s.push_str(&format!(
            "<tr><td class=\"date\">{}</td><td class=\"level\">{}</td><td class=\"message\">{}</td></tr>",
            ts, lv, msg
        ));
    }
    s.push_str("</table></body></html>");
    s
}

#[test]
fn test_make_session_id() {
    assert_eq!(
        make_session_id("TestABC_ID_1", 42),
        "session_TestABC_ID_1_42"
    );
    assert_eq!(make_session_id("a b/c", 7), "session_a_b_c_7");
    assert_eq!(make_session_id("x", -3), "session_x_-3");
}

#[test]
fn test_ingest_session_stores_rows_in_file_order() {
    let mut db = DatabaseManager::new();
    let files = vec![
        (
            "http://h/TestA_ID_1---1.html".to_string(),
            log_html(&[("t2", "[WARN]", "second file")]),
            1usize,
        ),
        (
            "http://h/TestA_ID_1---0.html".to_string(),
            log_html(&[("t1", "INFO", "first file ###GO###")]),
            0usize,
        ),
    ];
    let sid = ingest_session(&mut db, "TestA_ID_1", "http://h/", "http", &files, 5).unwrap();
    assert_eq!(sid, "session_TestA_ID_1_5");

    let sessions = db.get_sessions();
    assert_eq!(sessions.len(), 1);
    assert_eq!(sessions[0].id, sid);
    assert_eq!(sessions[0].name, "TestA_ID_1");
    assert_eq!(sessions[0].file_count, 2);
    assert_eq!(sessions[0].total_entries, 2);
    assert_eq!(sessions[0].source_type, Some("http".to_string()));

    let (page, total) = db.get_entries_paginated(&sid, 0, 10, None, None);
    assert_eq!(total, 2);
    assert_eq!(page[0].message, "first file ###GO###");
    assert_eq!(page[0].file_index, 0);
    assert_eq!(page[1].message, "second file");
    assert_eq!(page[1].level, "WARN");

    // the anchor row got its bookmark at ingest
    let bms = db.get_bookmarks(&sid);
    assert_eq!(bms.len(), 1);
    assert_eq!(bms[0].0.title, Some("GO".to_string()));
}

#[test]
fn test_reingest_replaces_prior_session() {
    let mut db = DatabaseManager::new();
    let files1 = vec![(
        "http://h/TestA_ID_1---0.html".to_string(),
        log_html(&[("t1", "INFO", "old row ###OLD###")]),
        0usize,
    )];
    let sid1 = ingest_session(&mut db, "TestA_ID_1", "http://h/", "http", &files1, 1).unwrap();

    let files2 = vec![(
        "http://h/TestA_ID_1---0.html".to_string(),
        log_html(&[("t1", "INFO", "new row")]),
        0usize,
    )];
    let sid2 = ingest_session(&mut db, "TestA_ID_1", "http://h/", "http", &files2, 2).unwrap();

    let sessions = db.get_sessions();
    assert_eq!(sessions.len(), 1);
    assert_eq!(sessions[0].id, sid2);
    let (old_page, old_total) = db.get_entries_paginated(&sid1, 0, 10, None, None);
    assert_eq!(old_total, 0);
    assert!(old_page.is_empty());
    let (page, total) = db.get_entries_paginated(&sid2, 0, 10, None, None);
    assert_eq!(total, 1);
    assert_eq!(page[0].message, "new row");
    // the old session's bookmarks fell with it
    assert!(db.get_bookmarks(&sid1).is_empty());
}

#[test]
fn test_scan_results_mark_loaded_sessions() {
    let mut db = DatabaseManager::new();
    let files = vec![(
        "http://h/TestA_ID_1---0.html".to_string(),
        log_html(&[("t1", "INFO", "row")]),
        0usize,
    )];
    let sid = ingest_session(&mut db, "TestA_ID_1", "http://h/", "http", &files, 9).unwrap();

    let urls = vec![
        "http://h/TestA_ID_1---0.html".to_string(),
        "http://h/TestB_ID_2---0.html".to_string(),
    ];
    let groups = group_test_urls(&urls);
    let sessions = db.get_sessions();
    let results = build_scan_results(&groups, &sessions, "http://h/");
    assert_eq!(results.len(), 2);
    let a = results.iter().find(|r| r.test_name == "TestA_ID_1").unwrap();
    assert!(a.is_loaded);
    assert_eq!(a.existing_session_id, Some(sid));
    assert_eq!(a.estimated_entries, Some(1));
    let b = results.iter().find(|r| r.test_name == "TestB_ID_2").unwrap();
    assert!(!b.is_loaded);
    assert_eq!(b.existing_session_id, None);
}

#[test]
fn test_selection_filter() {
    let urls = vec![
        "http://h/TestA_ID_1---0.html".to_string(),
        "http://h/TestB_ID_2---0.html".to_string(),
    ];
    let groups = group_test_urls(&urls);
    assert_eq!(groups.len(), 2);
    let selected = vec!["TestB_ID_2".to_string()];
    let kept = filter_selected_groups(groups, Some(&selected));
    assert_eq!(kept.len(), 1);
    assert_eq!(kept[0].0, "TestB_ID_2");

    let groups2 = group_test_urls(&urls);
    let none: Vec<String> = Vec::new();
    let kept2 = filter_selected_groups(groups2, Some(&none));
    assert!(kept2.is_empty());

    let groups3 = group_test_urls(&urls);
    let all = filter_selected_groups(groups3, None);
    assert_eq!(all.len(), 2);
}
