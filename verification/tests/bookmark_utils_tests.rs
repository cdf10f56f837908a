use logterminator::bookmark_utils::{
    create_auto_bookmark, create_failure_bookmark, find_auto_bookmark_markers,
    find_failure_anchor_markers,
};
use logterminator::log_parser::LogEntry;

fn create_test_entry(id: i64, message: &str) -> LogEntry {
    LogEntry {
        id: Some(id),
        test_session_id: "test_session".to_string(),
        file_path: "/test/path".to_string(),
        file_index: 0,
        timestamp: "2024-01-01 12:00:00".to_string(),
        level: "INFO".to_string(),
        stack: "".to_string(),
        message: message.to_string(),
        line_number: 1,
        created_at: None,
    }
}

#[test]
fn test_find_auto_bookmark_markers_basic() {
    let entries = vec![
        create_test_entry(1, "###TEST START###"),
        create_test_entry(2, "Normal log message"),
        create_test_entry(3, "###STEP 1###"),
    ];

    let markers = find_auto_bookmark_markers(&entries);

    assert_eq!(markers.len(), 2);
    assert_eq!(markers[0], (1, "TEST START".to_string()));
    assert_eq!(markers[1], (3, "STEP 1".to_string()));
}

#[test]
fn test_find_auto_bookmark_markers_marker_level() {
    let mut entry1 = create_test_entry(1, "Some marker message");
    entry1.level = "MARKER".to_string();

    let entries = vec![entry1, create_test_entry(2, "Normal log message")];

    let markers = find_auto_bookmark_markers(&entries);

    assert_eq!(markers.len(), 1);
    assert_eq!(markers[0], (1, "Some marker message".to_string()));
}

#[test]
fn test_find_auto_bookmark_markers_both_conditions() {
    let mut entry1 = create_test_entry(1, "###TEST START###");
    entry1.level = "MARKER".to_string();

    let entries = vec![entry1];

    let markers = find_auto_bookmark_markers(&entries);

    assert_eq!(markers.len(), 1);
    assert_eq!(markers[0], (1, "TEST START".to_string()));
}

#[test]
fn test_find_auto_bookmark_markers_empty_marker() {
    let entries = vec![
        create_test_entry(1, "######"),
        create_test_entry(2, "###VALID###"),
    ];

    let markers = find_auto_bookmark_markers(&entries);

    assert_eq!(markers.len(), 1);
    assert_eq!(markers[0], (2, "VALID".to_string()));
}

#[test]
fn test_find_auto_bookmark_markers_multiple_in_message() {
    let entries = vec![create_test_entry(1, "###FIRST### ###SECOND###")];

    let markers = find_auto_bookmark_markers(&entries);

    assert_eq!(markers.len(), 1);
    assert_eq!(markers[0], (1, "FIRST".to_string()));
}

#[test]
fn test_find_auto_bookmark_markers_no_id() {
    let mut entry = create_test_entry(1, "###TEST###");
    entry.id = None;

    let entries = vec![entry];
    let markers = find_auto_bookmark_markers(&entries);

    assert_eq!(markers.len(), 0);
}

#[test]
fn test_create_auto_bookmark() {
    let bookmark = create_auto_bookmark(123, "Test Title".to_string());

    assert_eq!(bookmark.log_entry_id, 123);
    assert_eq!(bookmark.title, Some("Test Title".to_string()));
    assert_eq!(bookmark.notes, None);
    assert_eq!(bookmark.color, None);
    assert!(bookmark.created_at.is_some());
}

#[test]
fn test_find_failure_anchor_markers_basic() {
    let entries = vec![
        create_test_entry(1, "Test failed assertion [FAIL]"),
        create_test_entry(2, "Normal log message"),
        create_test_entry(3, "Another failure [FAIL]"),
    ];

    let failure_ids = find_failure_anchor_markers(&entries);

    assert_eq!(failure_ids.len(), 2);
    assert_eq!(failure_ids[0], 1);
    assert_eq!(failure_ids[1], 3);
}

#[test]
fn test_find_failure_anchor_markers_no_id() {
    let mut entry = create_test_entry(1, "Test failed [FAIL]");
    entry.id = None;

    let entries = vec![entry];
    let failure_ids = find_failure_anchor_markers(&entries);

    assert_eq!(failure_ids.len(), 0);
}

#[test]
fn test_find_failure_anchor_markers_none() {
    let entries = vec![
        create_test_entry(1, "Test failed"),
        create_test_entry(2, "Normal log message"),
    ];

    let failure_ids = find_failure_anchor_markers(&entries);

    assert_eq!(failure_ids.len(), 0);
}

#[test]
fn test_create_failure_bookmark() {
    let bookmark = create_failure_bookmark(123);

    assert_eq!(bookmark.log_entry_id, 123);
    assert_eq!(bookmark.title, Some("Failure".to_string()));
    assert_eq!(bookmark.notes, None);
    assert_eq!(bookmark.color, Some("#F56C6C".to_string()));
    assert!(bookmark.created_at.is_some());
}

#[test]
fn test_marker_title_ignores_multiline_span() {
    let entries = vec![
        create_test_entry(1, "###A\nB###"),
        create_test_entry(2, "###C### tail"),
    ];
    let markers = find_auto_bookmark_markers(&entries);
    assert_eq!(markers.len(), 1);
    assert_eq!(markers[0], (2, "C".to_string()));
}
