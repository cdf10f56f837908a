use logterminator::history::{get_recent_history, join_history, parse_history, update_history};

#[test]
fn test_load_history_empty() {
    let history = parse_history("");
    assert!(history.is_empty());
}

#[test]
fn test_save_and_load_history() {
    let mut history: Vec<String> = Vec::new();
    history = update_history(&history, "/a".to_string());
    history = update_history(&history, "/b".to_string());
    history = update_history(&history, "/a".to_string());
    assert_eq!(history, vec!["/a", "/b"]);

    let line = join_history(&history);
    assert_eq!(line, "/a|/b");
    let reloaded = parse_history(&line);
    assert_eq!(reloaded, history);
}

#[test]
fn test_parse_history_trims_and_drops_empty() {
    let history = parse_history(" /a | |/b|");
    assert_eq!(history, vec!["/a", "/b"]);
}

#[test]
fn test_history_keeps_ten() {
    let mut history: Vec<String> = Vec::new();
    for i in 0..12 {
        history = update_history(&history, format!("/p{}", i));
    }
    assert_eq!(history.len(), 10);
    assert_eq!(history[0], "/p11");
    assert_eq!(history[9], "/p2");
    let recent = get_recent_history(&history, 3);
    assert_eq!(recent, vec!["/p11", "/p10", "/p9"]);
    let all = get_recent_history(&history, 100);
    assert_eq!(all.len(), 10);
}
