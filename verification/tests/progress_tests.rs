use logterminator::progress::{
    downloading_event, DownloadResult, FileDownloadStatus, FileStatus, ProgressStatus,
    SessionDownloadCoordinator, SpeedCalculator,
};

#[test]
fn test_speed_calculator_initial_state() {
    let calc = SpeedCalculator::new();
    assert_eq!(calc.format_speed(), "0.0 B/s");
}

#[test]
fn test_format_speed() {
    let mut calc = SpeedCalculator::new();
    assert!(calc.format_speed().contains("B/s"));

    calc.add_sample(0);
    calc.add_sample(10 * 1024);
    let _formatted = calc.format_speed();
}

#[test]
fn test_download_result_new() {
    let r = DownloadResult::new("u".to_string(), "body".to_string(), 4);
    assert_eq!(r.url, "u");
    assert_eq!(r.content, "body");
    assert_eq!(r.bytes_downloaded, 4);
}

#[test]
fn test_downloading_event_counts() {
    let files = vec![
        FileStatus {
            file_url: "a".to_string(),
            status: FileDownloadStatus::Completed,
            retry_count: 0,
            error_message: None,
        },
        FileStatus {
            file_url: "b".to_string(),
            status: FileDownloadStatus::Failed,
            retry_count: 2,
            error_message: Some("gone".to_string()),
        },
        FileStatus {
            file_url: "c".to_string(),
            status: FileDownloadStatus::Downloading,
            retry_count: 0,
            error_message: None,
        },
    ];
    let ev = downloading_event(4, 2, "1.0 KB/s".to_string(), files);
    match ev {
        ProgressStatus::Downloading {
            total_sessions,
            current_session,
            total_files,
            completed_files,
            failed_files,
            speed,
            files,
        } => {
            assert_eq!(total_sessions, 4);
            assert_eq!(current_session, 2);
            assert_eq!(total_files, 3);
            assert_eq!(completed_files, 1);
            assert_eq!(failed_files, 1);
            assert_eq!(speed, "1.0 KB/s");
            assert_eq!(files.len(), 3);
        },
        _ => panic!("expected a downloading event"),
    }
}

#[test]
fn test_coordinator_bounds() {
    let c = SessionDownloadCoordinator::new(2, 4, 2);
    assert_eq!(c.max_sessions, 2);
    assert_eq!(c.max_files_per_session, 4);
    assert_eq!(c.max_retries, 2);
}
