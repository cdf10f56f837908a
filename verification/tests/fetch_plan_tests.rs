use logterminator::fetch_plan::{
    assemble_chunks, backoff_ms, chunk_count, chunk_range, is_partial_content, range_supported,
    use_chunked,
};

#[test]
fn test_chunked_strategy_choice() {
    assert!(use_chunked(10 * 1024 * 1024, true));
    assert!(!use_chunked(10 * 1024 * 1024 - 1, true));
    assert!(!use_chunked(20 * 1024 * 1024, false));
}

#[test]
fn test_range_support_token() {
    assert!(range_supported(Some("bytes")));
    assert!(range_supported(Some("BYTES")));
    assert!(range_supported(Some("Bytes")));
    assert!(!range_supported(Some("none")));
    assert!(!range_supported(Some("bytes ")));
    assert!(!range_supported(None));
}

#[test]
fn test_twelve_mebibyte_file_takes_three_chunks() {
    let len: u64 = 12 * 1024 * 1024;
    assert_eq!(chunk_count(len), 3);
    assert_eq!(chunk_range(0, len), (0, 5242879));
    assert_eq!(chunk_range(1, len), (5242880, 10485759));
    assert_eq!(chunk_range(2, len), (10485760, 12582911));
}

#[test]
fn test_chunk_count_rounds_up() {
    assert_eq!(chunk_count(0), 0);
    assert_eq!(chunk_count(1), 1);
    assert_eq!(chunk_count(5 * 1024 * 1024), 1);
    assert_eq!(chunk_count(5 * 1024 * 1024 + 1), 2);
}

#[test]
fn test_backoff_doubles() {
    assert_eq!(backoff_ms(1), 100);
    assert_eq!(backoff_ms(2), 200);
    assert_eq!(backoff_ms(3), 400);
    assert_eq!(backoff_ms(4), 800);
}

#[test]
fn test_partial_content_status() {
    assert!(is_partial_content(206));
    assert!(!is_partial_content(200));
    assert!(!is_partial_content(416));
}

#[test]
fn test_chunk_reassembly_matches_plain_body() {
    // a small stand-in body cut along the planned ranges, scaled down by
    // hand: cutting and joining restores the body byte for byte
    let body: Vec<u8> = (0..=255u8).cycle().take(1000).collect();
    let cuts = vec![0usize, 400, 800, 1000];
    let mut chunks: Vec<Vec<u8>> = Vec::new();
    for w in cuts.windows(2) {
        chunks.push(body[w[0]..w[1]].to_vec());
    }
    let joined = assemble_chunks(&chunks);
    assert_eq!(joined, body);
}
