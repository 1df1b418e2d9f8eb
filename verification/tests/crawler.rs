use cix::crawler::{exceeds_size_limit, looks_binary, CrawlStats, MAX_FILE_BYTES};

#[test]
fn looks_binary_plain_text() {
    assert!(!looks_binary(b"fn main() {\n    println!(\"hi\");\n}\n"));
    assert!(!looks_binary(b""));
    assert!(!looks_binary(b"\t\n\r"));
}

#[test]
fn looks_binary_control_bytes() {
    assert!(looks_binary(&[0u8; 16]));
    // 2 of 8 bytes are high-value control characters: more than 1 in 8.
    assert!(looks_binary(&[0x85, 0x85, b'a', b'a', b'a', b'a', b'a', b'a']));
    assert!(looks_binary(&[0x80, 0x9f, b'a', b'b', b'c', b'd', b'e', b'f']));
    // 1 of 8: not more than 1 in 8.
    assert!(!looks_binary(&[0x90, b'a', b'b', b'c', b'd', b'e', b'f', b'g']));
    // Bytes just outside the range count as text.
    assert!(!looks_binary(&[0x7f, 0xa0, b'a', b'b', b'c', b'd', b'e', b'f']));
    // Low control characters other than NUL count as text.
    assert!(!looks_binary(&[1, 2, b'a', b'b', b'c', b'd', b'e', b'f']));
    // A single NUL in fewer than 8 bytes: 1 > 0.
    assert!(looks_binary(&[0, b'a']));
}

#[test]
fn looks_binary_samples_first_512_bytes() {
    let mut content = vec![b'a'; 512];
    content.extend(vec![0u8; 4096]);
    assert!(!looks_binary(&content));
    let mut content = vec![0u8; 65];
    content.extend(vec![b'a'; 447]);
    assert_eq!(content.len(), 512);
    assert!(looks_binary(&content));
    let mut content = vec![0u8; 64];
    content.extend(vec![b'a'; 448]);
    assert!(!looks_binary(&content));
}

#[test]
fn size_limit_is_ten_megabytes() {
    assert_eq!(MAX_FILE_BYTES, 10 * 1024 * 1024);
    assert!(!exceeds_size_limit(MAX_FILE_BYTES));
    assert!(exceeds_size_limit(MAX_FILE_BYTES + 1));
    assert!(!exceeds_size_limit(0));
}

#[test]
fn crawl_stats_fields() {
    let stats = CrawlStats { files_indexed: 3, bytes_read: 100, files_skipped: 1 };
    assert_eq!(stats.files_indexed + stats.files_skipped, 4);
    assert_eq!(stats.bytes_read, 100);
}
