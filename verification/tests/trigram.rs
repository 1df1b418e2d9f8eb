use cix::crawler::RawFile;
use cix::trigram::{
    extract_batch, extract_trigrams, pack_trigram, query_trigrams, trigram_display,
    unpack_trigram,
};

#[test]
fn test_trigram_basic() {
    let trigrams = extract_trigrams(b"hello");
    // "hello" → "hel", "ell", "llo"
    assert_eq!(trigrams.len(), 3);

    let expected = vec![
        pack_trigram(b'h', b'e', b'l'),
        pack_trigram(b'e', b'l', b'l'),
        pack_trigram(b'l', b'l', b'o'),
    ];

    for e in &expected {
        assert!(trigrams.contains(e), "Missing trigram {:06x}", e);
    }
}

#[test]
fn test_trigram_dedup() {
    // "aaa" → only one unique trigram: "aaa"
    let trigrams = extract_trigrams(b"aaaa");
    assert_eq!(trigrams.len(), 1);
}

#[test]
fn test_trigram_too_short() {
    assert!(extract_trigrams(b"ab").is_empty());
    assert!(extract_trigrams(b"").is_empty());
}

#[test]
fn test_pack_unpack_roundtrip() {
    let input = [b'f', b'n', b' '];
    let packed = pack_trigram(input[0], input[1], input[2]);
    let unpacked = unpack_trigram(packed);
    assert_eq!(input, unpacked);
}

#[test]
fn pack_trigram_reads_bytes_big_endian() {
    assert_eq!(pack_trigram(0x01, 0x02, 0x03), 0x010203);
    assert_eq!(pack_trigram(0xff, 0xff, 0xff), 0x00ff_ffff);
    assert_eq!(pack_trigram(b'a', b'b', b'c'), 0x616263);
}

#[test]
fn unpack_trigram_ignores_high_byte() {
    assert_eq!(unpack_trigram(0x616263), [b'a', b'b', b'c']);
    assert_eq!(unpack_trigram(0xab61_6263), [b'a', b'b', b'c']);
    assert_eq!(pack_trigram(0x12, 0x34, 0x56), 0x123456);
    let t = 0x00ab_cdef;
    let b = unpack_trigram(t);
    assert_eq!(pack_trigram(b[0], b[1], b[2]), t);
}

#[test]
fn extract_trigrams_sorted_and_unique() {
    let trigrams = extract_trigrams(b"zyxzyxabc");
    let mut expected = vec![
        pack_trigram(b'z', b'y', b'x'),
        pack_trigram(b'y', b'x', b'z'),
        pack_trigram(b'x', b'z', b'y'),
        pack_trigram(b'y', b'x', b'a'),
        pack_trigram(b'x', b'a', b'b'),
        pack_trigram(b'a', b'b', b'c'),
    ];
    expected.sort();
    assert_eq!(trigrams, expected);
}

#[test]
fn extract_trigrams_exactly_three_bytes() {
    assert_eq!(extract_trigrams(b"abc"), vec![0x616263]);
}

#[test]
fn query_trigrams_use_utf8_bytes() {
    assert_eq!(query_trigrams("abcd"), extract_trigrams(b"abcd"));
    // "é" is two bytes in UTF-8, so "aé" already has one trigram.
    assert_eq!(query_trigrams("a\u{e9}"), vec![pack_trigram(b'a', 0xc3, 0xa9)]);
    assert!(query_trigrams("ab").is_empty());
}

#[test]
fn trigram_display_printable_and_hex() {
    assert_eq!(trigram_display(pack_trigram(b'f', b'n', b' ')), "fn ");
    assert_eq!(trigram_display(pack_trigram(b'~', b'!', b'a')), "~!a");
    assert_eq!(trigram_display(pack_trigram(0x01, b'b', b'c')), "016263");
    assert_eq!(trigram_display(pack_trigram(0, 0, 0x20)), "000020");
    assert_eq!(trigram_display(pack_trigram(b'a', b'b', 0x7f)), "61627f");
    assert_eq!(trigram_display(0), "000000");
    assert_eq!(trigram_display(0x1ab_cdef), "1abcdef");
}

#[test]
fn extract_batch_keeps_order_and_paths() {
    let files = vec![
        RawFile { path: "a.rs".to_string(), content: b"fn main".to_vec() },
        RawFile { path: "b.rs".to_string(), content: b"xy".to_vec() },
        RawFile { path: "c.rs".to_string(), content: b"aaaa".to_vec() },
    ];
    let out = extract_batch(files);
    assert_eq!(out.len(), 3);
    assert_eq!(out[0].path, "a.rs");
    assert_eq!(out[0].trigrams, extract_trigrams(b"fn main"));
    assert_eq!(out[1].path, "b.rs");
    assert!(out[1].trigrams.is_empty());
    assert_eq!(out[2].path, "c.rs");
    assert_eq!(out[2].trigrams, vec![pack_trigram(b'a', b'a', b'a')]);
}
