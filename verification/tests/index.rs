use cix::crawler::RawFile;
use cix::index::store::OpenError;
use cix::index::builder::{progress_due, BATCH_SIZE, PROGRESS_EVERY};
use cix::index::{IndexBuilder, IndexStore};
use cix::trigram::{extract_batch, pack_trigram, TrigramFile};
use roaring::RoaringBitmap;

fn build(docs: &[(&str, &[u8])]) -> (Vec<u8>, cix::index::BuildStats) {
    let files: Vec<RawFile> = docs
        .iter()
        .map(|(p, c)| RawFile { path: p.to_string(), content: c.to_vec() })
        .collect();
    let mut builder = IndexBuilder::new();
    builder.add_batch(extract_batch(files));
    builder.finish().expect("index fits")
}

fn le32(b: &[u8], off: usize) -> u32 {
    u32::from_le_bytes([b[off], b[off + 1], b[off + 2], b[off + 3]])
}

fn le64(b: &[u8], off: usize) -> u64 {
    let mut a = [0u8; 8];
    a.copy_from_slice(&b[off..off + 8]);
    u64::from_le_bytes(a)
}

#[test]
fn index_layout_of_one_document() {
    let (bytes, stats) = build(&[("a.rs", b"abc")]);
    assert_eq!(&bytes[0..4], b"CIX1");
    assert_eq!(le32(&bytes, 4), 1);
    assert_eq!(le32(&bytes, 8), 1);
    assert_eq!(le32(&bytes, 12), 1);
    assert_eq!(le64(&bytes, 16), 32);
    assert_eq!(le64(&bytes, 24), 32 + 12 + 4);
    // document table: path offset 0, length 4
    assert_eq!(le64(&bytes, 32), 0);
    assert_eq!(le32(&bytes, 40), 4);
    assert_eq!(&bytes[44..48], b"a.rs");
    // trigram table: "abc", bitmap right after the table
    assert_eq!(le32(&bytes, 48), 0x616263);
    assert_eq!(le64(&bytes, 52), 64);
    let bm_len = le32(&bytes, 60) as usize;
    assert_eq!(bytes.len(), 64 + bm_len);
    let bm = RoaringBitmap::deserialize_from(&bytes[64..]).unwrap();
    assert_eq!(bm.iter().collect::<Vec<u32>>(), vec![0]);
    assert_eq!(stats.file_count, 1);
    assert_eq!(stats.trigram_count, 1);
    assert_eq!(stats.index_size_bytes, bytes.len() as u64);
}

#[test]
fn index_read_back_paths_and_postings() {
    let (bytes, stats) = build(&[
        ("src/main.rs", b"fn main() {}"),
        ("src/lib.rs", b"pub fn render() {}"),
        ("README.md", b"no code"),
    ]);
    assert_eq!(stats.file_count, 3);
    let store = IndexStore::open(bytes).ok().unwrap();
    assert_eq!(store.doc_count(), 3);
    assert_eq!(store.trigram_count() as u64, stats.trigram_count);
    assert_eq!(store.doc_path(0), Some("src/main.rs"));
    assert_eq!(store.doc_path(1), Some("src/lib.rs"));
    assert_eq!(store.doc_path(2), Some("README.md"));
    assert_eq!(store.doc_path(3), None);
    assert_eq!(store.doc_path(u32::MAX), None);

    let fn_ = store.trigram_bitmap(pack_trigram(b'f', b'n', b' ')).unwrap();
    assert_eq!(fn_.iter().collect::<Vec<u32>>(), vec![0, 1]);
    let cod = store.trigram_bitmap(pack_trigram(b'c', b'o', b'd')).unwrap();
    assert_eq!(cod.iter().collect::<Vec<u32>>(), vec![2]);
    assert!(store.trigram_bitmap(pack_trigram(b'q', b'q', b'q')).is_none());
}

#[test]
fn index_lookup_finds_every_trigram() {
    let (bytes, stats) = build(&[("x", b"the quick brown fox"), ("y", b"jumps over the lazy dog")]);
    let store = IndexStore::open(bytes).ok().unwrap();
    let mut seen = 0u64;
    for a in 0u8..=255 {
        for b in [b' ', b'e', b'h', b'o', b'r', b'u', b'x', b'q', b'z'] {
            for c in [b' ', b'e', b'h', b'o', b'r', b'u', b'x', b'q', b'k', b'w', b'v'] {
                if let Some(bm) = store.trigram_bitmap(pack_trigram(a, b, c)) {
                    assert!(!bm.is_empty());
                    seen += 1;
                }
            }
        }
    }
    assert!(seen > 0);
    assert!(seen <= stats.trigram_count);
    let the = store.trigram_bitmap(pack_trigram(b't', b'h', b'e')).unwrap();
    assert_eq!(the.iter().collect::<Vec<u32>>(), vec![0, 1]);
}

#[test]
fn empty_index() {
    let (bytes, stats) = build(&[]);
    assert_eq!(bytes.len(), 32);
    assert_eq!(stats.file_count, 0);
    assert_eq!(stats.trigram_count, 0);
    let store = IndexStore::open(bytes).ok().unwrap();
    assert_eq!(store.doc_count(), 0);
    assert_eq!(store.doc_path(0), None);
    assert!(store.trigram_bitmap(0x616263).is_none());
}

#[test]
fn open_rejects_short_and_foreign_data() {
    assert!(matches!(IndexStore::open(vec![0u8; 31]), Err(OpenError::TooSmall)));
    assert!(matches!(IndexStore::open(Vec::new()), Err(OpenError::TooSmall)));
    let mut bytes = vec![0u8; 32];
    bytes[0..4].copy_from_slice(b"CIX2");
    assert!(matches!(IndexStore::open(bytes), Err(OpenError::BadMagic)));
    let mut bytes = vec![0u8; 32];
    bytes[0..4].copy_from_slice(b"CIX1");
    let store = IndexStore::open(bytes).ok().unwrap();
    assert_eq!(store.doc_count(), 0);
}

#[test]
fn corrupt_entries_read_as_nothing() {
    let (mut bytes, _) = build(&[("ok.rs", b"abcd")]);
    // Path bytes that are not UTF-8.
    bytes[44] = 0xff;
    let store = IndexStore::open(bytes.clone()).ok().unwrap();
    assert_eq!(store.doc_path(0), None);
    // A document table that points past the end.
    let mut far = bytes.clone();
    far[16..24].copy_from_slice(&u64::MAX.to_le_bytes());
    let store = IndexStore::open(far).ok().unwrap();
    assert_eq!(store.doc_path(0), None);
    // A trigram table that points past the end.
    let mut far = bytes.clone();
    far[24..32].copy_from_slice(&(u64::MAX - 3).to_le_bytes());
    let store = IndexStore::open(far).ok().unwrap();
    assert!(store.trigram_bitmap(pack_trigram(b'a', b'b', b'c')).is_none());
    // A bitmap region that is not a serialized bitmap.
    let (mut bytes, _) = build(&[("ok.rs", b"abc")]);
    let start = le64(&bytes, 32 + 12 + 5 + 4) as usize;
    bytes[start] ^= 0xff;
    let store = IndexStore::open(bytes).ok().unwrap();
    assert!(store.trigram_bitmap(pack_trigram(b'a', b'b', b'c')).is_none());
}

#[test]
fn add_file_assigns_ids_in_order() {
    let mut builder = IndexBuilder::new();
    builder.add_file(TrigramFile { path: "one".to_string(), trigrams: vec![5, 7] });
    builder.add_file(TrigramFile { path: "two".to_string(), trigrams: vec![7, 7, 9] });
    assert_eq!(builder.file_count(), 2);
    let (bytes, stats) = builder.finish().expect("index fits");
    assert_eq!(stats.trigram_count, 3);
    let store = IndexStore::open(bytes).ok().unwrap();
    assert_eq!(store.doc_path(0), Some("one"));
    assert_eq!(store.doc_path(1), Some("two"));
    assert_eq!(store.trigram_bitmap(5).unwrap().iter().collect::<Vec<u32>>(), vec![0]);
    assert_eq!(store.trigram_bitmap(7).unwrap().iter().collect::<Vec<u32>>(), vec![0, 1]);
    assert_eq!(store.trigram_bitmap(9).unwrap().iter().collect::<Vec<u32>>(), vec![1]);
    assert!(store.trigram_bitmap(6).is_none());
}

#[test]
fn progress_is_reported_when_a_multiple_of_5000_is_passed() {
    assert!(!progress_due(0, 2048));
    assert!(!progress_due(2048, 4096));
    assert!(progress_due(4096, 6144));
    assert!(progress_due(4999, 5000));
    assert!(!progress_due(5000, 9999));
    assert_eq!(PROGRESS_EVERY, 5000);
    assert_eq!(BATCH_SIZE, 2048);
}

#[test]
fn large_posting_list_is_one_bitset_container() {
    let names: Vec<String> = (0..4100).map(|i| format!("d{i}")).collect();
    let docs: Vec<(&str, &[u8])> = names.iter().map(|n| (n.as_str(), &b"abc"[..])).collect();
    let (bytes, stats) = build(&docs);
    assert_eq!(stats.file_count, 4100);
    assert_eq!(stats.trigram_count, 1);
    let table = le64(&bytes, 24) as usize;
    assert_eq!(le32(&bytes, table), pack_trigram(b'a', b'b', b'c'));
    // An 8-byte header, 8 bytes for the one container, and an 8 KiB bitset.
    assert_eq!(le32(&bytes, table + 12), 8 + 8 + 8192);
    assert_eq!(stats.index_size_bytes as usize, bytes.len());
    let store = IndexStore::open(bytes).ok().unwrap();
    let ids: Vec<u32> = store.trigram_bitmap(pack_trigram(b'a', b'b', b'c')).unwrap().iter().collect();
    assert_eq!(ids, (0..4100).collect::<Vec<u32>>());
}

#[test]
fn posting_lists_are_stored_in_roaring_standard_form() {
    let (bytes, stats) = build(&[("a.rs", b"abcd")]);
    let table = le64(&bytes, 24) as usize;
    let data = table + 2 * 16;
    // The posting list {0}: cookie 12346, one container, its key 0 and size-1 0, its offset
    // 16, then the one array value 0.
    let one: [u8; 18] = [0x3a, 0x30, 0, 0, 1, 0, 0, 0, 0, 0, 0, 0, 16, 0, 0, 0, 0, 0];
    assert_eq!(le32(&bytes, table + 12), 18);
    assert_eq!(le32(&bytes, table + 16 + 12), 18);
    assert_eq!(&bytes[data..data + 18], &one[..]);
    assert_eq!(&bytes[data + 18..data + 36], &one[..]);
    assert_eq!(bytes.len(), 32 + 12 + 4 + 2 * 16 + 2 * 18);
    assert_eq!(stats.index_size_bytes, 116);
}
