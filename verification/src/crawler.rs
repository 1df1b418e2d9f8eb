//! The per-file decisions of the crawler: which files get indexed.
//!
//! Walking the directory tree and reading files is done by the caller; this module
//! holds the records it produces and the rules it applies to each file.

use vstd::prelude::*;

verus! {

/// A file ready for trigram extraction.
pub struct RawFile {
    /// The file's path, as text.
    pub path: String,
    pub content: Vec<u8>,
}

/// Counters reported by a crawl.
#[derive(Debug)]
pub struct CrawlStats {
    pub files_indexed: u64,
    pub bytes_read: u64,
    pub files_skipped: u64,
}

/// Maximum file size we'll index (10MB — larger files are usually generated/binary).
pub const MAX_FILE_BYTES: u64 = 10485760;

/// A file of this many bytes is too large to index.
pub fn exceeds_size_limit(len: u64) -> (too_large: bool)
    ensures
        too_large == (len > MAX_FILE_BYTES),
{
    len > MAX_FILE_BYTES
}

/// A NUL byte or a high-value control character (the C1 range, 0x80 to 0x9F).
pub open spec fn is_non_text_byte(b: u8) -> bool {
    b == 0 || (0x80 <= b && b <= 0x9f)
}

/// How many bytes of `s` are NUL bytes or high-value control characters.
pub open spec fn count_non_text(s: Seq<u8>) -> nat
    decreases s.len(),
{
    if s.len() == 0 {
        0
    } else {
        count_non_text(s.drop_last()) + if is_non_text_byte(s.last()) { 1nat } else { 0nat }
    }
}

/// The bytes looked at by the binary sniff: the first 512 bytes (or fewer).
pub open spec fn binary_sample(content: Seq<u8>) -> Seq<u8> {
    content.take(if content.len() < 512 { content.len() as int } else { 512 })
}

/// The binary sniff: more than 1 in 8 sampled bytes is a NUL byte or a high-value control
/// character.
pub open spec fn is_binary(content: Seq<u8>) -> bool {
    let sample = binary_sample(content);
    count_non_text(sample) > sample.len() / 8
}

/// The count of non-text bytes is the length of the run of bytes that are NUL or high-value
/// control characters.
proof fn lemma_count_is_filter(s: Seq<u8>)
    ensures
        count_non_text(s) == s.filter(|x: u8| x == 0 || (0x80 <= x && x <= 0x9f)).len(),
    decreases s.len(),
{
    reveal(Seq::filter);
    if s.len() > 0 {
        lemma_count_is_filter(s.drop_last());
    }
}

/// A run of bytes that are all NUL or high-value control characters counts in full; a run
/// with none of them counts nothing.
proof fn lemma_count_extremes(s: Seq<u8>)
    ensures
        (forall|i: int| 0 <= i < s.len() ==> is_non_text_byte(#[trigger] s[i])) ==> count_non_text(s)
            == s.len(),
        (forall|i: int| 0 <= i < s.len() ==> !is_non_text_byte(#[trigger] s[i])) ==> count_non_text(s)
            == 0,
    decreases s.len(),
{
    if s.len() > 0 {
        lemma_count_extremes(s.drop_last());
        assert forall|i: int| 0 <= i < s.len() - 1 implies s.drop_last()[i] == s[i] by {}
        if forall|i: int| 0 <= i < s.len() ==> is_non_text_byte(#[trigger] s[i]) {
            assert(is_non_text_byte(s[s.len() - 1]));
            assert forall|i: int| 0 <= i < s.drop_last().len() implies is_non_text_byte(
                #[trigger] s.drop_last()[i],
            ) by {
                assert(is_non_text_byte(s[i]));
            }
        }
        if forall|i: int| 0 <= i < s.len() ==> !is_non_text_byte(#[trigger] s[i]) {
            assert(!is_non_text_byte(s[s.len() - 1]));
            assert forall|i: int| 0 <= i < s.drop_last().len() implies !is_non_text_byte(
                #[trigger] s.drop_last()[i],
            ) by {
                assert(!is_non_text_byte(s[i]));
            }
        }
    }
}

/// Content counts as binary exactly when, among its first `n` bytes (its length, or 512
/// when longer), more than `n / 8` are NUL bytes or high-value control characters (0x80
/// to 0x9F).
pub proof fn lemma_binary_verdict(content: Seq<u8>)
    ensures
        is_binary(content) <==> content.take(
            if content.len() < 512 { content.len() as int } else { 512 },
        ).filter(|x: u8| x == 0 || (0x80 <= x && x <= 0x9f)).len() > (if content.len() < 512 {
            content.len() as int
        } else {
            512
        }) / 8,
{
    lemma_count_is_filter(binary_sample(content));
}

/// The verdict depends on the first 512 bytes alone: a file gets the verdict of its first
/// 512 bytes (of itself, when shorter), and bytes appended after the first 512 change
/// nothing.
pub proof fn lemma_verdict_from_first_512_bytes(content: Seq<u8>, rest: Seq<u8>)
    ensures
        is_binary(content) == is_binary(content.take(
            if content.len() < 512 { content.len() as int } else { 512 },
        )),
        content.len() >= 512 ==> is_binary(content + rest) == is_binary(content),
{
    if content.len() >= 512 {
        assert(content.take(512).take(512) =~= content.take(512));
        assert((content + rest).take(512) =~= content.take(512));
    } else {
        assert(content.take(content.len() as int) =~= content);
    }
}

/// A file whose sampled bytes are all NUL (or high-value control characters) is binary,
/// however long it is; a non-empty file with no such byte among them is not.
pub proof fn lemma_nul_sample_is_binary(content: Seq<u8>)
    ensures
        content.len() > 0 && (forall|i: int|
            0 <= i < content.len() && i < 512 ==> #[trigger] content[i] == 0) ==> is_binary(content),
        (forall|i: int|
            0 <= i < content.len() && i < 512 ==> #[trigger] content[i] != 0 && !(0x80
                <= content[i] && content[i] <= 0x9f)) ==> !is_binary(content),
{
    let sample = binary_sample(content);
    lemma_count_extremes(sample);
    if content.len() > 0 && (forall|i: int|
        0 <= i < content.len() && i < 512 ==> #[trigger] content[i] == 0) {
        assert forall|i: int| 0 <= i < sample.len() implies is_non_text_byte(#[trigger] sample[i]) by {
            assert(content[i] == 0);
        }
    }
    if forall|i: int|
        0 <= i < content.len() && i < 512 ==> #[trigger] content[i] != 0 && !(0x80 <= content[i]
            && content[i] <= 0x9f) {
        assert forall|i: int| 0 <= i < sample.len() implies !is_non_text_byte(#[trigger] sample[i]) by {
            assert(content[i] != 0);
        }
    }
}

/// Quick binary detection: sample first 512 bytes.
/// If more than 1 in 8 bytes is a null byte or high-value control char (0x80 to 0x9F),
/// it's binary.
pub fn looks_binary(content: &[u8]) -> (binary: bool)
    ensures
        binary == is_binary(content@),
{
    let sample_len = if content.len() < 512 { content.len() } else { 512 };
    let ghost sample = binary_sample(content@);
    let mut non_text: usize = 0;
    let mut i: usize = 0;
    while i < sample_len
        invariant
            sample_len <= content.len(),
            sample_len == sample.len(),
            sample == content@.take(sample_len as int),
            i <= sample_len,
            non_text == count_non_text(sample.take(i as int)),
            non_text <= i,
        decreases sample_len - i,
    {
        let b = content[i];
        assert(sample.take(i + 1).drop_last() =~= sample.take(i as int));
        if b == 0 || (0x80 <= b && b <= 0x9f) {
            non_text = non_text + 1;
        }
        i = i + 1;
    }
    assert(sample.take(sample_len as int) =~= sample);
    non_text > sample_len / 8
}

} // verus!
