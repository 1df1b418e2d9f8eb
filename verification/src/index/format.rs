//! The on-disk layout of an index: little-endian integers and the section layout.
//!
//! ```text
//! HEADER (32 bytes)
//!   magic: [u8; 4] = b"CIX1", version: u32, doc_count: u32, trigram_count: u32,
//!   doc_table_offset: u64, trigram_table_offset: u64
//! DOCUMENT TABLE   doc_count entries of (path_offset: u64, path_len: u32)
//! PATH DATA        the UTF-8 paths, concatenated
//! TRIGRAM TABLE    trigram_count entries of (trigram: u32, bitmap_offset: u64, bitmap_len: u32),
//!                  sorted by trigram
//! BITMAP DATA      the serialized bitmaps (sets of document ids), concatenated
//! ```
//! `path_offset` counts from the start of the path data; `bitmap_offset` from the start
//! of the file.

use vstd::prelude::*;

verus! {

/// The magic bytes that open every index: `b"CIX1"`.
pub open spec fn index_magic() -> Seq<u8> {
    seq![67u8, 73u8, 88u8, 49u8]
}

/// Size of the header in bytes.
pub const HEADER_SIZE: u64 = 32;

/// Size of one document-table entry in bytes.
pub const DOC_ENTRY_SIZE: u64 = 12;

/// Size of one trigram-table entry in bytes.
pub const TRIGRAM_ENTRY_SIZE: u64 = 16;

/// The little-endian `u32` stored at `off` in `s`.
pub open spec fn u32_at(s: Seq<u8>, off: int) -> int {
    s[off] + 256 * s[off + 1] + 65536 * s[off + 2] + 16777216 * s[off + 3]
}

/// The little-endian `u64` stored at `off` in `s`.
pub open spec fn u64_at(s: Seq<u8>, off: int) -> int {
    u32_at(s, off) + 4294967296 * u32_at(s, off + 4)
}

/// The 4 little-endian bytes of `x`.
pub open spec fn le_u32(x: u32) -> Seq<u8> {
    seq![(x % 256) as u8, (x / 256 % 256) as u8, (x / 65536 % 256) as u8, (x / 16777216) as u8]
}

/// The 8 little-endian bytes of `x`.
pub open spec fn le_u64(x: u64) -> Seq<u8> {
    le_u32((x % 4294967296) as u32) + le_u32((x / 4294967296) as u32)
}

/// Reading back the bytes of a `u32` written at the end of `s` gives the `u32`.
pub proof fn lemma_u32_written(s: Seq<u8>, x: u32)
    ensures
        (s + le_u32(x)).len() == s.len() + 4,
        u32_at(s + le_u32(x), s.len() as int) == x,
{
    let t = s + le_u32(x);
    assert(t[s.len() as int] == (x % 256) as u8);
    assert(t[s.len() as int + 1] == (x / 256 % 256) as u8);
    assert(t[s.len() as int + 2] == (x / 65536 % 256) as u8);
    assert(t[s.len() as int + 3] == (x / 16777216) as u8);
    assert((x % 256) + 256 * (x / 256 % 256) + 65536 * (x / 65536 % 256) + 16777216 * (x
        / 16777216) == x) by (nonlinear_arith);
}

/// Reading back the bytes of a `u64` written at the end of `s` gives the `u64`.
pub proof fn lemma_u64_written(s: Seq<u8>, x: u64)
    ensures
        (s + le_u64(x)).len() == s.len() + 8,
        u64_at(s + le_u64(x), s.len() as int) == x,
{
    let lo = (x % 4294967296) as u32;
    let hi = (x / 4294967296) as u32;
    lemma_u32_written(s, lo);
    lemma_u32_written(s + le_u32(lo), hi);
    assert(s + le_u64(x) =~= s + le_u32(lo) + le_u32(hi));
    let t = s + le_u64(x);
    assert(u32_at(t, s.len() as int) == u32_at(s + le_u32(lo), s.len() as int));
    assert(lo + 4294967296 * hi == x) by (nonlinear_arith)
        requires
            lo == x % 4294967296,
            hi == x / 4294967296,
    ;
}

/// Append the little-endian bytes of `x`.
pub(crate) fn append_u32(out: &mut Vec<u8>, x: u32)
    ensures
        final(out)@ == old(out)@ + le_u32(x),
{
    out.push((x % 256) as u8);
    out.push((x / 256 % 256) as u8);
    out.push((x / 65536 % 256) as u8);
    out.push((x / 16777216) as u8);
    assert(out@ =~= old(out)@ + le_u32(x));
}

/// Append the little-endian bytes of `x`.
pub(crate) fn append_u64(out: &mut Vec<u8>, x: u64)
    ensures
        final(out)@ == old(out)@ + le_u64(x),
{
    append_u32(out, (x % 4294967296) as u32);
    append_u32(out, (x / 4294967296) as u32);
    assert(out@ =~= old(out)@ + le_u64(x));
}

/// Append a run of bytes.
pub(crate) fn append_bytes(out: &mut Vec<u8>, bytes: &[u8])
    ensures
        final(out)@ == old(out)@ + bytes@,
{
    let ghost start = out@;
    let mut i: usize = 0;
    while i < bytes.len()
        invariant
            i <= bytes@.len(),
            out@ == start + bytes@.take(i as int),
        decreases bytes.len() - i,
    {
        out.push(bytes[i]);
        i = i + 1;
        assert(out@ =~= start + bytes@.take(i as int));
    }
    assert(bytes@.take(bytes@.len() as int) =~= bytes@);
}

/// Read the little-endian `u32` at `off`.
pub(crate) fn read_u32(data: &[u8], off: usize) -> (v: u32)
    requires
        off + 4 <= data.len(),
    ensures
        v == u32_at(data@, off as int),
{
    data[off] as u32 + 256 * data[off + 1] as u32 + 65536 * data[off + 2] as u32 + 16777216
        * data[off + 3] as u32
}

/// Read the little-endian `u64` at `off`.
pub(crate) fn read_u64(data: &[u8], off: usize) -> (v: u64)
    requires
        off + 8 <= data.len(),
    ensures
        v == u64_at(data@, off as int),
{
    let lo = read_u32(data, off);
    let hi = read_u32(data, off + 4);
    lo as u64 + 4294967296 * hi as u64
}

/// The total length of a sequence of byte strings.
pub open spec fn total_len(parts: Seq<Seq<u8>>) -> int
    decreases parts.len(),
{
    if parts.len() == 0 {
        0
    } else {
        total_len(parts.drop_last()) + parts.last().len()
    }
}

/// Byte strings laid end to end.
pub open spec fn concat(parts: Seq<Seq<u8>>) -> Seq<u8>
    decreases parts.len(),
{
    if parts.len() == 0 {
        Seq::empty()
    } else {
        concat(parts.drop_last()) + parts.last()
    }
}

/// Where part `i` starts when the parts are laid end to end.
pub open spec fn part_offset(parts: Seq<Seq<u8>>, i: int) -> int {
    total_len(parts.take(i))
}

/// Laying one more part at the end appends its bytes.
pub proof fn lemma_concat_push(parts: Seq<Seq<u8>>, p: Seq<u8>)
    ensures
        concat(parts.push(p)) == concat(parts) + p,
        total_len(parts.push(p)) == total_len(parts) + p.len(),
{
    assert(parts.push(p).drop_last() =~= parts);
}

/// The parts laid end to end take up their total length.
pub proof fn lemma_concat_len(parts: Seq<Seq<u8>>)
    ensures
        concat(parts).len() == total_len(parts),
        total_len(parts) >= 0,
    decreases parts.len(),
{
    if parts.len() > 0 {
        lemma_concat_len(parts.drop_last());
    }
}

/// The parts before `k` take up no more than all the parts.
pub proof fn lemma_total_len_take(parts: Seq<Seq<u8>>, k: int)
    requires
        0 <= k <= parts.len(),
    ensures
        0 <= total_len(parts.take(k)) <= total_len(parts),
    decreases parts.len(),
{
    lemma_concat_len(parts.take(k));
    if k == parts.len() {
        assert(parts.take(k) =~= parts);
    } else {
        assert(parts.drop_last().take(k) =~= parts.take(k));
        lemma_total_len_take(parts.drop_last(), k);
    }
}

/// Part `i` starts at `part_offset(parts, i)` and ends where part `i + 1` starts, within
/// the total length.
pub proof fn lemma_part_offset(parts: Seq<Seq<u8>>, i: int)
    requires
        0 <= i < parts.len(),
    ensures
        0 <= part_offset(parts, i),
        part_offset(parts, i) + parts[i].len() == part_offset(parts, i + 1),
        part_offset(parts, i + 1) <= total_len(parts),
{
    lemma_total_len_take(parts, i);
    lemma_total_len_take(parts, i + 1);
    assert(parts.take(i + 1).drop_last() =~= parts.take(i));
}

/// Part `i` lies, laid end to end with the others, at `part_offset(parts, i)`.
pub proof fn lemma_concat_part(parts: Seq<Seq<u8>>, i: int)
    requires
        0 <= i < parts.len(),
    ensures
        concat(parts).subrange(part_offset(parts, i), part_offset(parts, i) + parts[i].len())
            == parts[i],
    decreases parts.len(),
{
    lemma_part_offset(parts, i);
    lemma_concat_len(parts.drop_last());
    if i + 1 == parts.len() {
        assert(parts.take(i) =~= parts.drop_last());
        assert(concat(parts).subrange(part_offset(parts, i), part_offset(parts, i) + parts[i].len())
            =~= parts[i]);
    } else {
        let prev = parts.drop_last();
        assert(prev.take(i) =~= parts.take(i));
        lemma_concat_part(prev, i);
        lemma_part_offset(prev, i);
        assert(concat(parts).subrange(part_offset(parts, i), part_offset(parts, i) + parts[i].len())
            =~= concat(prev).subrange(part_offset(prev, i), part_offset(prev, i) + prev[i].len()));
    }
}

/// Where the path data starts, for `doc_count` documents.
pub open spec fn path_data_start(doc_count: int) -> int {
    32 + 12 * doc_count
}

/// Where the trigram table starts.
pub open spec fn trigram_table_start(paths: Seq<Seq<u8>>) -> int {
    path_data_start(paths.len() as int) + total_len(paths)
}

/// Where the bitmap data starts.
pub open spec fn bitmap_data_start(paths: Seq<Seq<u8>>, trigram_count: int) -> int {
    trigram_table_start(paths) + 16 * trigram_count
}

/// The size of an index of these paths and serialized bitmaps.
pub open spec fn index_size(paths: Seq<Seq<u8>>, bitmaps: Seq<Seq<u8>>) -> int {
    bitmap_data_start(paths, bitmaps.len() as int) + total_len(bitmaps)
}

/// The document-table entry of document `i`, in a table starting at `base`: the offset of
/// its path within the path data, and the path's length.
pub open spec fn doc_entry_at(s: Seq<u8>, base: int, paths: Seq<Seq<u8>>, i: int) -> bool {
    &&& u64_at(s, base + 12 * i) == part_offset(paths, i)
    &&& u32_at(s, base + 12 * i + 8) == paths[i].len() % 0x1_0000_0000
}

/// The trigram-table entry `j`, in a table starting at `base`: the trigram, and the offset
/// (from `blob_base`, the start of the bitmap data) and length of its serialized bitmap.
pub open spec fn trigram_entry_at(
    s: Seq<u8>,
    base: int,
    blob_base: int,
    keys: Seq<u32>,
    bitmaps: Seq<Seq<u8>>,
    j: int,
) -> bool {
    &&& u32_at(s, base + 16 * j) == keys[j]
    &&& u64_at(s, base + 16 * j + 4) == blob_base + part_offset(bitmaps, j)
    &&& u32_at(s, base + 16 * j + 12) == bitmaps[j].len() % 0x1_0000_0000
}

/// `bytes` is the index of the documents with the given path bytes (document `i` has
/// id `i`) and of the trigrams `keys`, sorted, whose serialized bitmaps are `bitmaps`.
/// Counts and lengths are stored truncated to 32 bits, as they are written.
#[verifier::opaque]
pub open spec fn index_layout(
    bytes: Seq<u8>,
    paths: Seq<Seq<u8>>,
    keys: Seq<u32>,
    bitmaps: Seq<Seq<u8>>,
) -> bool {
    let n = paths.len() as int;
    let m = keys.len() as int;
    let table = trigram_table_start(paths);
    let blob_base = bitmap_data_start(paths, m);
    &&& bitmaps.len() == m
    &&& bytes.len() == index_size(paths, bitmaps)
    &&& bytes.take(4) == index_magic()
    &&& u32_at(bytes, 4) == 1
    &&& u32_at(bytes, 8) == n % 0x1_0000_0000
    &&& u32_at(bytes, 12) == m % 0x1_0000_0000
    &&& u64_at(bytes, 16) == 32
    &&& u64_at(bytes, 24) == table
    &&& forall|i: int| 0 <= i < n ==> #[trigger] doc_entry_at(bytes, 32, paths, i)
    &&& bytes.subrange(path_data_start(n), table) == concat(paths)
    &&& forall|j: int|
        0 <= j < m ==> #[trigger] trigram_entry_at(bytes, table, blob_base, keys, bitmaps, j)
    &&& bytes.subrange(blob_base, bytes.len() as int) == concat(bitmaps)
}

} // verus!
