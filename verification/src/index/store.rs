//! The read-only index store: answers lookups straight from the index bytes.
//!
//! Nothing is parsed ahead of time but the header; each lookup reads only the table
//! entries and the data it needs, and refuses (returns `None`) any read that would fall
//! outside the bytes.

use roaring::RoaringBitmap;
use vstd::prelude::*;
use vstd::utf8::{decode_utf8, valid_utf8};

use crate::bitmap::{bitmap_deserialize, bitmap_members, roaring_decode};
use crate::index::format::{index_magic, read_u32, read_u64, u32_at, u64_at};
use crate::text::str_from_utf8;

verus! {

/// The `len` bytes at `off`, if they lie within `data`.
pub open spec fn region(data: Seq<u8>, off: int, len: int) -> Option<Seq<u8>> {
    if 0 <= off && 0 <= len && off + len <= data.len() {
        Some(data.subrange(off, off + len))
    } else {
        None
    }
}

/// The stored path bytes of document `doc_id`: its document-table entry gives the path's
/// offset within the path data (which follows the document table) and its length.
pub open spec fn doc_path_region(data: Seq<u8>, doc_count: int, doc_table: int, doc_id: int) -> Option<
    Seq<u8>,
> {
    if doc_id >= doc_count {
        None
    } else {
        let entry = doc_table + 12 * doc_id;
        if entry + 12 > data.len() {
            None
        } else {
            region(data, doc_table + 12 * doc_count + u64_at(data, entry), u32_at(data, entry + 8))
        }
    }
}

/// The binary search of the trigram table for `t` between entries `lo` (inclusive) and
/// `hi` (exclusive): the index of the entry found, or `None` when `t` is not found or an
/// entry's key lies outside the data.
pub open spec fn table_search(data: Seq<u8>, table: int, lo: int, hi: int, t: u32) -> Option<int>
    decreases hi - lo,
{
    if lo < 0 || lo >= hi {
        None
    } else {
        let mid = lo + (hi - lo) / 2;
        let off = table + 16 * mid;
        if off + 4 > data.len() {
            None
        } else if u32_at(data, off) == t {
            Some(mid)
        } else if u32_at(data, off) < t {
            table_search(data, table, mid + 1, hi, t)
        } else {
            table_search(data, table, lo, mid, t)
        }
    }
}

/// The stored bitmap bytes of trigram `t`: the entry that the binary search finds gives
/// their offset (from the start of the data) and length.
pub open spec fn bitmap_region(data: Seq<u8>, table: int, count: int, t: u32) -> Option<Seq<u8>> {
    match table_search(data, table, 0, count, t) {
        None => None,
        Some(j) => {
            let off = table + 16 * j;
            if off + 16 > data.len() {
                None
            } else {
                region(data, u64_at(data, off + 4), u32_at(data, off + 12))
            }
        },
    }
}

/// Why an index could not be opened.
#[derive(Debug)]
pub enum OpenError {
    /// Fewer bytes than a header.
    TooSmall,
    /// The bytes do not start with `b"CIX1"`.
    BadMagic,
}

/// An opened index: its bytes and the header fields read at open time.
pub struct IndexStore {
    data: Vec<u8>,
    doc_count: u32,
    trigram_count: u32,
    doc_table_offset: u64,
    trigram_table_offset: u64,
}

impl IndexStore {
    /// The index bytes.
    pub closed spec fn bytes(&self) -> Seq<u8> {
        self.data@
    }

    /// The number of documents, as read from the header.
    pub closed spec fn doc_total(&self) -> int {
        self.doc_count as int
    }

    /// The number of trigram-table entries, as read from the header.
    pub closed spec fn trigram_total(&self) -> int {
        self.trigram_count as int
    }

    /// Where the document table starts, as read from the header.
    pub closed spec fn doc_table(&self) -> int {
        self.doc_table_offset as int
    }

    /// Where the trigram table starts, as read from the header.
    pub closed spec fn trigram_table(&self) -> int {
        self.trigram_table_offset as int
    }

    /// The stored path bytes of a document.
    pub open spec fn path_bytes(&self, doc_id: int) -> Option<Seq<u8>> {
        doc_path_region(self.bytes(), self.doc_total(), self.doc_table(), doc_id)
    }

    /// The path of a document, where its stored bytes are valid UTF-8.
    pub open spec fn path_text(&self, doc_id: int) -> Option<Seq<char>> {
        match self.path_bytes(doc_id) {
            Some(b) => if valid_utf8(b) {
                Some(decode_utf8(b))
            } else {
                None
            },
            None => None,
        }
    }

    /// The set of documents stored for trigram `t`, where the lookup finds bytes that
    /// decode as a bitmap.
    pub open spec fn posting_set(&self, t: u32) -> Option<Set<u32>> {
        match bitmap_region(self.bytes(), self.trigram_table(), self.trigram_total(), t) {
            Some(b) => roaring_decode(b),
            None => None,
        }
    }

    /// The store holds `data` and the header fields read from it.
    pub open spec fn opened_from(&self, data: Seq<u8>) -> bool {
        &&& self.bytes() == data
        &&& self.doc_total() == u32_at(data, 8)
        &&& self.trigram_total() == u32_at(data, 12)
        &&& self.doc_table() == u64_at(data, 16)
        &&& self.trigram_table() == u64_at(data, 24)
    }

    /// The number of documents, as read from the header.
    pub fn doc_count(&self) -> (n: u32)
        ensures
            n == self.doc_total(),
    {
        self.doc_count
    }

    /// The number of trigrams, as read from the header.
    pub fn trigram_count(&self) -> (n: u32)
        ensures
            n == self.trigram_total(),
    {
        self.trigram_count
    }

    /// Open an index held in `data`: checks the size and magic bytes and reads the header.
    pub fn open(data: Vec<u8>) -> (r: Result<IndexStore, OpenError>)
        ensures
            data@.len() < 32 ==> r == Err::<IndexStore, OpenError>(OpenError::TooSmall),
            data@.len() >= 32 && data@.take(4) != index_magic() ==> r == Err::<
                IndexStore,
                OpenError,
            >(OpenError::BadMagic),
            data@.len() >= 32 && data@.take(4) == index_magic() ==> (r matches Ok(s)
                && s.opened_from(data@)),
    {
        if data.len() < 32 {
            return Err(OpenError::TooSmall);
        }
        if !(data[0] == 67 && data[1] == 73 && data[2] == 88 && data[3] == 49) {
            proof {
                if data@.take(4) == index_magic() {
                    assert(data@.take(4)[0] == data@[0]);
                    assert(data@.take(4)[1] == data@[1]);
                    assert(data@.take(4)[2] == data@[2]);
                    assert(data@.take(4)[3] == data@[3]);
                }
            }
            return Err(OpenError::BadMagic);
        }
        assert(data@.take(4) =~= index_magic());
        let bytes = data.as_slice();
        let _version = read_u32(bytes, 4);
        let doc_count = read_u32(bytes, 8);
        let trigram_count = read_u32(bytes, 12);
        let doc_table_offset = read_u64(bytes, 16);
        let trigram_table_offset = read_u64(bytes, 24);
        Ok(IndexStore { data, doc_count, trigram_count, doc_table_offset, trigram_table_offset })
    }

    /// Safe slice into the index bytes: `None` when the range leaves them.
    fn slice(&self, offset: u128, len: u128) -> (s: Option<&[u8]>)
        requires
            offset <= 0x1_0000_0000_0000_0000_0000,
            len <= 0x1_0000_0000_0000_0000_0000,
        ensures
            match s {
                Some(s) => region(self.bytes(), offset as int, len as int) == Some(s@),
                None => region(self.bytes(), offset as int, len as int) is None,
            },
    {
        let end = offset + len;
        if end > self.data.len() as u128 {
            return None;
        }
        let s = vstd::slice::slice_subrange(self.data.as_slice(), offset as usize, end as usize);
        Some(s)
    }

    /// Look up the file path for a document ID.
    pub fn doc_path(&self, doc_id: u32) -> (path: Option<&str>)
        ensures
            match path {
                Some(p) => self.path_text(doc_id as int) == Some(p@),
                None => self.path_text(doc_id as int) is None,
            },
    {
        if doc_id >= self.doc_count {
            return None;
        }
        // Doc table entry: u64 offset + u32 len = 12 bytes
        let entry_offset = self.doc_table_offset as u128 + doc_id as u128 * 12;
        let entry = match self.slice(entry_offset, 12) {
            Some(e) => e,
            None => return None,
        };
        let path_offset = read_u64(entry, 0);
        let path_len = read_u32(entry, 8);
        proof {
            assert(entry@ == self.bytes().subrange(entry_offset as int, entry_offset + 12));
            assert(u64_at(entry@, 0) == u64_at(self.bytes(), entry_offset as int));
            assert(u32_at(entry@, 8) == u32_at(self.bytes(), entry_offset + 8));
        }
        // Path data starts after doc table
        let path_data_base = self.doc_table_offset as u128 + self.doc_count as u128 * 12;
        let path_bytes = match self.slice(path_data_base + path_offset as u128, path_len as u128) {
            Some(b) => b,
            None => return None,
        };
        str_from_utf8(path_bytes)
    }

    /// Look up the RoaringBitmap for a trigram by binary search in the sorted trigram
    /// table. Returns None if the trigram doesn't exist in the index.
    pub fn trigram_bitmap(&self, trigram: u32) -> (bitmap: Option<RoaringBitmap>)
        ensures
            match bitmap {
                Some(b) => self.posting_set(trigram) == Some(bitmap_members(b)),
                None => self.posting_set(trigram) is None,
            },
    {
        // Each entry: u32 trigram + u64 offset + u32 len = 16 bytes
        let table_base = self.trigram_table_offset as u128;
        let entry_count = self.trigram_count as u128;
        let ghost data = self.bytes();
        let ghost table = self.trigram_table();

        let mut lo: u128 = 0;
        let mut hi: u128 = entry_count;
        while lo < hi
            invariant
                lo <= hi <= entry_count,
                entry_count == self.trigram_count,
                table_base == table,
                data == self.bytes(),
                table == self.trigram_table(),
                table_search(data, table, lo as int, hi as int, trigram) == table_search(
                    data,
                    table,
                    0,
                    entry_count as int,
                    trigram,
                ),
            decreases hi - lo,
        {
            let mid = lo + (hi - lo) / 2;
            let entry_offset = table_base + mid * 16;
            let key_bytes = match self.slice(entry_offset, 4) {
                Some(b) => b,
                None => return None,
            };
            let stored_trigram = read_u32(key_bytes, 0);
            assert(u32_at(key_bytes@, 0) == u32_at(data, entry_offset as int));
            if stored_trigram == trigram {
                // Found — read bitmap offset and len
                let full_entry = match self.slice(entry_offset, 16) {
                    Some(e) => e,
                    None => return None,
                };
                let bm_offset = read_u64(full_entry, 4);
                let bm_len = read_u32(full_entry, 12);
                assert(u64_at(full_entry@, 4) == u64_at(data, entry_offset + 4));
                assert(u32_at(full_entry@, 12) == u32_at(data, entry_offset + 12));
                let bm_bytes = match self.slice(bm_offset as u128, bm_len as u128) {
                    Some(b) => b,
                    None => return None,
                };
                return bitmap_deserialize(bm_bytes);
            } else if stored_trigram < trigram {
                lo = mid + 1;
            } else {
                hi = mid;
            }
        }
        None // Trigram not in index
    }
}

} // verus!
