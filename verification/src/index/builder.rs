//! Building an index: documents are added one by one, each with its trigrams, and the
//! posting list of every trigram (the set of ids of the documents holding it) grows with
//! them. The finished index is laid out as `crate::index::format` describes.

use dashmap::DashMap;
use roaring::RoaringBitmap;
use vstd::prelude::*;

use vstd::utf8::encode_utf8;

use crate::bitmap::{
    bitmap_insert, bitmap_members, bitmap_new, bitmap_serialize, max_serialized_len, roaring_decode,
    roaring_encode,
};
use crate::posting_map::{
    posting_contents, posting_canonical, postings_insert, postings_keys, postings_len, postings_remove,
    postings_with_capacity,
};
use crate::index::format::{
    append_bytes, append_u32, append_u64, bitmap_data_start, concat, doc_entry_at, index_layout,
    index_magic,
    index_size, lemma_concat_len, lemma_concat_push, lemma_part_offset, lemma_u32_written,
    lemma_u64_written, part_offset, trigram_entry_at, trigram_table_start, u32_at, u64_at,
};
use crate::trigram::{
    lemma_permutation_distinct, lemma_sorted_distinct_ascending, sort_ascending,
    strictly_ascending, TrigramFile,
};

verus! {

/// The posting lists of a sequence of documents, given by their trigram sets: each
/// trigram that occurs in some document maps to the ids (positions) of the documents
/// holding it.
pub open spec fn postings_of(docs: Seq<Set<u32>>) -> Map<u32, Set<u32>> {
    Map::new(
        |t: u32| exists|i: int| 0 <= i < docs.len() && #[trigger] docs[i].contains(t),
        |t: u32| Set::new(|id: u32| id < docs.len() && docs[id as int].contains(t)),
    )
}

/// The posting lists `p` after adding document `id` to the list of every trigram in `s`.
pub open spec fn postings_with(p: Map<u32, Set<u32>>, id: u32, s: Set<u32>) -> Map<u32, Set<u32>> {
    Map::new(
        |t: u32| p.contains_key(t) || s.contains(t),
        |t: u32|
            if s.contains(t) {
                if p.contains_key(t) {
                    p[t].insert(id)
                } else {
                    Set::empty().insert(id)
                }
            } else {
                p[t]
            },
    )
}

/// The UTF-8 bytes of each path.
pub open spec fn path_bytes(paths: Seq<Seq<char>>) -> Seq<Seq<u8>> {
    paths.map_values(|p: Seq<char>| encode_utf8(p))
}

/// `keys` are the trigrams of the posting lists, in ascending order, and `bitmaps[j]` is
/// the serialization of the posting list of `keys[j]` (which decodes back to it), at most
/// `max_serialized_len()` bytes long.
pub open spec fn index_parts(postings: Map<u32, Set<u32>>, keys: Seq<u32>, bitmaps: Seq<Seq<u8>>) -> bool {
    &&& strictly_ascending(keys)
    &&& keys.to_set() == postings.dom()
    &&& bitmaps.len() == keys.len()
    &&& forall|j: int|
        #![trigger keys[j]]
        0 <= j < keys.len() ==> {
            &&& bitmaps[j] == roaring_encode(postings[keys[j]])
            &&& roaring_decode(bitmaps[j]) == Some(postings[keys[j]])
        }
    &&& forall|j: int| 0 <= j < bitmaps.len() ==> #[trigger] bitmaps[j].len() <= max_serialized_len()
}

/// Why an index could not be written.
#[derive(Debug)]
pub enum IndexError {
    /// The index would be larger than its 64-bit offsets can address.
    TooLarge,
}

/// The 32-byte header: magic, version 1, the two counts and the two table offsets.
fn encode_header(doc_count: u32, trigram_count: u32, trigram_table_offset: u64) -> (h: Vec<u8>)
    ensures
        h@.len() == 32,
        h@.take(4) == index_magic(),
        u32_at(h@, 4) == 1,
        u32_at(h@, 8) == doc_count,
        u32_at(h@, 12) == trigram_count,
        u64_at(h@, 16) == 32,
        u64_at(h@, 24) == trigram_table_offset,
{
    let mut h: Vec<u8> = Vec::new();
    h.push(67u8);
    h.push(73u8);
    h.push(88u8);
    h.push(49u8);
    let ghost h0 = h@;
    assert(h0.take(4) =~= index_magic());
    append_u32(&mut h, 1);
    let ghost h1 = h@;
    proof { lemma_u32_written(h0, 1); }
    append_u32(&mut h, doc_count);
    let ghost h2 = h@;
    proof { lemma_u32_written(h1, doc_count); }
    append_u32(&mut h, trigram_count);
    let ghost h3 = h@;
    proof { lemma_u32_written(h2, trigram_count); }
    append_u64(&mut h, 32);
    let ghost h4 = h@;
    proof { lemma_u64_written(h3, 32); }
    append_u64(&mut h, trigram_table_offset);
    proof {
        lemma_u64_written(h4, trigram_table_offset);
        assert(h@.take(4) =~= h0.take(4));
        assert(u32_at(h@, 4) == u32_at(h1, 4));
        assert(u32_at(h@, 8) == u32_at(h2, 8));
        assert(u32_at(h@, 12) == u32_at(h3, 12));
        assert(u64_at(h@, 16) == u64_at(h4, 16));
    }
    h
}

/// The document table: one (offset: u64, length: u32) entry per document.
fn encode_doc_table(entries: &Vec<(u64, u32)>) -> (d: Vec<u8>)
    ensures
        d@.len() == 12 * entries@.len(),
        forall|k: int|
            #![trigger entries@[k]]
            0 <= k < entries@.len() ==> {
                &&& u64_at(d@, 12 * k) == entries@[k].0
                &&& u32_at(d@, 12 * k + 8) == entries@[k].1
            },
{
    let mut d: Vec<u8> = Vec::new();
    let mut k: usize = 0;
    while k < entries.len()
        invariant
            k <= entries@.len(),
            d@.len() == 12 * k,
            forall|q: int|
                #![trigger entries@[q]]
                0 <= q < k ==> {
                    &&& u64_at(d@, 12 * q) == entries@[q].0
                    &&& u32_at(d@, 12 * q + 8) == entries@[q].1
                },
        decreases entries@.len() - k,
    {
        let (offset, len) = entries[k];
        let ghost d0 = d@;
        append_u64(&mut d, offset);
        let ghost d1 = d@;
        append_u32(&mut d, len);
        proof {
            lemma_u64_written(d0, offset);
            lemma_u32_written(d1, len);
            assert forall|q: int| #![trigger entries@[q]] 0 <= q < k + 1 implies {
                &&& u64_at(d@, 12 * q) == entries@[q].0
                &&& u32_at(d@, 12 * q + 8) == entries@[q].1
            } by {
                if q < k {
                    assert(u64_at(d@, 12 * q) == u64_at(d0, 12 * q));
                    assert(u32_at(d@, 12 * q + 8) == u32_at(d0, 12 * q + 8));
                } else {
                    assert(u64_at(d@, 12 * q) == u64_at(d1, 12 * q));
                }
            }
        }
        k = k + 1;
    }
    d
}

/// The trigram table: one (trigram: u32, offset: u64, length: u32) entry per trigram, the
/// offsets counted from `base`.
fn encode_trigram_table(entries: &Vec<(u32, u64, u32)>, base: u64) -> (t: Vec<u8>)
    requires
        forall|k: int| 0 <= k < entries@.len() ==> base + #[trigger] entries@[k].1 <= u64::MAX,
    ensures
        t@.len() == 16 * entries@.len(),
        forall|k: int|
            #![trigger entries@[k]]
            0 <= k < entries@.len() ==> {
                &&& u32_at(t@, 16 * k) == entries@[k].0
                &&& u64_at(t@, 16 * k + 4) == base + entries@[k].1
                &&& u32_at(t@, 16 * k + 12) == entries@[k].2
            },
{
    let mut t: Vec<u8> = Vec::new();
    let mut k: usize = 0;
    while k < entries.len()
        invariant
            k <= entries@.len(),
            t@.len() == 16 * k,
            forall|q: int| 0 <= q < entries@.len() ==> base + #[trigger] entries@[q].1 <= u64::MAX,
            forall|q: int|
                #![trigger entries@[q]]
                0 <= q < k ==> {
                    &&& u32_at(t@, 16 * q) == entries@[q].0
                    &&& u64_at(t@, 16 * q + 4) == base + entries@[q].1
                    &&& u32_at(t@, 16 * q + 12) == entries@[q].2
                },
        decreases entries@.len() - k,
    {
        let (trigram, offset, len) = entries[k];
        let ghost t0 = t@;
        append_u32(&mut t, trigram);
        let ghost t1 = t@;
        append_u64(&mut t, base + offset);
        let ghost t2 = t@;
        append_u32(&mut t, len);
        proof {
            lemma_u32_written(t0, trigram);
            lemma_u64_written(t1, (base + offset) as u64);
            lemma_u32_written(t2, len);
            assert forall|q: int| #![trigger entries@[q]] 0 <= q < k + 1 implies {
                &&& u32_at(t@, 16 * q) == entries@[q].0
                &&& u64_at(t@, 16 * q + 4) == base + entries@[q].1
                &&& u32_at(t@, 16 * q + 12) == entries@[q].2
            } by {
                if q < k {
                    assert(u32_at(t@, 16 * q) == u32_at(t0, 16 * q));
                    assert(u64_at(t@, 16 * q + 4) == u64_at(t0, 16 * q + 4));
                    assert(u32_at(t@, 16 * q + 12) == u32_at(t0, 16 * q + 12));
                } else {
                    assert(u32_at(t@, 16 * q) == u32_at(t1, 16 * q));
                    assert(u64_at(t@, 16 * q + 4) == u64_at(t2, 16 * q + 4));
                }
            }
        }
        k = k + 1;
    }
    t
}

/// The sections laid end to end make up the index: header, document table, path data,
/// trigram table, bitmap data.
proof fn lemma_sections_make_index(
    h: Seq<u8>,
    d: Seq<u8>,
    p: Seq<u8>,
    t: Seq<u8>,
    b: Seq<u8>,
    paths: Seq<Seq<u8>>,
    keys: Seq<u32>,
    bitmaps: Seq<Seq<u8>>,
)
    requires
        h.len() == 32,
        h.take(4) == index_magic(),
        u32_at(h, 4) == 1,
        u32_at(h, 8) == paths.len() % 0x1_0000_0000,
        u32_at(h, 12) == keys.len() % 0x1_0000_0000,
        u64_at(h, 16) == 32,
        u64_at(h, 24) == trigram_table_start(paths),
        d.len() == 12 * paths.len(),
        forall|i: int| 0 <= i < paths.len() ==> #[trigger] doc_entry_at(d, 0, paths, i),
        p == concat(paths),
        t.len() == 16 * keys.len(),
        forall|j: int|
            0 <= j < keys.len() ==> #[trigger] trigram_entry_at(
                t,
                0,
                bitmap_data_start(paths, keys.len() as int),
                keys,
                bitmaps,
                j,
            ),
        b == concat(bitmaps),
        bitmaps.len() == keys.len(),
    ensures
        index_layout(h + d + p + t + b, paths, keys, bitmaps),
{
    reveal(index_layout);
    let n = paths.len() as int;
    let m = keys.len() as int;
    lemma_concat_len(paths);
    lemma_concat_len(bitmaps);
    let table = trigram_table_start(paths);
    let blob_base = bitmap_data_start(paths, m);
    let s = h + d + p + t + b;
    assert(s.len() == index_size(paths, bitmaps));
    lemma_header_kept(h, d, p, t, b);
    lemma_doc_entries_kept(h, d, p, t, b, paths);
    lemma_trigram_entries_kept(h, d, p, t, b, paths, keys, bitmaps);
    lemma_data_kept(h, d, p, t, b);
}

/// The header's fields are read back at the start of the index.
proof fn lemma_header_kept(h: Seq<u8>, d: Seq<u8>, p: Seq<u8>, t: Seq<u8>, b: Seq<u8>)
    requires
        h.len() == 32,
    ensures
        (h + d + p + t + b).take(4) == h.take(4),
        u32_at(h + d + p + t + b, 4) == u32_at(h, 4),
        u32_at(h + d + p + t + b, 8) == u32_at(h, 8),
        u32_at(h + d + p + t + b, 12) == u32_at(h, 12),
        u64_at(h + d + p + t + b, 16) == u64_at(h, 16),
        u64_at(h + d + p + t + b, 24) == u64_at(h, 24),
{
    let s = h + d + p + t + b;
    assert forall|k: int| 0 <= k < 32 implies s[k] == h[k] by {
        assert((h + d)[k] == h[k]);
        assert((h + d + p)[k] == h[k]);
        assert((h + d + p + t)[k] == h[k]);
    }
    assert(s.take(4) =~= h.take(4));
}

/// The path data and bitmap data sections are found where the layout puts them.
proof fn lemma_data_kept(h: Seq<u8>, d: Seq<u8>, p: Seq<u8>, t: Seq<u8>, b: Seq<u8>)
    ensures
        (h + d + p + t + b).subrange(
            h.len() + d.len() as int,
            h.len() + d.len() + p.len() as int,
        ) == p,
        (h + d + p + t + b).subrange(
            h.len() + d.len() + p.len() + t.len() as int,
            h.len() + d.len() + p.len() + t.len() + b.len() as int,
        ) == b,
{
    let s = h + d + p + t + b;
    let a = h.len() + d.len() as int;
    assert forall|k: int| 0 <= k < p.len() implies s[a + k] == p[k] by {
        assert((h + d + p)[a + k] == p[k]);
        assert((h + d + p + t)[a + k] == p[k]);
    }
    assert(s.subrange(a, a + p.len() as int) =~= p);
    assert(s.subrange(a + p.len() + t.len() as int, a + p.len() + t.len() + b.len() as int) =~= b);
}

/// The document table's entries are read back after the header.
proof fn lemma_doc_entries_kept(
    h: Seq<u8>,
    d: Seq<u8>,
    p: Seq<u8>,
    t: Seq<u8>,
    b: Seq<u8>,
    paths: Seq<Seq<u8>>,
)
    requires
        h.len() == 32,
        d.len() == 12 * paths.len(),
        forall|i: int| 0 <= i < paths.len() ==> #[trigger] doc_entry_at(d, 0, paths, i),
    ensures
        forall|i: int|
            0 <= i < paths.len() ==> #[trigger] doc_entry_at(h + d + p + t + b, 32, paths, i),
{
    assert forall|i: int| 0 <= i < paths.len() implies #[trigger] doc_entry_at(
        h + d + p + t + b,
        32,
        paths,
        i,
    ) by {
        assert(doc_entry_at(d, 0, paths, i));
        lemma_entry_kept(h, d, p, t, b, 12 * i);
    }
}

/// The trigram table's entries are read back after the path data.
proof fn lemma_trigram_entries_kept(
    h: Seq<u8>,
    d: Seq<u8>,
    p: Seq<u8>,
    t: Seq<u8>,
    b: Seq<u8>,
    paths: Seq<Seq<u8>>,
    keys: Seq<u32>,
    bitmaps: Seq<Seq<u8>>,
)
    requires
        h.len() + d.len() + p.len() == trigram_table_start(paths),
        t.len() == 16 * keys.len(),
        forall|j: int|
            0 <= j < keys.len() ==> #[trigger] trigram_entry_at(
                t,
                0,
                bitmap_data_start(paths, keys.len() as int),
                keys,
                bitmaps,
                j,
            ),
    ensures
        forall|j: int|
            0 <= j < keys.len() ==> #[trigger] trigram_entry_at(
                h + d + p + t + b,
                trigram_table_start(paths),
                bitmap_data_start(paths, keys.len() as int),
                keys,
                bitmaps,
                j,
            ),
{
    let blob_base = bitmap_data_start(paths, keys.len() as int);
    assert forall|j: int| 0 <= j < keys.len() implies #[trigger] trigram_entry_at(
        h + d + p + t + b,
        trigram_table_start(paths),
        blob_base,
        keys,
        bitmaps,
        j,
    ) by {
        assert(trigram_entry_at(t, 0, blob_base, keys, bitmaps, j));
        lemma_table_entry_kept(h, d, p, t, b, 16 * j);
    }
}

/// A document-table entry is read back at its place in the index.
proof fn lemma_entry_kept(h: Seq<u8>, d: Seq<u8>, p: Seq<u8>, t: Seq<u8>, b: Seq<u8>, off: int)
    requires
        0 <= off,
        off + 12 <= d.len(),
    ensures
        u64_at(h + d + p + t + b, h.len() + off) == u64_at(d, off),
        u32_at(h + d + p + t + b, h.len() + off + 8) == u32_at(d, off + 8),
{
    let s = h + d + p + t + b;
    assert forall|k: int| 0 <= k < 12 implies #[trigger] s[h.len() + off + k] == d[off + k] by {
        assert((h + d)[h.len() + off + k] == d[off + k]);
        assert((h + d + p)[h.len() + off + k] == d[off + k]);
        assert((h + d + p + t)[h.len() + off + k] == d[off + k]);
    }
}

/// A trigram-table entry is read back at its place in the index.
proof fn lemma_table_entry_kept(h: Seq<u8>, d: Seq<u8>, p: Seq<u8>, t: Seq<u8>, b: Seq<u8>, off: int)
    requires
        0 <= off,
        off + 16 <= t.len(),
    ensures
        u32_at(h + d + p + t + b, h.len() + d.len() + p.len() + off) == u32_at(t, off),
        u64_at(h + d + p + t + b, h.len() + d.len() + p.len() + off + 4) == u64_at(t, off + 4),
        u32_at(h + d + p + t + b, h.len() + d.len() + p.len() + off + 12) == u32_at(t, off + 12),
{
    let s = h + d + p + t + b;
    let a = h.len() + d.len() + p.len();
    assert forall|k: int| 0 <= k < 16 implies #[trigger] s[a + off + k] == t[off + k] by {
        assert((h + d + p + t)[a + off + k] == t[off + k]);
    }
}

/// Files handed to the builder at a time while a tree is indexed.
pub const BATCH_SIZE: usize = 2048;

/// Progress is reported every this many files (indexing large trees can take minutes).
pub const PROGRESS_EVERY: u64 = 5000;

/// Whether a batch that takes the count of indexed files from `before` to `after` passes
/// a multiple of `PROGRESS_EVERY`, so that progress is reported.
pub fn progress_due(before: u64, after: u64) -> (due: bool)
    ensures
        due == (before / PROGRESS_EVERY != after / PROGRESS_EVERY),
{
    before / PROGRESS_EVERY != after / PROGRESS_EVERY
}

/// Statistics of a finished build.
pub struct BuildStats {
    pub file_count: u64,
    pub trigram_count: u64,
    pub index_size_bytes: u64,
}

/// Accumulates documents and their posting lists until the index is written.
pub struct IndexBuilder {
    doc_paths: Vec<String>,
    posting_lists: DashMap<u32, RoaringBitmap>,
    doc_trigrams: Ghost<Seq<Set<u32>>>,
}

impl IndexBuilder {
    /// The paths of the documents added so far; document `i` has id `i`.
    pub closed spec fn paths(&self) -> Seq<Seq<char>> {
        self.doc_paths@.map_values(|p: String| p@)
    }

    /// The trigram sets of the documents added so far.
    pub closed spec fn doc_trigrams(&self) -> Seq<Set<u32>> {
        self.doc_trigrams@
    }

    /// The posting lists held, as sets of document ids.
    pub closed spec fn postings(&self) -> Map<u32, Set<u32>> {
        posting_contents(self.posting_lists)
    }

    /// The builder's invariant: one trigram set per path, ids that fit in a `u32`, and
    /// posting lists that are exactly those of the documents added.
    pub closed spec fn wf(&self) -> bool {
        &&& self.doc_paths@.len() == self.doc_trigrams@.len()
        &&& self.doc_paths@.len() <= 0x1_0000_0000
        &&& self.postings() == postings_of(self.doc_trigrams@)
        &&& posting_canonical(self.posting_lists)
    }

    /// An empty builder.
    pub fn new() -> (b: IndexBuilder)
        ensures
            b.wf(),
            b.paths() == Seq::<Seq<char>>::empty(),
            b.doc_trigrams() == Seq::<Set<u32>>::empty(),
            b.postings() == postings_of(Seq::<Set<u32>>::empty()),
    {
        let b = IndexBuilder {
            doc_paths: Vec::new(),
            posting_lists: postings_with_capacity(500_000),
            doc_trigrams: Ghost(Seq::empty()),
        };
        assert(b.paths() =~= Seq::<Seq<char>>::empty());
        assert(b.postings() =~= postings_of(Seq::<Set<u32>>::empty()));
        b
    }

    /// The number of documents added so far.
    pub fn file_count(&self) -> (n: usize)
        ensures
            n == self.paths().len(),
    {
        self.doc_paths.len()
    }

    /// Adding document `n` to the lists of the trigrams in `s` gives the posting lists of
    /// the documents with `s` appended.
    proof fn lemma_postings_push(docs: Seq<Set<u32>>, s: Set<u32>)
        requires
            docs.len() < 0x1_0000_0000,
        ensures
            postings_with(postings_of(docs), docs.len() as u32, s) == postings_of(docs.push(s)),
    {
        let n = docs.len() as u32;
        let p = postings_of(docs);
        let q = postings_of(docs.push(s));
        let r = postings_with(p, n, s);
        assert forall|t: u32| #[trigger] r.contains_key(t) <==> q.contains_key(t) by {
            if s.contains(t) {
                assert(docs.push(s)[docs.len() as int].contains(t));
            }
            if p.contains_key(t) {
                let i = choose|i: int| 0 <= i < docs.len() && #[trigger] docs[i].contains(t);
                assert(docs.push(s)[i] == docs[i]);
            }
            if q.contains_key(t) {
                let i = choose|i: int| 0 <= i < docs.len() + 1 && #[trigger] docs.push(s)[i].contains(t);
                if i < docs.len() {
                    assert(docs.push(s)[i] == docs[i]);
                }
            }
        }
        assert forall|t: u32| r.contains_key(t) implies #[trigger] r[t] == q[t] by {
            assert forall|id: u32| r[t].contains(id) <==> q[t].contains(id) by {
                if id < docs.len() {
                    assert(docs.push(s)[id as int] == docs[id as int]);
                }
            }
            assert(r[t] =~= q[t]);
        }
        assert(r =~= q);
    }

    /// Add one document with its trigrams; its id is the number of documents before it.
    pub fn add_file(&mut self, file: TrigramFile)
        requires
            old(self).wf(),
            old(self).paths().len() < 0x1_0000_0000,
        ensures
            final(self).wf(),
            final(self).paths() == old(self).paths().push(file.path@),
            final(self).doc_trigrams() == old(self).doc_trigrams().push(file.trigrams@.to_set()),
            final(self).postings() == postings_of(final(self).doc_trigrams()),
    {
        let doc_id = self.doc_paths.len() as u32;
        let ghost p0 = self.postings();
        let ghost trigrams = file.trigrams@;
        let mut j: usize = 0;
        while j < file.trigrams.len()
            invariant
                j <= trigrams.len(),
                trigrams == file.trigrams@,
                posting_contents(self.posting_lists) == postings_with(p0, doc_id, trigrams.take(j as int).to_set()),
                posting_canonical(self.posting_lists),
                self.doc_paths@ == old(self).doc_paths@,
                self.doc_trigrams@ == old(self).doc_trigrams@,
                p0 == postings_of(old(self).doc_trigrams@),
                doc_id == old(self).doc_paths@.len(),
                old(self).doc_paths@.len() == old(self).doc_trigrams@.len(),
                old(self).doc_paths@.len() < 0x1_0000_0000,
            decreases trigrams.len() - j,
        {
            let t = file.trigrams[j];
            let ghost before = posting_contents(self.posting_lists);
            let mut bm = match postings_remove(&mut self.posting_lists, t) {
                Some(b) => b,
                None => bitmap_new(),
            };
            bitmap_insert(&mut bm, doc_id);
            postings_insert(&mut self.posting_lists, t, bm);
            proof {
                let s0 = trigrams.take(j as int).to_set();
                let s1 = trigrams.take(j + 1).to_set();
                assert(trigrams.take(j + 1) =~= trigrams.take(j as int).push(t));
                assert forall|x: u32| s1.contains(x) <==> s0.insert(t).contains(x) by {
                    assert(trigrams.take(j + 1).contains(x) <==> (trigrams.take(j as int).contains(x)
                        || x == t)) by {
                        if x == t {
                            assert(trigrams.take(j + 1)[j as int] == t);
                        }
                        if trigrams.take(j as int).contains(x) {
                            let i = choose|i: int| 0 <= i < j && trigrams.take(j as int)[i] == x;
                            assert(trigrams.take(j + 1)[i] == x);
                        }
                    }
                }
                assert(s1 =~= s0.insert(t));
                let lhs = posting_contents(self.posting_lists);
                let rhs = postings_with(p0, doc_id, s1);
                assert forall|k: u32| #[trigger] lhs.contains_key(k) <==> rhs.contains_key(k) by {
                    assert(before.contains_key(k) == postings_with(p0, doc_id, s0).contains_key(k));
                }
                assert forall|k: u32| lhs.contains_key(k) implies #[trigger] lhs[k] == rhs[k] by {
                    if k != t {
                        assert(before[k] == postings_with(p0, doc_id, s0)[k]);
                    } else if before.contains_key(t) {
                        assert(before[t] == postings_with(p0, doc_id, s0)[t]);
                        assert(lhs[t] =~= rhs[t]);
                    } else {
                        assert(!postings_with(p0, doc_id, s0).contains_key(t));
                        assert(lhs[t] =~= rhs[t]);
                    }
                }
                assert(lhs =~= rhs);
            }
            j = j + 1;
        }
        proof {
            assert(trigrams.take(trigrams.len() as int) =~= trigrams);
            Self::lemma_postings_push(self.doc_trigrams@, trigrams.to_set());
        }
        self.doc_paths.push(file.path);
        self.doc_trigrams = Ghost(self.doc_trigrams@.push(trigrams.to_set()));
        assert(self.paths() =~= old(self).paths().push(file.path@));
    }

    /// Add a batch of documents, in order.
    pub fn add_batch(&mut self, files: Vec<TrigramFile>)
        requires
            old(self).wf(),
            old(self).paths().len() + files.len() <= 0x1_0000_0000,
        ensures
            final(self).wf(),
            final(self).paths() == old(self).paths() + files@.map_values(|f: TrigramFile| f.path@),
            final(self).doc_trigrams() == old(self).doc_trigrams() + files@.map_values(
                |f: TrigramFile| f.trigrams@.to_set(),
            ),
            final(self).postings() == postings_of(final(self).doc_trigrams()),
    {
        let ghost incoming = files@;
        let ghost paths0 = self.paths();
        let ghost sets0 = self.doc_trigrams();
        for file in it: files
            invariant
                it.seq() == incoming,
                self.wf(),
                paths0.len() + incoming.len() <= 0x1_0000_0000,
                self.paths() == paths0 + incoming.take(it.index()).map_values(|f: TrigramFile| f.path@),
                self.doc_trigrams() == sets0 + incoming.take(it.index()).map_values(
                    |f: TrigramFile| f.trigrams@.to_set(),
                ),
        {
            let ghost k = it.index();
            self.add_file(file);
            proof {
                assert(incoming.take(k + 1) =~= incoming.take(k).push(file));
                assert(self.paths() =~= paths0 + incoming.take(k + 1).map_values(|f: TrigramFile| f.path@));
                assert(self.doc_trigrams() =~= sets0 + incoming.take(k + 1).map_values(
                    |f: TrigramFile| f.trigrams@.to_set(),
                ));
            }
        }
        assert(incoming.take(incoming.len() as int) =~= incoming);
    }
}

impl IndexBuilder {
    /// Lay out the index of the documents added: header, document table, path data,
    /// trigram table (sorted by trigram) and bitmap data, as `crate::index::format` describes.
    fn write_index(self) -> (r: Result<Vec<u8>, IndexError>)
        requires
            self.wf(),
        ensures
            match r {
                Ok(bytes) => exists|keys: Seq<u32>, bitmaps: Seq<Seq<u8>>|
                    {
                        &&& index_parts(self.postings(), keys, bitmaps)
                        &&& index_layout(bytes@, path_bytes(self.paths()), keys, bitmaps)
                    },
                Err(_) => exists|keys: Seq<u32>, bitmaps: Seq<Seq<u8>>|
                    {
                        &&& index_parts(self.postings(), keys, bitmaps)
                        &&& index_size(path_bytes(self.paths()), bitmaps) > u64::MAX
                    },
            },
    {
        let ghost paths = path_bytes(self.paths());
        let n = self.doc_paths.len();

        // ── PASS 1: Path data ───────────────────────────────────────────────
        let mut path_data: Vec<u8> = Vec::new();
        let mut path_offsets: Vec<(u64, u32)> = Vec::new();
        let mut i: usize = 0;
        while i < n
            invariant
                n == self.doc_paths@.len(),
                paths == path_bytes(self.paths()),
                i <= n,
                path_data@ == concat(paths.take(i as int)),
                path_offsets@.len() == i,
                forall|k: int|
                    0 <= k < i ==> {
                        &&& #[trigger] path_offsets@[k].0 == part_offset(paths, k)
                        &&& path_offsets@[k].1 == paths[k].len() % 0x1_0000_0000
                    },
            decreases n - i,
        {
            let bytes = self.doc_paths[i].as_str().as_bytes();
            assert(bytes@ == paths[i as int]);
            proof {
                lemma_concat_len(paths.take(i as int));
            }
            let offset = path_data.len() as u64;
            let len64 = bytes.len() as u64;
            let len = len64 as u32;
            assert(len64 as u32 == len64 % 0x1_0000_0000) by (bit_vector);
            append_bytes(&mut path_data, bytes);
            path_offsets.push((offset, len));
            proof {
                assert(paths.take(i + 1) =~= paths.take(i as int).push(paths[i as int]));
                lemma_concat_push(paths.take(i as int), paths[i as int]);
            }
            i = i + 1;
        }
        assert(paths.take(n as int) =~= paths);

        // ── PASS 2: Serialize bitmaps, in ascending trigram order ───────────
        let ghost postings = self.postings();
        let mut lists = self.posting_lists;
        let mut keys = postings_keys(&lists);
        let ghost unsorted = keys@;
        sort_ascending(&mut keys);
        proof {
            lemma_permutation_distinct(unsorted, keys@);
            lemma_sorted_distinct_ascending(keys@);
        }
        let m = keys.len();

        let mut bitmap_data: Vec<u8> = Vec::new();
        let mut trigram_entries: Vec<(u32, u64, u32)> = Vec::new();
        let ghost mut bitmaps: Seq<Seq<u8>> = Seq::empty();
        let mut j: usize = 0;
        while j < m
            invariant
                m == keys@.len(),
                strictly_ascending(keys@),
                keys@.to_set() == postings.dom(),
                j <= m,
                forall|k: int|
                    j <= k < m ==> {
                        &&& posting_contents(lists).contains_key(#[trigger] keys@[k])
                        &&& posting_contents(lists)[keys@[k]] == postings[keys@[k]]
                    },
                posting_canonical(lists),
                bitmaps.len() == j,
                bitmap_data@ == concat(bitmaps),
                trigram_entries@.len() == j,
                forall|k: int|
                    0 <= k < j ==> {
                        &&& #[trigger] trigram_entries@[k].0 == keys@[k]
                        &&& trigram_entries@[k].1 == part_offset(bitmaps, k)
                        &&& trigram_entries@[k].2 == bitmaps[k].len() % 0x1_0000_0000
                        &&& bitmaps[k] == roaring_encode(postings[keys@[k]])
                        &&& roaring_decode(bitmaps[k]) == Some(postings[keys@[k]])
                        &&& bitmaps[k].len() <= max_serialized_len()
                    },
            decreases m - j,
        {
            let t = keys[j];
            let ghost before = posting_contents(lists);
            assert(before.contains_key(keys@[j as int]));
            let bm = match postings_remove(&mut lists, t) {
                Some(bm) => bm,
                None => {
                    proof {
                        assert(false);
                    }
                    return Err(IndexError::TooLarge);
                },
            };
            proof {
                assert forall|k: int| j + 1 <= k < m implies {
                    &&& posting_contents(lists).contains_key(#[trigger] keys@[k])
                    &&& posting_contents(lists)[keys@[k]] == postings[keys@[k]]
                } by {
                    assert(keys@[j as int] < keys@[k]);
                    assert(before.contains_key(keys@[k]));
                }
            }
            let blob = bitmap_serialize(&bm);
            proof {
                lemma_concat_len(bitmaps);
                assert(postings[t] == bitmap_members(bm));
            }
            let offset = bitmap_data.len() as u64;
            let len64 = blob.len() as u64;
            let len = len64 as u32;
            assert(len64 as u32 == len64 % 0x1_0000_0000) by (bit_vector);
            append_bytes(&mut bitmap_data, blob.as_slice());
            trigram_entries.push((t, offset, len));
            proof {
                lemma_concat_push(bitmaps, blob@);
                assert(bitmaps.push(blob@).take(bitmaps.len() as int) =~= bitmaps);
                assert forall|k: int| 0 <= k < j implies part_offset(bitmaps.push(blob@), k)
                    == part_offset(bitmaps, k) by {
                    assert(bitmaps.push(blob@).take(k) =~= bitmaps.take(k));
                }
                assert(bitmaps.take(bitmaps.len() as int) =~= bitmaps);
                bitmaps = bitmaps.push(blob@);
            }
            j = j + 1;
        }

        // ── PASS 3: Compute offsets ─────────────────────────────────────────
        proof {
            lemma_concat_len(paths);
            lemma_concat_len(bitmaps);
        }
        let total: u128 = 32 + 12 * (n as u128) + path_data.len() as u128 + 16 * (m as u128)
            + bitmap_data.len() as u128;
        assert(total == index_size(paths, bitmaps));
        proof {
            assert forall|k: int| 0 <= k < keys@.len() implies bitmaps[k] == roaring_encode(
                postings[#[trigger] keys@[k]],
            ) && roaring_decode(bitmaps[k]) == Some(postings[keys@[k]]) by {
                assert(trigram_entries@[k].0 == keys@[k]);
            }
            assert forall|k: int| 0 <= k < bitmaps.len() implies #[trigger] bitmaps[k].len()
                <= max_serialized_len() by {
                assert(trigram_entries@[k].0 == keys@[k]);
            }
            assert(index_parts(postings, keys@, bitmaps));
        }
        if total > u64::MAX as u128 {
            return Err(IndexError::TooLarge);
        }
        let trigram_table_offset = (32 + 12 * (n as u128) + path_data.len() as u128) as u64;
        let bitmap_data_offset = (trigram_table_offset as u128 + 16 * (m as u128)) as u64;

        // ── WRITE ───────────────────────────────────────────────────────────
        let doc_count64 = n as u64;
        let doc_count = doc_count64 as u32;
        assert(doc_count64 as u32 == doc_count64 % 0x1_0000_0000) by (bit_vector);
        let trigram_count64 = m as u64;
        let trigram_count = trigram_count64 as u32;
        assert(trigram_count64 as u32 == trigram_count64 % 0x1_0000_0000) by (bit_vector);
        let header = encode_header(doc_count, trigram_count, trigram_table_offset);
        let doc_table = encode_doc_table(&path_offsets);
        proof {
            assert forall|k: int| 0 <= k < trigram_entries@.len() implies bitmap_data_offset
                + #[trigger] trigram_entries@[k].1 <= u64::MAX by {
                assert(trigram_entries@[k].0 == keys@[k]);
                lemma_part_offset(bitmaps, k);
            }
        }
        let trigram_table = encode_trigram_table(&trigram_entries, bitmap_data_offset);

        let mut out: Vec<u8> = Vec::new();
        append_bytes(&mut out, header.as_slice());
        append_bytes(&mut out, doc_table.as_slice());
        append_bytes(&mut out, path_data.as_slice());
        append_bytes(&mut out, trigram_table.as_slice());
        append_bytes(&mut out, bitmap_data.as_slice());
        proof {
            assert forall|k: int| 0 <= k < paths.len() implies #[trigger] doc_entry_at(
                doc_table@,
                0,
                paths,
                k,
            ) by {
                assert(path_offsets@[k].0 == part_offset(paths, k));
            }
            assert forall|k: int| 0 <= k < keys@.len() implies #[trigger] trigram_entry_at(
                trigram_table@,
                0,
                bitmap_data_start(paths, keys@.len() as int),
                keys@,
                bitmaps,
                k,
            ) by {
                assert(trigram_entries@[k].0 == keys@[k]);
            }
            lemma_sections_make_index(header@, doc_table@, path_data@, trigram_table@, bitmap_data@,
                paths, keys@, bitmaps);
            assert(out@ == header@ + doc_table@ + path_data@ + trigram_table@ + bitmap_data@);
            assert(index_layout(out@, paths, keys@, bitmaps));
        }
        Ok(out)
    }

    /// Write the index of the documents added, with the statistics of the build.
    pub fn finish(self) -> (r: Result<(Vec<u8>, BuildStats), IndexError>)
        requires
            self.wf(),
        ensures
            match r {
                Ok((bytes, stats)) => {
                    &&& exists|keys: Seq<u32>, bitmaps: Seq<Seq<u8>>|
                        {
                            &&& index_parts(self.postings(), keys, bitmaps)
                            &&& index_layout(bytes@, path_bytes(self.paths()), keys, bitmaps)
                        }
                    &&& stats.file_count == self.paths().len()
                    &&& stats.trigram_count == self.postings().dom().len()
                    &&& stats.index_size_bytes == bytes@.len()
                },
                Err(_) => exists|keys: Seq<u32>, bitmaps: Seq<Seq<u8>>|
                    {
                        &&& index_parts(self.postings(), keys, bitmaps)
                        &&& index_size(path_bytes(self.paths()), bitmaps) > u64::MAX
                    },
            },
    {
        let file_count = self.doc_paths.len() as u64;
        let trigram_count = postings_len(&self.posting_lists) as u64;
        let bytes = self.write_index()?;
        let index_size_bytes = bytes.len() as u64;
        Ok((bytes, BuildStats { file_count, trigram_count, index_size_bytes }))
    }
}

} // verus!
