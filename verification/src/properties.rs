//! What the index promises as a whole: what is written is read back, and a search finds
//! every document that holds the query.

use vstd::prelude::*;

use crate::index::format::{
    bitmap_data_start, concat, doc_entry_at, index_layout, index_magic, lemma_concat_len,
    lemma_concat_part, lemma_part_offset, part_offset, path_data_start, total_len,
    trigram_entry_at, trigram_table_start, u32_at, u64_at,
};
use vstd::utf8::encode_utf8;

use crate::bitmap::{max_serialized_len, roaring_decode};
use crate::index::builder::{index_parts, path_bytes, postings_of};
use crate::query::{
    all_doc_ids, candidate_set, lemma_ascending_ids, resolve_paths, search_results,
};
use crate::index::store::{bitmap_region, doc_path_region, region, table_search, IndexStore};
use crate::trigram::{lemma_trigram_keys_small, strictly_ascending, trigram_set, window_key};

verus! {

/// A part of the laid-out sequence is found again by its offset and length.
proof fn lemma_part_in_section(s: Seq<u8>, base: int, parts: Seq<Seq<u8>>, i: int)
    requires
        0 <= base,
        base + total_len(parts) <= s.len(),
        s.subrange(base, base + total_len(parts)) == concat(parts),
        0 <= i < parts.len(),
    ensures
        region(s, base + part_offset(parts, i), parts[i].len() as int) == Some(parts[i]),
{
    lemma_part_offset(parts, i);
    lemma_concat_part(parts, i);
    lemma_concat_len(parts);
    let a = part_offset(parts, i);
    let b = a + parts[i].len();
    assert(s.subrange(base + a, base + b) =~= concat(parts).subrange(a, b));
}

/// On a table whose keys are strictly ascending and lie within the data, the binary search
/// finds the entry holding `t` if there is one between `lo` and `hi`, and nothing otherwise.
proof fn lemma_search_sorted(
    s: Seq<u8>,
    table: int,
    blob_base: int,
    keys: Seq<u32>,
    bitmaps: Seq<Seq<u8>>,
    lo: int,
    hi: int,
    t: u32,
)
    requires
        strictly_ascending(keys),
        0 <= table,
        table + 16 * keys.len() <= s.len(),
        forall|j: int|
            0 <= j < keys.len() ==> #[trigger] trigram_entry_at(s, table, blob_base, keys, bitmaps, j),
        0 <= lo <= hi <= keys.len(),
    ensures
        match table_search(s, table, lo, hi, t) {
            Some(j) => lo <= j < hi && keys[j] == t,
            None => forall|j: int| lo <= j < hi ==> keys[j] != t,
        },
    decreases hi - lo,
{
    if lo < hi {
        let mid = lo + (hi - lo) / 2;
        assert(trigram_entry_at(s, table, blob_base, keys, bitmaps, mid));
        if keys[mid] < t {
            lemma_search_sorted(s, table, blob_base, keys, bitmaps, mid + 1, hi, t);
            assert forall|j: int| lo <= j <= mid implies keys[j] != t by {
                if j < mid {
                    assert(keys[j] < keys[mid]);
                }
            }
        } else if keys[mid] > t {
            lemma_search_sorted(s, table, blob_base, keys, bitmaps, lo, mid, t);
            assert forall|j: int| mid <= j < hi implies keys[j] != t by {
                if j > mid {
                    assert(keys[mid] < keys[j]);
                }
            }
        }
    }
}

/// Reading back an index: for bytes laid out as the index of some paths and of sorted
/// trigrams with their serialized bitmaps, with every count and length within 32 bits,
/// the header holds the magic bytes and the two counts; the stored path of each document
/// is its path; the lookup of each trigram of the table finds its bitmap; and the lookup
/// of any other trigram finds nothing.
pub proof fn lemma_index_read_back(
    bytes: Seq<u8>,
    paths: Seq<Seq<u8>>,
    keys: Seq<u32>,
    bitmaps: Seq<Seq<u8>>,
)
    requires
        index_layout(bytes, paths, keys, bitmaps),
        strictly_ascending(keys),
        paths.len() <= u32::MAX,
        keys.len() <= u32::MAX,
        forall|i: int| 0 <= i < paths.len() ==> #[trigger] paths[i].len() <= u32::MAX,
        forall|j: int| 0 <= j < bitmaps.len() ==> #[trigger] bitmaps[j].len() <= u32::MAX,
    ensures
        bytes.len() >= 32,
        bytes.take(4) == index_magic(),
        u32_at(bytes, 8) == paths.len(),
        u32_at(bytes, 12) == keys.len(),
        forall|i: int|
            0 <= i < paths.len() ==> #[trigger] doc_path_region(
                bytes,
                paths.len() as int,
                u64_at(bytes, 16),
                i,
            ) == Some(paths[i]),
        forall|j: int|
            0 <= j < keys.len() ==> #[trigger] bitmap_region(
                bytes,
                u64_at(bytes, 24),
                keys.len() as int,
                keys[j],
            ) == Some(bitmaps[j]),
        forall|t: u32|
            !keys.contains(t) ==> #[trigger] bitmap_region(
                bytes,
                u64_at(bytes, 24),
                keys.len() as int,
                t,
            ) is None,
{
    let n = paths.len() as int;
    let m = keys.len() as int;
    lemma_layout_header(bytes, paths, keys, bitmaps);
    assert forall|i: int| 0 <= i < n implies #[trigger] doc_path_region(
        bytes,
        n,
        u64_at(bytes, 16),
        i,
    ) == Some(paths[i]) by {
        lemma_doc_path_read_back(bytes, paths, keys, bitmaps, i);
    }
    assert forall|j: int| 0 <= j < m implies #[trigger] bitmap_region(
        bytes,
        u64_at(bytes, 24),
        m,
        keys[j],
    ) == Some(bitmaps[j]) by {
        lemma_bitmap_read_back(bytes, paths, keys, bitmaps, j);
    }
    assert forall|t: u32| !keys.contains(t) implies #[trigger] bitmap_region(
        bytes,
        u64_at(bytes, 24),
        m,
        t,
    ) is None by {
        lemma_absent_trigram(bytes, paths, keys, bitmaps, t);
    }
}

/// The header of a laid-out index: size, magic bytes and counts.
proof fn lemma_layout_header(bytes: Seq<u8>, paths: Seq<Seq<u8>>, keys: Seq<u32>, bitmaps: Seq<Seq<u8>>)
    requires
        index_layout(bytes, paths, keys, bitmaps),
        paths.len() <= u32::MAX,
        keys.len() <= u32::MAX,
    ensures
        bytes.len() >= 32,
        bytes.take(4) == index_magic(),
        u32_at(bytes, 8) == paths.len(),
        u32_at(bytes, 12) == keys.len(),
{
    reveal(index_layout);
    lemma_concat_len(paths);
    lemma_concat_len(bitmaps);
}

/// The stored path of document `i` is its path.
proof fn lemma_doc_path_read_back(
    bytes: Seq<u8>,
    paths: Seq<Seq<u8>>,
    keys: Seq<u32>,
    bitmaps: Seq<Seq<u8>>,
    i: int,
)
    requires
        index_layout(bytes, paths, keys, bitmaps),
        paths[i].len() <= u32::MAX,
        0 <= i < paths.len(),
    ensures
        doc_path_region(bytes, paths.len() as int, u64_at(bytes, 16), i) == Some(paths[i]),
{
    reveal(index_layout);
    lemma_concat_len(paths);
    lemma_concat_len(bitmaps);
    assert(doc_entry_at(bytes, 32, paths, i));
    lemma_doc_entry_read_back(bytes, paths, i);
}

/// The stored path of document `i` is its path, given its table entry and the path data.
proof fn lemma_doc_entry_read_back(bytes: Seq<u8>, paths: Seq<Seq<u8>>, i: int)
    requires
        u64_at(bytes, 16) == 32,
        doc_entry_at(bytes, 32, paths, i),
        path_data_start(paths.len() as int) + total_len(paths) <= bytes.len(),
        bytes.subrange(
            path_data_start(paths.len() as int),
            path_data_start(paths.len() as int) + total_len(paths),
        ) == concat(paths),
        paths[i].len() <= u32::MAX,
        0 <= i < paths.len(),
    ensures
        doc_path_region(bytes, paths.len() as int, u64_at(bytes, 16), i) == Some(paths[i]),
{
    let n = paths.len() as int;
    lemma_part_offset(paths, i);
    lemma_concat_len(paths);
    lemma_part_in_section(bytes, path_data_start(n), paths, i);
    assert(32 + 12 * i + 12 <= path_data_start(n));
}

/// The lookup of trigram `keys[j]` finds its bitmap.
proof fn lemma_bitmap_read_back(
    bytes: Seq<u8>,
    paths: Seq<Seq<u8>>,
    keys: Seq<u32>,
    bitmaps: Seq<Seq<u8>>,
    j: int,
)
    requires
        index_layout(bytes, paths, keys, bitmaps),
        strictly_ascending(keys),
        keys.len() <= u32::MAX,
        forall|k: int| 0 <= k < bitmaps.len() ==> #[trigger] bitmaps[k].len() <= u32::MAX,
        0 <= j < keys.len(),
    ensures
        bitmap_region(bytes, u64_at(bytes, 24), keys.len() as int, keys[j]) == Some(bitmaps[j]),
{
    reveal(index_layout);
    let m = keys.len() as int;
    let table = trigram_table_start(paths);
    let blob_base = bitmap_data_start(paths, m);
    lemma_concat_len(paths);
    lemma_concat_len(bitmaps);
    lemma_search_sorted(bytes, table, blob_base, keys, bitmaps, 0, m, keys[j]);
    let found = table_search(bytes, table, 0, m, keys[j]).unwrap();
    if found != j {
        if found < j {
            assert(keys[found] < keys[j]);
        } else {
            assert(keys[j] < keys[found]);
        }
    }
    assert(trigram_entry_at(bytes, table, blob_base, keys, bitmaps, j));
    assert(bitmaps[j].len() <= u32::MAX);
    lemma_part_offset(bitmaps, j);
    lemma_part_in_section(bytes, blob_base, bitmaps, j);
}

/// The lookup of a trigram that is not in the table finds nothing.
proof fn lemma_absent_trigram(
    bytes: Seq<u8>,
    paths: Seq<Seq<u8>>,
    keys: Seq<u32>,
    bitmaps: Seq<Seq<u8>>,
    t: u32,
)
    requires
        index_layout(bytes, paths, keys, bitmaps),
        strictly_ascending(keys),
        keys.len() <= u32::MAX,
        !keys.contains(t),
    ensures
        bitmap_region(bytes, u64_at(bytes, 24), keys.len() as int, t) is None,
{
    reveal(index_layout);
    let m = keys.len() as int;
    let table = trigram_table_start(paths);
    let blob_base = bitmap_data_start(paths, m);
    lemma_concat_len(paths);
    lemma_concat_len(bitmaps);
    lemma_search_sorted(bytes, table, blob_base, keys, bitmaps, 0, m, t);
    if table_search(bytes, table, 0, m, t) is Some {
        let found = table_search(bytes, table, 0, m, t).unwrap();
        assert(keys[found] == t);
    }
}

/// A strictly ascending sequence holds at least `i` values below its `i`-th.
proof fn lemma_ascending_grows(keys: Seq<u32>, i: int)
    requires
        strictly_ascending(keys),
        0 <= i < keys.len(),
    ensures
        keys[i] >= i,
    decreases i,
{
    if i > 0 {
        lemma_ascending_grows(keys, i - 1);
        assert(keys[i - 1] < keys[i]);
    }
}

/// The trigram table of a built index has at most 2^24 entries: its keys are the distinct
/// trigrams of the documents, and every trigram key is below 2^24. So a built index meets
/// the 32-bit count premise of `lemma_index_read_back`.
pub proof fn lemma_trigram_count_bound(docs: Seq<Set<u32>>, keys: Seq<u32>, bitmaps: Seq<Seq<u8>>)
    requires
        index_parts(postings_of(docs), keys, bitmaps),
        forall|i: int, t: u32| 0 <= i < docs.len() && #[trigger] docs[i].contains(t) ==> t < 0x100_0000,
    ensures
        keys.len() <= 0x100_0000,
{
    if keys.len() > 0 {
        let last = keys.len() - 1;
        lemma_ascending_grows(keys, last);
        assert(keys.to_set().contains(keys[last]));
        assert(postings_of(docs).contains_key(keys[last]));
        let i = choose|i: int| 0 <= i < docs.len() && #[trigger] docs[i].contains(keys[last]);
        assert(keys[last] < 0x100_0000);
    }
}

/// The ids, below `k` and ascending, of the documents whose trigram sets hold all of `ts`.
pub open spec fn matching_ids(docs: Seq<Set<u32>>, ts: Set<u32>, k: int) -> Seq<u32>
    decreases k,
{
    if k <= 0 {
        Seq::empty()
    } else if ts.subset_of(docs[k - 1]) {
        matching_ids(docs, ts, k - 1).push((k - 1) as u32)
    } else {
        matching_ids(docs, ts, k - 1)
    }
}

/// The paths, in id order, of the documents below `k` whose trigram sets hold all of `ts`.
pub open spec fn matching_paths(paths: Seq<Seq<char>>, docs: Seq<Set<u32>>, ts: Set<u32>, k: int) -> Seq<
    Seq<char>,
>
    decreases k,
{
    if k <= 0 {
        Seq::empty()
    } else if ts.subset_of(docs[k - 1]) {
        matching_paths(paths, docs, ts, k - 1).push(paths[k - 1])
    } else {
        matching_paths(paths, docs, ts, k - 1)
    }
}

/// The matching ids below `k` are ascending, below `k`, and exactly the matching ids.
proof fn lemma_matching_ids(docs: Seq<Set<u32>>, ts: Set<u32>, k: int)
    requires
        0 <= k <= docs.len() <= 0x1_0000_0000,
    ensures
        strictly_ascending(matching_ids(docs, ts, k)),
        forall|i: int| 0 <= i < matching_ids(docs, ts, k).len() ==> #[trigger] matching_ids(docs, ts, k)[i] < k,
        forall|id: u32| #[trigger] matching_ids(docs, ts, k).to_set().contains(id) <==> (id < k && ts.subset_of(docs[id as int])),
    decreases k,
{
    if k > 0 {
        lemma_matching_ids(docs, ts, k - 1);
        let prev = matching_ids(docs, ts, k - 1);
        if ts.subset_of(docs[k - 1]) {
            let cur = prev.push((k - 1) as u32);
            assert forall|id: u32| #[trigger] cur.to_set().contains(id) <==> (id < k && ts.subset_of(docs[id as int])) by {
                if cur.to_set().contains(id) {
                    let i = choose|i: int| 0 <= i < cur.len() && cur[i] == id;
                    if i < prev.len() {
                        assert(prev.to_set().contains(id)) by { assert(prev[i] == id); }
                    }
                }
                if id < k && ts.subset_of(docs[id as int]) {
                    if id == k - 1 {
                        assert(cur[prev.len() as int] == id);
                    } else {
                        assert(prev.to_set().contains(id));
                        let i = choose|i: int| 0 <= i < prev.len() && prev[i] == id;
                        assert(cur[i] == id);
                    }
                }
            }
        }
    }
}

/// The paths of the matching ids are the matching paths, where every document's stored
/// path reads back as its path.
proof fn lemma_resolve_matching(store: IndexStore, paths: Seq<Seq<char>>, docs: Seq<Set<u32>>, ts: Set<u32>, k: int)
    requires
        0 <= k <= docs.len() <= 0x1_0000_0000,
        paths.len() == docs.len(),
        forall|i: int| 0 <= i < paths.len() ==> #[trigger] store.path_text(i) == Some(paths[i]),
    ensures
        resolve_paths(store, matching_ids(docs, ts, k)) == matching_paths(paths, docs, ts, k),
    decreases k,
{
    if k > 0 {
        lemma_resolve_matching(store, paths, docs, ts, k - 1);
        if ts.subset_of(docs[k - 1]) {
            let prev = matching_ids(docs, ts, k - 1);
            assert(prev.push((k - 1) as u32).drop_last() =~= prev);
            assert(store.path_text(k - 1) == Some(paths[k - 1]));
        }
    }
}

/// When some trigram of `ts` is in no document, no document matches.
proof fn lemma_no_match(paths: Seq<Seq<char>>, docs: Seq<Set<u32>>, ts: Set<u32>, t: u32, k: int)
    requires
        0 <= k <= docs.len(),
        ts.contains(t),
        forall|i: int| 0 <= i < docs.len() ==> !(#[trigger] docs[i]).contains(t),
    ensures
        matching_paths(paths, docs, ts, k) == Seq::<Seq<char>>::empty(),
    decreases k,
{
    if k > 0 {
        lemma_no_match(paths, docs, ts, t, k - 1);
        assert(!docs[k - 1].contains(t));
    }
}

/// Search over a built index: for an opened index of documents with the given paths and
/// trigram sets (ids in order, every trigram key below 2^24), whose trigram table lists the
/// posting lists of those documents, with the document count and path lengths within 32
/// bits, a search for any query of at least
/// three bytes returns exactly the paths of the documents that hold every trigram of the
/// query, in id order.
pub proof fn lemma_search_finds_matching_documents(
    store: IndexStore,
    bytes: Seq<u8>,
    paths: Seq<Seq<char>>,
    docs: Seq<Set<u32>>,
    keys: Seq<u32>,
    bitmaps: Seq<Seq<u8>>,
    q: Seq<u8>,
)
    requires
        store.opened_from(bytes),
        index_layout(bytes, path_bytes(paths), keys, bitmaps),
        index_parts(postings_of(docs), keys, bitmaps),
        forall|i: int, t: u32| 0 <= i < docs.len() && #[trigger] docs[i].contains(t) ==> t < 0x100_0000,
        paths.len() == docs.len(),
        paths.len() <= u32::MAX,
        forall|i: int| 0 <= i < paths.len() ==> (#[trigger] encode_utf8(paths[i])).len() <= u32::MAX,
        q.len() >= 3,
    ensures
        search_results(store, q) == matching_paths(paths, docs, trigram_set(q), paths.len() as int),
{
    broadcast use vstd::utf8::group_utf8_lib;
    let pb = path_bytes(paths);
    let n = paths.len() as int;
    let m = keys.len() as int;
    let ts = trigram_set(q);
    let postings = postings_of(docs);
    assert forall|i: int| 0 <= i < pb.len() implies #[trigger] pb[i].len() <= u32::MAX by {
        assert(pb[i] == encode_utf8(paths[i]));
    }
    assert forall|j: int| 0 <= j < bitmaps.len() implies #[trigger] bitmaps[j].len() <= u32::MAX by {
        assert(bitmaps[j].len() <= max_serialized_len());
    }
    lemma_trigram_count_bound(docs, keys, bitmaps);
    lemma_index_read_back(bytes, pb, keys, bitmaps);
    // Every stored path reads back.
    assert forall|i: int| 0 <= i < n implies #[trigger] store.path_text(i) == Some(paths[i]) by {
        assert(doc_path_region(bytes, n, u64_at(bytes, 16), i) == Some(pb[i]));
        assert(pb[i] == encode_utf8(paths[i]));
    }
    // The posting set of a trigram is its posting list, where it has one.
    assert forall|t: u32| #[trigger] store.posting_set(t) == (if postings.contains_key(t) {
        Some(postings[t])
    } else {
        None::<Set<u32>>
    }) by {
        if postings.contains_key(t) {
            assert(keys.to_set().contains(t));
            let j = choose|j: int| 0 <= j < m && keys[j] == t;
            assert(bitmap_region(bytes, u64_at(bytes, 24), m, keys[j]) == Some(bitmaps[j]));
            assert(roaring_decode(bitmaps[j]) == Some(postings[keys[j]]));
        } else {
            assert(!keys.contains(t)) by {
                if keys.contains(t) {
                    assert(keys.to_set().contains(t));
                }
            }
        }
    }
    // The query has a trigram.
    assert(ts.contains(window_key(q, 0)));
    lemma_matching_ids(docs, ts, n);
    if exists|t: u32| ts.contains(t) && !postings.contains_key(t) {
        let t = choose|t: u32| ts.contains(t) && !postings.contains_key(t);
        assert(store.posting_set(t) is None);
        assert(candidate_set(store, ts) is None);
        assert forall|i: int| 0 <= i < docs.len() implies !(#[trigger] docs[i]).contains(t) by {
            if docs[i].contains(t) {
                assert(postings.contains_key(t));
            }
        }
        lemma_no_match(paths, docs, ts, t, n);
        assert(ts != Set::<u32>::empty());
    } else {
        assert(ts != Set::<u32>::empty());
        let ids = matching_ids(docs, ts, n);
        let c = candidate_set(store, ts).unwrap();
        assert(candidate_set(store, ts) is Some);
        assert(c =~= ids.to_set()) by {
            let t0 = window_key(q, 0);
            assert forall|id: u32| c.contains(id) <==> ids.to_set().contains(id) by {
                if c.contains(id) {
                    assert(store.posting_set(t0).unwrap().contains(id));
                    assert(postings[t0].contains(id));
                    assert(id < n);
                    assert forall|t: u32| ts.contains(t) implies docs[id as int].contains(t) by {
                        assert(store.posting_set(t).unwrap().contains(id));
                        assert(postings[t].contains(id));
                    }
                    assert(ts.subset_of(docs[id as int]));
                }
                if ids.to_set().contains(id) {
                    assert forall|t: u32| ts.contains(t) implies (#[trigger] store.posting_set(t)).unwrap().contains(id) by {
                        assert(docs[id as int].contains(t));
                        assert(postings.contains_key(t));
                    }
                }
            }
        }
        lemma_ascending_ids(ids);
        lemma_resolve_matching(store, paths, docs, ts, n);
    }
}

/// The paths of the first `k` documents, where each reads back as its path.
proof fn lemma_resolve_all(store: IndexStore, paths: Seq<Seq<char>>, k: int)
    requires
        0 <= k <= paths.len() <= 0x1_0000_0000,
        forall|i: int| 0 <= i < paths.len() ==> #[trigger] store.path_text(i) == Some(paths[i]),
    ensures
        resolve_paths(store, Seq::new(k as nat, |i: int| i as u32)) == paths.take(k),
    decreases k,
{
    let ids = Seq::new(k as nat, |i: int| i as u32);
    if k == 0 {
        assert(paths.take(0) =~= Seq::<Seq<char>>::empty());
    } else {
        lemma_resolve_all(store, paths, k - 1);
        assert(ids.drop_last() =~= Seq::new((k - 1) as nat, |i: int| i as u32));
        assert(ids.last() == (k - 1) as u32);
        assert(store.path_text(k - 1) == Some(paths[k - 1]));
        assert(paths.take(k) =~= paths.take(k - 1) + seq![paths[k - 1]]);
    }
}

/// Short queries over a built index: for an opened index of documents with the given
/// paths, with counts and path lengths within 32 bits, a search for a query of fewer than
/// three bytes (which has no trigram) returns the path of every document, in id order.
pub proof fn lemma_short_query_lists_every_document(
    store: IndexStore,
    bytes: Seq<u8>,
    paths: Seq<Seq<char>>,
    keys: Seq<u32>,
    bitmaps: Seq<Seq<u8>>,
    q: Seq<u8>,
)
    requires
        store.opened_from(bytes),
        index_layout(bytes, path_bytes(paths), keys, bitmaps),
        paths.len() <= u32::MAX,
        keys.len() <= u32::MAX,
        forall|i: int| 0 <= i < paths.len() ==> (#[trigger] encode_utf8(paths[i])).len() <= u32::MAX,
        q.len() < 3,
    ensures
        search_results(store, q) == paths,
{
    broadcast use vstd::utf8::group_utf8_lib;
    let pb = path_bytes(paths);
    let n = paths.len() as int;
    lemma_layout_header(bytes, pb, keys, bitmaps);
    assert forall|i: int| 0 <= i < n implies #[trigger] store.path_text(i) == Some(paths[i]) by {
        assert(pb[i] == encode_utf8(paths[i]));
        lemma_doc_path_read_back(bytes, pb, keys, bitmaps, i);
    }
    lemma_resolve_all(store, paths, n);
    assert(all_doc_ids(store) =~= Seq::new(n as nat, |i: int| i as u32));
    assert(paths.take(n) =~= paths);
}

/// Whether `q` occurs in `s` as a contiguous run of bytes.
pub open spec fn contains_substring(s: Seq<u8>, q: Seq<u8>) -> bool {
    exists|j: int| 0 <= j && j + q.len() <= s.len() && #[trigger] s.subrange(j, j + q.len()) == q
}

/// Every trigram of a substring is a trigram of the string.
pub proof fn lemma_substring_trigrams(s: Seq<u8>, q: Seq<u8>)
    requires
        contains_substring(s, q),
    ensures
        trigram_set(q).subset_of(trigram_set(s)),
{
    let j = choose|j: int| 0 <= j && j + q.len() <= s.len() && #[trigger] s.subrange(j, j + q.len()) == q;
    assert forall|t: u32| trigram_set(q).contains(t) implies trigram_set(s).contains(t) by {
        let i = choose|i: int| 0 <= i && i + 3 <= q.len() && #[trigger] window_key(q, i) == t;
        assert(q[i] == s[j + i]);
        assert(q[i + 1] == s[j + i + 1]);
        assert(q[i + 2] == s[j + i + 2]);
        assert(window_key(s, j + i) == t);
    }
}

/// No false negatives: over an index built from documents whose trigram sets are those of
/// their contents, a search for a query of at least three bytes returns the path of every
/// document whose content holds the query.
pub proof fn lemma_search_misses_no_document(
    store: IndexStore,
    bytes: Seq<u8>,
    paths: Seq<Seq<char>>,
    contents: Seq<Seq<u8>>,
    keys: Seq<u32>,
    bitmaps: Seq<Seq<u8>>,
    q: Seq<u8>,
    i: int,
)
    requires
        store.opened_from(bytes),
        index_layout(bytes, path_bytes(paths), keys, bitmaps),
        index_parts(postings_of(contents.map_values(|c: Seq<u8>| trigram_set(c))), keys, bitmaps),
        paths.len() == contents.len(),
        paths.len() <= u32::MAX,
        forall|k: int| 0 <= k < paths.len() ==> (#[trigger] encode_utf8(paths[k])).len() <= u32::MAX,
        q.len() >= 3,
        0 <= i < contents.len(),
        contains_substring(contents[i], q),
    ensures
        search_results(store, q).contains(paths[i]),
{
    let docs = contents.map_values(|c: Seq<u8>| trigram_set(c));
    let ts = trigram_set(q);
    assert forall|k: int, t: u32| 0 <= k < docs.len() && #[trigger] docs[k].contains(t) implies t
        < 0x100_0000 by {
        lemma_trigram_keys_small(contents[k]);
    }
    lemma_search_finds_matching_documents(store, bytes, paths, docs, keys, bitmaps, q);
    lemma_substring_trigrams(contents[i], q);
    assert(ts.subset_of(docs[i]));
    lemma_matching_contains(paths, docs, ts, contents.len() as int, i);
}

/// A matching document's path is among the matching paths.
proof fn lemma_matching_contains(paths: Seq<Seq<char>>, docs: Seq<Set<u32>>, ts: Set<u32>, k: int, i: int)
    requires
        0 <= i < k <= docs.len(),
        ts.subset_of(docs[i]),
    ensures
        matching_paths(paths, docs, ts, k).contains(paths[i]),
    decreases k,
{
    if i < k - 1 {
        lemma_matching_contains(paths, docs, ts, k - 1, i);
        let prev = matching_paths(paths, docs, ts, k - 1);
        let j = choose|j: int| 0 <= j < prev.len() && prev[j] == paths[i];
        if ts.subset_of(docs[k - 1]) {
            assert(prev.push(paths[k - 1])[j] == paths[i]);
        }
    } else {
        let prev = matching_paths(paths, docs, ts, k - 1);
        assert(prev.push(paths[i])[prev.len() as int] == paths[i]);
    }
}

} // verus!
