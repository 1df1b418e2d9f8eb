//! The query engine: a search string becomes the set of documents whose posting lists hold
//! every trigram of the string.
//!
//!   1. Extract trigrams from the query string
//!   2. Look up each trigram's bitmap (set of doc IDs)
//!   3. AND all bitmaps together → candidate doc IDs
//!   4. Resolve doc IDs → file paths

use roaring::RoaringBitmap;
use vstd::prelude::*;
use vstd::string::StringSliceAdditionalSpecFns;
use vstd::utf8::encode_utf8;

use crate::bitmap::{bitmap_and, bitmap_is_empty, bitmap_members, bitmap_values};
use crate::index::store::IndexStore;
use crate::trigram::{query_trigrams, strictly_ascending, trigram_set};

verus! {

/// The documents found in the posting set of every trigram of `ts`; `None` when the lookup
/// of some trigram of `ts` finds no posting set.
pub open spec fn candidate_set(store: IndexStore, ts: Set<u32>) -> Option<Set<u32>> {
    if forall|t: u32| ts.contains(t) ==> (#[trigger] store.posting_set(t)) is Some {
        Some(Set::new(|id: u32| forall|t: u32| ts.contains(t) ==> (#[trigger] store.posting_set(t)).unwrap().contains(id)))
    } else {
        None
    }
}

/// The elements of a finite set of ids, in ascending order.
pub open spec fn ascending_ids(s: Set<u32>) -> Seq<u32> {
    choose|q: Seq<u32>| strictly_ascending(q) && q.to_set() == s
}

/// The paths of the given documents, in order, leaving out those whose path cannot be read.
pub open spec fn resolve_paths(store: IndexStore, ids: Seq<u32>) -> Seq<Seq<char>>
    decreases ids.len(),
{
    if ids.len() == 0 {
        Seq::empty()
    } else {
        resolve_paths(store, ids.drop_last()) + match store.path_text(ids.last() as int) {
            Some(p) => seq![p],
            None => Seq::empty(),
        }
    }
}

/// The ids of all documents of the store, in order.
pub open spec fn all_doc_ids(store: IndexStore) -> Seq<u32> {
    Seq::new(store.doc_total() as nat, |i: int| i as u32)
}

/// What a search for the query bytes `q` returns: for a query shorter than a trigram, the
/// paths of all documents, in id order; otherwise nothing when some trigram of `q` has no
/// posting set, and else the paths of the documents in every posting set of `q`'s
/// trigrams, by ascending id.
pub open spec fn search_results(store: IndexStore, q: Seq<u8>) -> Seq<Seq<char>> {
    if q.len() < 3 {
        resolve_paths(store, all_doc_ids(store))
    } else {
        match candidate_set(store, trigram_set(q)) {
            None => Seq::empty(),
            Some(c) => resolve_paths(store, ascending_ids(c)),
        }
    }
}

/// Two strictly ascending sequences with the same elements are equal.
pub proof fn lemma_ascending_unique(a: Seq<u32>, b: Seq<u32>)
    requires
        strictly_ascending(a),
        strictly_ascending(b),
        a.to_set() == b.to_set(),
    ensures
        a == b,
    decreases a.len(),
{
    if a.len() == 0 {
        if b.len() > 0 {
            assert(b.to_set().contains(b[0]));
        }
        assert(a =~= b);
    } else {
        assert(b.len() > 0) by {
            assert(a.to_set().contains(a[0]));
        }
        // The first elements are both the least element.
        assert(b.to_set().contains(a[0]));
        assert(a.to_set().contains(b[0]));
        let ia = choose|i: int| 0 <= i < b.len() && b[i] == a[0];
        let ib = choose|i: int| 0 <= i < a.len() && a[i] == b[0];
        if ia > 0 {
            assert(b[0] < b[ia]);
            if ib > 0 {
                assert(a[0] < a[ib]);
            }
        }
        assert(a[0] == b[0]);
        let a1 = a.drop_first();
        let b1 = b.drop_first();
        assert forall|x: u32| a1.to_set().contains(x) <==> b1.to_set().contains(x) by {
            if a1.to_set().contains(x) {
                let i = choose|i: int| 0 <= i < a1.len() && a1[i] == x;
                assert(a[i + 1] == x);
                assert(a[0] < x);
                assert(b.to_set().contains(x));
                let j = choose|j: int| 0 <= j < b.len() && b[j] == x;
                assert(j != 0);
                assert(b1[j - 1] == x);
            }
            if b1.to_set().contains(x) {
                let i = choose|i: int| 0 <= i < b1.len() && b1[i] == x;
                assert(b[i + 1] == x);
                assert(b[0] < x);
                assert(a.to_set().contains(x));
                let j = choose|j: int| 0 <= j < a.len() && a[j] == x;
                assert(j != 0);
                assert(a1[j - 1] == x);
            }
        }
        assert(a1.to_set() =~= b1.to_set());
        lemma_ascending_unique(a1, b1);
        assert(a =~= seq![a[0]] + a1);
        assert(b =~= seq![b[0]] + b1);
    }
}

/// A strictly ascending sequence is the ascending order of its elements.
pub proof fn lemma_ascending_ids(q: Seq<u32>)
    requires
        strictly_ascending(q),
    ensures
        ascending_ids(q.to_set()) == q,
{
    let c = ascending_ids(q.to_set());
    assert(strictly_ascending(c) && c.to_set() == q.to_set());
    lemma_ascending_unique(c, q);
}

/// The paths of the documents with the given ids, collected in order.
fn collect_paths(store: &IndexStore, ids: &Vec<u32>) -> (paths: Vec<String>)
    ensures
        paths@.map_values(|p: String| p@) == resolve_paths(*store, ids@),
{
    let mut results: Vec<String> = Vec::new();
    let mut k: usize = 0;
    while k < ids.len()
        invariant
            k <= ids@.len(),
            results@.map_values(|p: String| p@) == resolve_paths(*store, ids@.take(k as int)),
        decreases ids@.len() - k,
    {
        let id = ids[k];
        assert(ids@.take(k + 1).drop_last() =~= ids@.take(k as int));
        let ghost before = results@;
        match store.doc_path(id) {
            Some(p) => {
                results.push(p.to_owned());
                assert(results@.map_values(|p: String| p@) =~= before.map_values(|p: String| p@)
                    + seq![p@]);
            },
            None => {},
        }
        assert(results@.map_values(|p: String| p@) =~= resolve_paths(*store, ids@.take(k + 1)));
        k = k + 1;
    }
    assert(ids@.take(ids@.len() as int) =~= ids@);
    results
}

/// The documents in the posting set of each trigram of `ts` (whose lookups all succeed).
pub open spec fn common_ids(store: IndexStore, ts: Seq<u32>) -> Set<u32> {
    Set::new(|id: u32| forall|i: int| 0 <= i < ts.len() ==> (#[trigger] store.posting_set(ts[i])).unwrap().contains(id))
}

/// The ascending order of no ids is empty.
proof fn lemma_no_ids()
    ensures
        ascending_ids(Set::<u32>::empty()) == Seq::<u32>::empty(),
{
    lemma_ascending_ids(Seq::<u32>::empty());
    assert(Seq::<u32>::empty().to_set() =~= Set::<u32>::empty());
}

/// The paths of all documents, in id order: the fallback for queries shorter than a
/// trigram.
fn search_short(store: &IndexStore, _query: &str) -> (paths: Vec<String>)
    ensures
        paths@.map_values(|p: String| p@) == resolve_paths(*store, all_doc_ids(*store)),
{
    let doc_count = store.doc_count();
    let mut ids: Vec<u32> = Vec::new();
    let mut id: u32 = 0;
    while id < doc_count
        invariant
            id <= doc_count,
            ids@ == Seq::new(id as nat, |i: int| i as u32),
        decreases doc_count - id,
    {
        ids.push(id);
        id = id + 1;
        assert(ids@ =~= Seq::new(id as nat, |i: int| i as u32));
    }
    collect_paths(store, &ids)
}

/// Search the index for files matching `query`.
///
/// Returns the paths of the files whose posting lists hold every trigram of the query: for
/// a query shorter than 3 bytes, which has no trigram, every file. False positives are possible (trigrams present but not as a substring); no file that
/// holds the query is missed.
pub fn search(store: &IndexStore, query: &str) -> (paths: Vec<String>)
    ensures
        paths@.map_values(|p: String| p@) == search_results(*store, encode_utf8(query@)),
{
    let ghost q = encode_utf8(query@);
    // A query shorter than a trigram cannot use the index: list every document.
    if query.as_bytes().len() < 3 {
        assert(query.spec_bytes() == q);
        return search_short(store, query);
    }
    assert(query.spec_bytes() == q);
    let trigrams = query_trigrams(query);
    let ghost ts = trigram_set(q);
    assert(ts.contains(crate::trigram::window_key(q, 0)));
    assert(trigrams@.to_set().contains(crate::trigram::window_key(q, 0)));
    assert(trigrams@.len() > 0);
    assert(ts != Set::<u32>::empty());

    // ── Phase 1: Bitmap intersection ────────────────────────────────────────
    let mut candidates: Option<RoaringBitmap> = None;
    let mut k: usize = 0;
    while k < trigrams.len()
        invariant
            trigrams@.to_set() == ts,
            q == encode_utf8(query@),
            ts == trigram_set(q),
            ts != Set::<u32>::empty(),
            k <= trigrams@.len(),
            forall|i: int| 0 <= i < k ==> (#[trigger] store.posting_set(trigrams@[i])) is Some,
            (k == 0) == (candidates is None),
            candidates matches Some(b) ==> bitmap_members(b) == common_ids(
                *store,
                trigrams@.take(k as int),
            ),
        decreases trigrams@.len() - k,
    {
        let trigram = trigrams[k];
        assert(ts.contains(trigram)) by {
            assert(trigrams@[k as int] == trigram);
        }
        match store.trigram_bitmap(trigram) {
            None => {
                // This trigram doesn't exist in the index at all.
                proof {
                    assert(candidate_set(*store, ts) is None);
                }
                let none: Vec<String> = Vec::new();
                assert(none@.map_values(|p: String| p@) =~= Seq::<Seq<char>>::empty());
                return none;
            },
            Some(bitmap) => {
                let ghost prev = candidates;
                candidates = Some(
                    match candidates {
                        None => bitmap,
                        Some(existing) => bitmap_and(existing, bitmap),
                    },
                );
                proof {
                    let c = candidates.unwrap();
                    assert(trigrams@.take(k + 1).drop_last() =~= trigrams@.take(k as int));
                    assert(bitmap_members(c) =~= common_ids(*store, trigrams@.take(k + 1))) by {
                        assert forall|id: u32| bitmap_members(c).contains(id) <==> common_ids(
                            *store,
                            trigrams@.take(k + 1),
                        ).contains(id) by {
                            let tk = trigrams@.take(k + 1);
                            assert(tk[k as int] == trigram);
                            if common_ids(*store, tk).contains(id) {
                                assert(store.posting_set(tk[k as int]).unwrap().contains(id));
                                if k > 0 {
                                    assert forall|i: int| 0 <= i < k implies (#[trigger] store.posting_set(
                                        trigrams@.take(k as int)[i],
                                    )).unwrap().contains(id) by {
                                        assert(trigrams@.take(k as int)[i] == tk[i]);
                                    }
                                }
                            }
                            if bitmap_members(c).contains(id) {
                                assert forall|i: int| 0 <= i < k + 1 implies (#[trigger] store.posting_set(
                                    tk[i],
                                )).unwrap().contains(id) by {
                                    if i < k {
                                        assert(trigrams@.take(k as int)[i] == tk[i]);
                                        assert(store.posting_set(trigrams@.take(k as int)[i]).unwrap().contains(id));
                                    }
                                }
                            }
                        }
                    }
                }
            },
        }

        // Early exit: if candidate set is already empty, no need to continue
        let exhausted = match &candidates {
            Some(b) => bitmap_is_empty(b),
            None => false,
        };
        if exhausted {
            proof {
                let prefix = trigrams@.take(k + 1);
                assert(common_ids(*store, prefix) =~= Set::<u32>::empty());
                if let Some(c) = candidate_set(*store, ts) {
                    assert(c =~= Set::<u32>::empty()) by {
                        assert forall|id: u32| !c.contains(id) by {
                            if c.contains(id) {
                                assert forall|i: int| 0 <= i < prefix.len() implies (#[trigger] store.posting_set(
                                    prefix[i],
                                )).unwrap().contains(id) by {
                                    assert(ts.contains(prefix[i])) by {
                                        assert(prefix[i] == trigrams@[i]);
                                    }
                                }
                                assert(common_ids(*store, prefix).contains(id));
                            }
                        }
                    }
                    lemma_no_ids();
                }
            }
            let none: Vec<String> = Vec::new();
            assert(none@.map_values(|p: String| p@) =~= Seq::<Seq<char>>::empty());
            return none;
        }
        k = k + 1;
    }

    // ── Phase 2: Resolve doc IDs → paths ────────────────────────────────────
    let candidate_ids = match candidates {
        None => return Vec::new(),
        Some(b) => b,
    };
    let ids = bitmap_values(&candidate_ids);
    proof {
        assert(trigrams@.take(trigrams@.len() as int) =~= trigrams@);
        assert forall|t: u32| ts.contains(t) implies (#[trigger] store.posting_set(t)) is Some by {
            assert(trigrams@.to_set().contains(t));
            let i = choose|i: int| 0 <= i < trigrams@.len() && trigrams@[i] == t;
        }
        let c = candidate_set(*store, ts).unwrap();
        assert(c =~= bitmap_members(candidate_ids)) by {
            assert forall|id: u32| c.contains(id) <==> common_ids(*store, trigrams@).contains(id) by {
                if c.contains(id) {
                    assert forall|i: int| 0 <= i < trigrams@.len() implies (#[trigger] store.posting_set(
                        trigrams@[i],
                    )).unwrap().contains(id) by {
                        assert(ts.contains(trigrams@[i]));
                    }
                }
                if common_ids(*store, trigrams@).contains(id) {
                    assert forall|t: u32| ts.contains(t) implies (#[trigger] store.posting_set(
                        t,
                    )).unwrap().contains(id) by {
                        assert(trigrams@.to_set().contains(t));
                        let i = choose|i: int| 0 <= i < trigrams@.len() && trigrams@[i] == t;
                        assert(store.posting_set(trigrams@[i]).unwrap().contains(id));
                    }
                }
            }
        }
        lemma_ascending_ids(ids@);
    }
    collect_paths(store, &ids)
}

/// Search with a query language of AND/OR/NOT terms; for now the whole string is one
/// query, searched as `search` does.
pub fn search_advanced(store: &IndexStore, query: &str) -> (paths: Vec<String>)
    ensures
        paths@.map_values(|p: String| p@) == search_results(*store, encode_utf8(query@)),
{
    search(store, query)
}

} // verus!
