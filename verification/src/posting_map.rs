//! The posting lists while an index is built: a `dashmap::DashMap` from trigram to
//! `RoaringBitmap`, seen through the set of document ids that each bitmap holds.
//!
//! Everything here is trusted: each wrapper states what the dashmap crate's source and
//! documentation show of the method it calls. The wrappers take the map by `&mut` where
//! the method changes it (dashmap itself only needs `&`), so that Verus sees the change.

use dashmap::DashMap;
use roaring::RoaringBitmap;
use vstd::prelude::*;

use crate::bitmap::{bitmap_members, bitmap_canonical};

verus! {

/// dashmap's sharded concurrent hash map.
#[verifier::external_type_specification]
#[verifier::external_body]
#[verifier::reject_recursive_types(K)]
#[verifier::reject_recursive_types(V)]
#[verifier::reject_recursive_types(S)]
pub struct ExDashMap<K, V, S>(DashMap<K, V, S>);

/// What a map of posting lists holds: each trigram key with the set of values of its bitmap.
pub uninterp spec fn posting_contents(m: DashMap<u32, RoaringBitmap>) -> Map<u32, Set<u32>>;

/// Whether every bitmap held by the map is canonical (`bitmap_canonical`).
pub uninterp spec fn posting_canonical(m: DashMap<u32, RoaringBitmap>) -> bool;

/// `DashMap::with_capacity`: an empty map (the capacity only reserves room).
#[verifier::external_body]
pub(crate) fn postings_with_capacity(capacity: usize) -> (m: DashMap<u32, RoaringBitmap>)
    ensures
        posting_contents(m).dom() == Set::<u32>::empty(),
        posting_canonical(m),
{
    DashMap::with_capacity(capacity)
}

/// `DashMap::insert`: the key now maps to the given bitmap, whatever it mapped to before.
#[verifier::external_body]
pub(crate) fn postings_insert(m: &mut DashMap<u32, RoaringBitmap>, key: u32, b: RoaringBitmap)
    ensures
        posting_contents(*final(m)) == posting_contents(*old(m)).insert(key, bitmap_members(b)),
        posting_canonical(*old(m)) && bitmap_canonical(b) ==> posting_canonical(*final(m)),
{
    m.insert(key, b);
}

/// `DashMap::remove`: takes the key's entry out of the map and hands back its bitmap, or
/// `None` where the key was absent.
#[verifier::external_body]
pub(crate) fn postings_remove(m: &mut DashMap<u32, RoaringBitmap>, key: u32) -> (b: Option<
    RoaringBitmap,
>)
    ensures
        posting_contents(*final(m)) == posting_contents(*old(m)).remove(key),
        match b {
            Some(b) => {
                &&& posting_contents(*old(m)).contains_key(key)
                &&& bitmap_members(b) == posting_contents(*old(m))[key]
            },
            None => !posting_contents(*old(m)).contains_key(key),
        },
        posting_canonical(*old(m)) ==> posting_canonical(*final(m)),
        posting_canonical(*old(m)) ==> (b matches Some(b) ==> bitmap_canonical(b)),
{
    m.remove(&key).map(|(_, b)| b)
}

/// `DashMap::len`: the number of keys.
#[verifier::external_body]
pub(crate) fn postings_len(m: &DashMap<u32, RoaringBitmap>) -> (n: usize)
    ensures
        n == posting_contents(*m).dom().len(),
{
    m.len()
}

/// `DashMap::iter`, keeping each entry's key: every key once, in an order that depends on
/// the map's hasher, which is seeded anew in each process, so no order is stated.
#[verifier::external_body]
pub(crate) fn postings_keys(m: &DashMap<u32, RoaringBitmap>) -> (keys: Vec<u32>)
    ensures
        keys@.no_duplicates(),
        keys@.to_set() == posting_contents(*m).dom(),
{
    m.iter().map(|e| *e.key()).collect()
}

} // verus!
