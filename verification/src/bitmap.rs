//! The posting-list sets: `roaring::RoaringBitmap`, seen through the set of values it holds.
//!
//! Everything here is trusted: each wrapper states what the roaring crate's documentation
//! and source show of the method it calls.

use roaring::RoaringBitmap;
use vstd::prelude::*;

use crate::trigram::strictly_ascending;

verus! {

/// The roaring crate's compressed set of `u32` values.
#[verifier::external_type_specification]
#[verifier::external_body]
pub struct ExRoaringBitmap(RoaringBitmap);

/// The set of values that a bitmap holds.
pub uninterp spec fn bitmap_members(b: RoaringBitmap) -> Set<u32>;

/// Whether the bitmap is in roaring's canonical form: every container is non-empty, and is
/// an array container when it holds at most 4096 values (`ARRAY_LIMIT`) and a bitset
/// container when it holds more; none is a run container. Bitmaps made by `new` and grown
/// by `insert` are so: `new` has no container, `insert` adds a container only to put a
/// value in it (`Container::new` starts an array store), and after each insert
/// `Container::ensure_correct_store` turns an array of more than 4096 values into a bitset
/// (a bitset only grows under `insert`).
pub uninterp spec fn bitmap_canonical(b: RoaringBitmap) -> bool;

/// The most bytes that `serialize_into` writes for a canonical bitmap: an 8-byte header,
/// 8 bytes of description and offset per container, and at most 8 KiB per container (an array container holds at most 4096 two-byte values, a bitset is 8 KiB),
/// for at most 65536 containers (one per high 16 bits).
pub open spec fn max_serialized_len() -> int {
    8int + 8 * 65536 + 8192 * 65536
}

/// What `RoaringBitmap::serialize_into` writes for the canonical bitmap holding a set of
/// values. For a canonical bitmap the containers, their kinds and their contents are fixed
/// by the set, so the bytes are too (the format without run containers: cookie, count,
/// descriptions, offsets, then sorted arrays and bitsets).
pub uninterp spec fn roaring_encode(members: Set<u32>) -> Seq<u8>;

/// What `RoaringBitmap::deserialize_from` makes of a byte string: the set of values of the
/// bitmap it returns, or `None` where it returns an error.
pub uninterp spec fn roaring_decode(bytes: Seq<u8>) -> Option<Set<u32>>;

/// `RoaringBitmap::new`: an empty bitmap.
#[verifier::external_body]
pub(crate) fn bitmap_new() -> (b: RoaringBitmap)
    ensures
        bitmap_members(b) == Set::<u32>::empty(),
        bitmap_canonical(b),
{
    RoaringBitmap::new()
}

/// `RoaringBitmap::insert`: adds one value to the set, keeping a canonical bitmap
/// canonical.
#[verifier::external_body]
pub(crate) fn bitmap_insert(b: &mut RoaringBitmap, value: u32)
    ensures
        bitmap_members(*final(b)) == bitmap_members(*old(b)).insert(value),
        bitmap_canonical(*old(b)) ==> bitmap_canonical(*final(b)),
{
    b.insert(value);
}

/// `RoaringBitmap::is_empty`: whether the set holds no value.
#[verifier::external_body]
pub(crate) fn bitmap_is_empty(b: &RoaringBitmap) -> (empty: bool)
    ensures
        empty == (bitmap_members(*b) == Set::<u32>::empty()),
{
    b.is_empty()
}

/// `RoaringBitmap & RoaringBitmap` (`BitAnd`): the intersection of the two sets.
#[verifier::external_body]
pub(crate) fn bitmap_and(a: RoaringBitmap, b: RoaringBitmap) -> (r: RoaringBitmap)
    ensures
        bitmap_members(r) == bitmap_members(a).intersect(bitmap_members(b)),
{
    a & b
}

/// `RoaringBitmap::iter`, collected: every value of the set once, in ascending order,
/// as the method's documentation guarantees.
#[verifier::external_body]
pub(crate) fn bitmap_values(b: &RoaringBitmap) -> (values: Vec<u32>)
    ensures
        strictly_ascending(values@),
        values@.to_set() == bitmap_members(*b),
{
    b.iter().collect()
}

/// `RoaringBitmap::serialize_into` a fresh vector (writing to a `Vec` cannot fail):
/// the documented round trip, `deserialize_from` of these bytes gives back a bitmap
/// with the same values. For a canonical bitmap the bytes are those of its set of values,
/// at most `max_serialized_len()` long (see `serialized_size` and `header_size`).
#[verifier::external_body]
pub(crate) fn bitmap_serialize(b: &RoaringBitmap) -> (bytes: Vec<u8>)
    ensures
        roaring_decode(bytes@) == Some(bitmap_members(*b)),
        bitmap_canonical(*b) ==> bytes@ == roaring_encode(bitmap_members(*b)),
        bitmap_canonical(*b) ==> bytes@.len() <= max_serialized_len(),
{
    let mut bytes: Vec<u8> = Vec::new();
    let _ = b.serialize_into(&mut bytes);
    bytes
}

/// `RoaringBitmap::deserialize_from` over a byte slice, with the error dropped.
#[verifier::external_body]
pub(crate) fn bitmap_deserialize(bytes: &[u8]) -> (b: Option<RoaringBitmap>)
    ensures
        match b {
            Some(b) => roaring_decode(bytes@) == Some(bitmap_members(b)),
            None => roaring_decode(bytes@) is None,
        },
{
    RoaringBitmap::deserialize_from(bytes).ok()
}

} // verus!
