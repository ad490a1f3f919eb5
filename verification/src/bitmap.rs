//! Roaring bitmaps (the `roaring` crate) as sets of document ids.
//!
//! Each item here is trusted: its contract restates what the crate's source and
//! documentation show of the method it calls. A bitmap is seen through
//! `roaring_set`, the set of `u32` values it holds.
use vstd::prelude::*;
use roaring::RoaringBitmap;

verus! {

#[verifier::external_type_specification]
#[verifier::external_body]
pub struct ExRoaringBitmap(RoaringBitmap);

/// The set of values a bitmap holds.
pub uninterp spec fn roaring_set(b: RoaringBitmap) -> Set<u32>;

/// The set a buffer in the standard Roaring serialized format decodes to, or `None`
/// when `RoaringBitmap::deserialize_from` rejects the buffer.
pub uninterp spec fn roaring_decoded(bytes: Seq<u8>) -> Option<Set<u32>>;

/// `RoaringBitmap::new`: an empty bitmap.
#[verifier::external_body]
pub(crate) fn bitmap_new() -> (b: RoaringBitmap)
    ensures
        roaring_set(b) == Set::<u32>::empty(),
{
    RoaringBitmap::new()
}

/// `RoaringBitmap::insert`: adds `value`; returns whether it was absent before.
#[verifier::external_body]
pub(crate) fn bitmap_insert(b: &mut RoaringBitmap, value: u32) -> (added: bool)
    ensures
        roaring_set(*final(b)) == roaring_set(*old(b)).insert(value),
        added == !roaring_set(*old(b)).contains(value),
{
    b.insert(value)
}

/// `RoaringBitmap::is_empty`.
#[verifier::external_body]
pub(crate) fn bitmap_is_empty(b: &RoaringBitmap) -> (r: bool)
    ensures
        r == (roaring_set(*b) == Set::<u32>::empty()),
{
    b.is_empty()
}

/// `RoaringBitmap::len`: the number of distinct values held, at most the 2^32 values a
/// `u32` has.
#[verifier::external_body]
pub(crate) fn bitmap_len(b: &RoaringBitmap) -> (n: u64)
    ensures
        n == roaring_set(*b).len(),
        n <= 0x1_0000_0000,
{
    b.len()
}

/// `&a & &b`: the intersection of two bitmaps.
#[verifier::external_body]
pub(crate) fn bitmap_and(a: &RoaringBitmap, b: &RoaringBitmap) -> (r: RoaringBitmap)
    ensures
        roaring_set(r) == roaring_set(*a).intersect(roaring_set(*b)),
{
    a & b
}

/// `&a | &b`: the union of two bitmaps.
#[verifier::external_body]
pub(crate) fn bitmap_or(a: &RoaringBitmap, b: &RoaringBitmap) -> (r: RoaringBitmap)
    ensures
        roaring_set(r) == roaring_set(*a).union(roaring_set(*b)),
{
    a | b
}

/// `RoaringBitmap::iter`, collected: the values held, in increasing order.
#[verifier::external_body]
pub(crate) fn bitmap_values(b: &RoaringBitmap) -> (v: Vec<u32>)
    ensures
        forall|i: int, j: int| 0 <= i < j < v@.len() ==> v@[i] < v@[j],
        forall|x: u32| v@.contains(x) <==> roaring_set(*b).contains(x),
{
    b.iter().collect()
}

/// `RoaringBitmap::serialize_into` a fresh `Vec`: the standard serialized form, which
/// `deserialize_from` reads back as the same set (the crate's documented round trip).
/// Its length bound follows the format: a header of at most 8 bytes, an 8 KiB run
/// marker and 8 bytes per container, for at most 65536 containers; then each container's
/// store, which is 8 KiB as a bitmap, 2 bytes per value as an array, and 2 bytes plus 4
/// per run as runs, each run holding at least one value. So at most 0x2100_0000 bytes
/// plus 4 per value held.
#[verifier::external_body]
pub(crate) fn bitmap_serialize(b: &RoaringBitmap) -> (bytes: Vec<u8>)
    ensures
        roaring_decoded(bytes@) == Some(roaring_set(*b)),
        bytes@.len() <= 0x2100_0000 + 4 * roaring_set(*b).len(),
{
    let mut bytes: Vec<u8> = Vec::new();
    b.serialize_into(&mut bytes).unwrap();
    bytes
}

/// `RoaringBitmap::deserialize_from` a byte slice, with its error dropped.
#[verifier::external_body]
pub(crate) fn bitmap_deserialize(bytes: &[u8]) -> (r: Option<RoaringBitmap>)
    ensures
        match r {
            Some(b) => roaring_decoded(bytes@) == Some(roaring_set(b)),
            None => roaring_decoded(bytes@) is None,
        },
{
    RoaringBitmap::deserialize_from(bytes).ok()
}

} // verus!
