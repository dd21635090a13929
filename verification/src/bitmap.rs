//! Document-id bitmaps. The bitmap itself and its wire format are those of
//! the `roaring` crate; this module states what the index relies on.

use vstd::prelude::*;

verus! {

/// `roaring::RoaringBitmap`, a compressed set of 32-bit integers; nothing of
/// its inside is known here.
#[verifier::external_type_specification]
#[verifier::external_body]
pub struct ExRoaringBitmap(roaring::RoaringBitmap);

/// The document ids held by a bitmap.
pub uninterp spec fn bitmap_members(bitmap: roaring::RoaringBitmap) -> Set<u32>;

/// The ids of the bitmap that `RoaringBitmap::deserialize_from` reads from the
/// start of `bytes`; `None` where it reports an error.
pub uninterp spec fn bitmap_decode(bytes: Seq<u8>) -> Option<Set<u32>>;

/// The bytes that `RoaringBitmap::serialize_into` writes for a bitmap; `None`
/// where it reports an error.
pub uninterp spec fn bitmap_image(bitmap: roaring::RoaringBitmap) -> Option<Seq<u8>>;

/// `RoaringBitmap::new`: a bitmap without ids.
#[verifier::external_body]
pub(crate) fn bitmap_new() -> (bitmap: roaring::RoaringBitmap)
    ensures
        bitmap_members(bitmap) == Set::<u32>::empty(),
{
    roaring::RoaringBitmap::new()
}

/// `RoaringBitmap::insert`: adds `id` to the bitmap and says whether it was
/// absent before.
#[verifier::external_body]
pub(crate) fn bitmap_insert(bitmap: &mut roaring::RoaringBitmap, id: u32) -> (fresh: bool)
    ensures
        bitmap_members(*final(bitmap)) == bitmap_members(*old(bitmap)).insert(id),
        fresh == !bitmap_members(*old(bitmap)).contains(id),
{
    bitmap.insert(id)
}

/// `RoaringBitmap::contains`: whether `id` is in the bitmap.
#[verifier::external_body]
pub(crate) fn bitmap_contains(bitmap: &roaring::RoaringBitmap, id: u32) -> (held: bool)
    ensures
        held == bitmap_members(*bitmap).contains(id),
{
    bitmap.contains(id)
}

/// `RoaringBitmap::serialize_into` on an empty buffer: the bitmap in the
/// Roaring wire format, which is what the bitmap's image names. Claimed
/// beyond the name: reading the bytes back with `deserialize_from` gives a
/// bitmap with the same ids. The image belongs to the bitmap and not to its
/// set, as the format lets one set be written in several ways.
#[verifier::external_body]
pub(crate) fn bitmap_to_bytes(bitmap: &roaring::RoaringBitmap) -> (bytes: Option<Vec<u8>>)
    ensures
        match bytes {
            Some(b) => bitmap_image(*bitmap) == Some(b@) && bitmap_decode(b@) == Some(
                bitmap_members(*bitmap),
            ),
            None => bitmap_image(*bitmap) is None,
        },
{
    let mut out: Vec<u8> = Vec::new();
    match bitmap.serialize_into(&mut out) {
        Ok(()) => Some(out),
        Err(_) => None,
    }
}

/// `RoaringBitmap::deserialize_from` on a byte slice: the bitmap written at
/// the start of `bytes`, or `None` where the bytes are not a bitmap.
#[verifier::external_body]
pub(crate) fn bitmap_from_bytes(bytes: &[u8]) -> (bitmap: Option<roaring::RoaringBitmap>)
    ensures
        match bitmap {
            Some(b) => bitmap_decode(bytes@) == Some(bitmap_members(b)),
            None => bitmap_decode(bytes@) is None,
        },
{
    roaring::RoaringBitmap::deserialize_from(bytes).ok()
}

/// `RoaringBitmap::iter`, collected: the ids of the bitmap in ascending order.
#[verifier::external_body]
pub(crate) fn bitmap_ids(bitmap: &roaring::RoaringBitmap) -> (ids: Vec<u32>)
    ensures
        forall|i: int, j: int| 0 <= i < j < ids@.len() ==> ids@[i] < ids@[j],
        forall|id: u32| ids@.contains(id) <==> bitmap_members(*bitmap).contains(id),
{
    bitmap.iter().collect()
}

} // verus!
