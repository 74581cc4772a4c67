//! Posting lists as compressed bitmaps, through the `roaring` crate.
//!
//! `bitmap_ids(b)` names the set of record ids held by a bitmap; every
//! operation below states how it changes or reads that set.  All bitmaps
//! the engine builds start from `bm_new`, so their id sets are finite.

use vstd::prelude::*;

verus! {

#[verifier::external_type_specification]
#[verifier::external_body]
pub struct ExRoaringBitmap(roaring::RoaringBitmap);

pub uninterp spec fn bitmap_ids(b: roaring::RoaringBitmap) -> Set<u32>;

/// Relies on `RoaringBitmap::new`: a fresh bitmap holds no ids.
#[verifier::external_body]
pub(crate) fn bm_new() -> (r: roaring::RoaringBitmap)
    ensures
        bitmap_ids(r) == Set::<u32>::empty(),
{
    roaring::RoaringBitmap::new()
}

/// Relies on `RoaringBitmap::insert`: adds the one id to the set.
#[verifier::external_body]
pub(crate) fn bm_insert(b: roaring::RoaringBitmap, id: u32) -> (r: roaring::RoaringBitmap)
    ensures
        bitmap_ids(r) == bitmap_ids(b).insert(id),
{
    let mut b = b;
    b.insert(id);
    b
}

/// Relies on `BitAnd for &RoaringBitmap`: set intersection.
#[verifier::external_body]
pub(crate) fn bm_and(a: &roaring::RoaringBitmap, b: &roaring::RoaringBitmap) -> (r:
    roaring::RoaringBitmap)
    ensures
        bitmap_ids(r) == bitmap_ids(*a).intersect(bitmap_ids(*b)),
{
    a & b
}

/// Relies on `BitOr for RoaringBitmap`: set union.
#[verifier::external_body]
pub(crate) fn bm_or(a: roaring::RoaringBitmap, b: &roaring::RoaringBitmap) -> (r:
    roaring::RoaringBitmap)
    ensures
        bitmap_ids(r) == bitmap_ids(a).union(bitmap_ids(*b)),
{
    a | b
}

/// Relies on `Clone for RoaringBitmap`: the copy holds the same ids.
#[verifier::external_body]
pub(crate) fn bm_clone(b: &roaring::RoaringBitmap) -> (r: roaring::RoaringBitmap)
    ensures
        bitmap_ids(r) == bitmap_ids(*b),
{
    b.clone()
}

/// Relies on `RoaringBitmap::is_empty`.
#[verifier::external_body]
pub(crate) fn bm_is_empty(b: &roaring::RoaringBitmap) -> (r: bool)
    ensures
        r == bitmap_ids(*b).is_empty(),
{
    b.is_empty()
}

/// Relies on `RoaringBitmap::len`: the number of distinct ids in the set.
#[verifier::external_body]
pub(crate) fn bm_len(b: &roaring::RoaringBitmap) -> (r: u64)
    requires
        bitmap_ids(*b).finite(),
    ensures
        r as nat == bitmap_ids(*b).len(),
{
    b.len()
}

/// Relies on `RoaringBitmap::iter`: yields exactly the ids of the set, in
/// ascending order.
#[verifier::external_body]
pub(crate) fn bm_to_vec(b: &roaring::RoaringBitmap) -> (r: Vec<u32>)
    ensures
        forall|i: int, j: int| 0 <= i < j < r@.len() ==> r@[i] < r@[j],
        forall|x: u32| r@.contains(x) == bitmap_ids(*b).contains(x),
{
    b.iter().collect()
}

} // verus!
