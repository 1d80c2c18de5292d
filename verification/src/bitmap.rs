//! Trusted interface to `roaring::RoaringBitmap`, the compressed set of
//! 32-bit values that backs the exact-address part of a rule set.
//!
//! The bitmap is modelled by `bitmap_view`, the mathematical set of values
//! it holds; each wrapper states what the corresponding `roaring` method
//! does to that set.

use vstd::prelude::*;

verus! {

#[verifier::external_type_specification]
#[verifier::external_body]
pub struct ExRoaringBitmap(roaring::RoaringBitmap);

/// The set of 32-bit values a `RoaringBitmap` holds.
pub uninterp spec fn bitmap_view(b: roaring::RoaringBitmap) -> Set<u32>;

/// Relies on roaring::RoaringBitmap::new: a freshly created bitmap holds no values.
#[verifier::external_body]
pub(crate) fn bitmap_new() -> (r: roaring::RoaringBitmap)
    ensures
        bitmap_view(r) == Set::<u32>::empty(),
{
    roaring::RoaringBitmap::new()
}

/// Relies on roaring::RoaringBitmap::insert: adds the value to the set and
/// reports whether it was absent before the call.
#[verifier::external_body]
pub(crate) fn bitmap_insert(b: &mut roaring::RoaringBitmap, value: u32) -> (r: bool)
    ensures
        bitmap_view(*final(b)) == bitmap_view(*old(b)).insert(value),
        r == !bitmap_view(*old(b)).contains(value),
{
    b.insert(value)
}

/// Relies on roaring::RoaringBitmap::contains: membership test.
#[verifier::external_body]
pub(crate) fn bitmap_contains(b: &roaring::RoaringBitmap, value: u32) -> (r: bool)
    ensures
        r == bitmap_view(*b).contains(value),
{
    b.contains(value)
}

/// Relies on roaring::RoaringBitmap::is_empty: true iff the bitmap holds no values.
#[verifier::external_body]
pub(crate) fn bitmap_is_empty(b: &roaring::RoaringBitmap) -> (r: bool)
    ensures
        r == (bitmap_view(*b) == Set::<u32>::empty()),
{
    b.is_empty()
}

} // verus!
