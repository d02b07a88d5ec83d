//! Trusted interface to the `roaring` crate.
//!
//! Membership masks are kept as `roaring::RoaringBitmap` values. Verus sees
//! the bitmap as an opaque set of `u32` bits named by [`bitmap_set`]; each
//! wrapper below states, over that name, what the corresponding `roaring`
//! operation does to the contents.
use vstd::prelude::*;

use roaring::RoaringBitmap;

verus! {

#[verifier::external_type_specification]
#[verifier::external_body]
pub struct ExRoaringBitmap(RoaringBitmap);

/// The set of bits a `RoaringBitmap` holds.
pub uninterp spec fn bitmap_set(m: RoaringBitmap) -> Set<u32>;

/// Relies on `RoaringBitmap::new`: creates an empty bitmap.
#[verifier::external_body]
pub(crate) fn bitmap_new() -> (r: RoaringBitmap)
    ensures
        bitmap_set(r) == Set::<u32>::empty(),
{
    RoaringBitmap::new()
}

/// Relies on `RoaringBitmap::insert`: adds one value to the set and reports
/// whether it was absent before.
#[verifier::external_body]
pub(crate) fn bitmap_insert(m: &mut RoaringBitmap, bit: u32) -> (r: bool)
    ensures
        bitmap_set(*final(m)) == bitmap_set(*old(m)).insert(bit),
        r == !bitmap_set(*old(m)).contains(bit),
{
    m.insert(bit)
}

/// Relies on `RoaringBitmap::remove`: takes one value out of the set and
/// reports whether it was present.
#[verifier::external_body]
pub(crate) fn bitmap_remove(m: &mut RoaringBitmap, bit: u32) -> (r: bool)
    ensures
        bitmap_set(*final(m)) == bitmap_set(*old(m)).remove(bit),
        r == bitmap_set(*old(m)).contains(bit),
{
    m.remove(bit)
}

/// Relies on `RoaringBitmap::clear`: empties the set.
#[verifier::external_body]
pub(crate) fn bitmap_clear(m: &mut RoaringBitmap)
    ensures
        bitmap_set(*final(m)) == Set::<u32>::empty(),
{
    m.clear()
}

/// Relies on `RoaringBitmap::is_empty`: true exactly when the set holds
/// nothing.
#[verifier::external_body]
pub(crate) fn bitmap_is_empty(m: &RoaringBitmap) -> (r: bool)
    ensures
        r == (bitmap_set(*m) == Set::<u32>::empty()),
{
    m.is_empty()
}

/// Relies on `RoaringBitmap::contains`: true exactly when the value is in the
/// set.
#[verifier::external_body]
pub(crate) fn bitmap_contains(m: &RoaringBitmap, bit: u32) -> (r: bool)
    ensures
        r == bitmap_set(*m).contains(bit),
{
    m.contains(bit)
}

/// Relies on `RoaringBitmap::is_subset`: true exactly when every value of
/// `a` is also in `b`.
#[verifier::external_body]
pub(crate) fn bitmap_is_subset(a: &RoaringBitmap, b: &RoaringBitmap) -> (r: bool)
    ensures
        r == bitmap_set(*a).subset_of(bitmap_set(*b)),
{
    a.is_subset(b)
}

} // verus!
