//! The active-cell set of a page, kept in a `roaring::RoaringBitmap`.
use roaring::RoaringBitmap;
use vstd::prelude::*;

verus! {

#[verifier::external_type_specification]
#[verifier::external_body]
pub struct ExRoaringBitmap(RoaringBitmap);

/// The set of values a bitmap holds.
pub uninterp spec fn bitmap_contents(b: RoaringBitmap) -> Set<u32>;

/// The usual order of `u32` values.
pub open spec fn ascending() -> spec_fn(u32, u32) -> bool {
    |a: u32, b: u32| a <= b
}

/// Relies on `RoaringBitmap::new`: an empty set.
#[verifier::external_body]
pub(crate) fn bitmap_new() -> (r: RoaringBitmap)
    ensures
        bitmap_contents(r) == Set::<u32>::empty(),
{
    RoaringBitmap::new()
}

/// Relies on `RoaringBitmap::insert`: adds one value to the set.
#[verifier::external_body]
pub(crate) fn bitmap_insert(b: &mut RoaringBitmap, v: u32)
    ensures
        bitmap_contents(*final(b)) == bitmap_contents(*old(b)).insert(v),
{
    b.insert(v);
}

/// Relies on `RoaringBitmap::clear`: removes every value.
#[verifier::external_body]
pub(crate) fn bitmap_clear(b: &mut RoaringBitmap)
    ensures
        bitmap_contents(*final(b)) == Set::<u32>::empty(),
{
    b.clear();
}

/// Relies on `RoaringBitmap::len`: the number of distinct values held.
#[verifier::external_body]
pub(crate) fn bitmap_len(b: &RoaringBitmap) -> (r: u64)
    ensures
        r as nat == bitmap_contents(*b).len(),
{
    b.len()
}

/// Relies on `RoaringBitmap::iter`: every value held, each once, in
/// increasing order.
#[verifier::external_body]
pub(crate) fn bitmap_values(b: &RoaringBitmap) -> (r: Vec<u32>)
    ensures
        r@ == bitmap_contents(*b).to_sorted_seq(ascending()),
        forall|i: int| 0 <= i < r@.len() ==> bitmap_contents(*b).contains(#[trigger] r@[i]),
{
    b.iter().collect()
}

} // verus!
