use roaring::RoaringBitmap;
use vstd::prelude::*;

verus! {

#[verifier::external_type_specification]
#[verifier::external_body]
pub struct ExRoaringBitmap(RoaringBitmap);

/// The document ids that a bitmap holds.
pub uninterp spec fn bitmap_contents(b: RoaringBitmap) -> Set<u32>;

/// Relies on `RoaringBitmap::len`: the number of distinct integers in the set.
pub assume_specification[ RoaringBitmap::len ](b: &RoaringBitmap) -> (r: u64)
    ensures
        r as nat == bitmap_contents(*b).len(),
;

/// Whether a ranking rule has anything to decide on `universe`: a universe of
/// zero or one document is answered without asking any rule.
pub fn needs_ranking(universe: &RoaringBitmap) -> (r: bool)
    ensures
        r == (bitmap_contents(*universe).len() > 1),
{
    universe.len() > 1
}

} // verus!
