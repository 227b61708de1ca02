use vstd::prelude::*;

verus! {

/// A uniformly drawn integer in `[lo, hi)`.
///
/// Relies on `rand::random_range` over an exclusive range of `i64`: it returns
/// a value inside the range, and panics only when the range is empty.
#[verifier::external_body]
pub(crate) fn random_in(lo: i64, hi: i64) -> (r: i64)
    requires
        lo < hi,
    ensures
        lo <= r < hi,
{
    rand::random_range(lo..hi)
}

} // verus!
