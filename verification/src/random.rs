use vstd::prelude::*;

verus! {

/// Draws a number uniformly from `lo..hi` with `rand::random_range`.
/// Trusted: the result lies in the half-open range; which number comes out
/// depends on the thread-local generator and is not stated.
/// `rand::random_range` panics on an empty range, hence `lo < hi`.
#[verifier::external_body]
pub(crate) fn random_in_range(lo: usize, hi: usize) -> (r: usize)
    requires
        lo < hi,
    ensures
        lo <= r < hi,
{
    rand::random_range(lo..hi)
}

/// Draws `true` with probability `numerator / denominator` with
/// `rand::random_ratio`. Trusted: a zero numerator always gives `false` and a
/// numerator equal to the denominator always gives `true`, as the crate
/// documents; otherwise the outcome depends on the generator and is not stated.
/// `rand::random_ratio` panics when the denominator is zero or smaller than the
/// numerator, hence the `requires`.
#[verifier::external_body]
pub(crate) fn random_chance(numerator: u32, denominator: u32) -> (r: bool)
    requires
        0 < denominator,
        numerator <= denominator,
    ensures
        numerator == 0 ==> !r,
        numerator == denominator ==> r,
{
    rand::random_ratio(numerator, denominator)
}

} // verus!
