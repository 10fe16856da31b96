//! Random draws, made by the `rand` crate with the thread's generator,
//! which the system's entropy source seeds.

use vstd::prelude::*;
use rand::Rng;

verus! {

/// `rand::Rng::gen_range` on the thread's generator, for the range `0..n`.
/// The range must not be empty. Of the result only its range is claimed:
/// it is below `n`.
#[verifier::external_body]
pub(crate) fn random_below(n: usize) -> (r: usize)
    requires
        n > 0,
    ensures
        r < n,
{
    rand::thread_rng().gen_range(0..n)
}

/// `rand::Rng::gen_ratio` on the thread's generator: true with a chance of
/// `numerator` in `denominator`. The denominator must not be zero, nor the
/// numerator above it. Claimed are the two certain cases only: the whole
/// ratio gives true, the ratio zero gives false.
#[verifier::external_body]
pub(crate) fn random_ratio(numerator: u32, denominator: u32) -> (b: bool)
    requires
        denominator > 0,
        numerator <= denominator,
    ensures
        numerator == denominator ==> b,
        numerator == 0 ==> !b,
{
    rand::thread_rng().gen_ratio(numerator, denominator)
}

} // verus!
