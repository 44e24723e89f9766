use vstd::prelude::*;

use rand::rngs::StdRng;
use rand::seq::SliceRandom;
use rand::Rng;

use crate::direction::Direction;

verus! {

#[verifier::external_type_specification]
#[verifier::external_body]
pub struct ExStdRng(rand::rngs::StdRng);

/// Relies on rand's `Rng::gen_ratio`: a Bernoulli draw that is always true
/// when `numerator == denominator` and always false when `numerator == 0`;
/// it panics when `denominator == 0` or `numerator > denominator`.
#[verifier::external_body]
pub(crate) fn chance(rng: &mut StdRng, numerator: u32, denominator: u32) -> (r: bool)
    requires
        0 < denominator,
        numerator <= denominator,
    ensures
        numerator == denominator ==> r,
        numerator == 0 ==> !r,
{
    rng.gen_ratio(numerator, denominator)
}

/// Relies on rand's `Rng::gen_range` over a half-open `i64` range: the value
/// lies in `lo..hi`; it panics on an empty range.
#[verifier::external_body]
pub(crate) fn range_i64(rng: &mut StdRng, lo: i64, hi: i64) -> (r: i64)
    requires
        lo < hi,
    ensures
        lo <= r < hi,
{
    rng.gen_range(lo..hi)
}

/// Relies on rand's `SliceRandom::shuffle`: the elements are permuted in
/// place, so the same elements remain.
#[verifier::external_body]
pub(crate) fn shuffle_directions(rng: &mut StdRng, v: &mut Vec<Direction>)
    ensures
        final(v)@.to_multiset() == old(v)@.to_multiset(),
{
    v.shuffle(rng)
}

} // verus!
