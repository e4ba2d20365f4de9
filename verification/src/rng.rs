//! Randomness for the mutation operators. All draws go through one trusted
//! wrapper around `rand`; everything shaped from those draws (coin flips,
//! index picks, the bell-shaped weight factor) is verified code.

use vstd::prelude::*;

verus! {

#[verifier::external_type_specification]
#[verifier::external_body]
pub struct ExStdRng(rand::rngs::StdRng);

/// Relies on rand's `RngExt::random_range`: the result of sampling
/// `lo..hi` lies in that half-open range. Nothing further is assumed of a
/// random draw.
#[verifier::external_body]
pub(crate) fn rng_in_range(rng: &mut rand::rngs::StdRng, lo: i64, hi: i64) -> (r: i64)
    requires
        lo < hi,
    ensures
        lo <= r < hi,
{
    rand::RngExt::random_range(rng, lo..hi)
}

/// Relies on rand's `RngExt::random_range` at `usize`: a uniformly drawn
/// index below `len`.
#[verifier::external_body]
pub(crate) fn rng_index(rng: &mut rand::rngs::StdRng, len: usize) -> (r: usize)
    requires
        0 < len,
    ensures
        r < len,
{
    rand::RngExt::random_range(rng, 0..len)
}

/// A fair coin.
pub(crate) fn rng_coin(rng: &mut rand::rngs::StdRng) -> bool {
    rng_in_range(rng, 0, 2) == 0
}

/// A draw with mean zero and unit standard deviation, in thousandths:
/// the sum of twelve uniform draws on `[0, 1]`, shifted by six. Its values
/// stay within six standard deviations of zero.
pub(crate) fn normal_milli(rng: &mut rand::rngs::StdRng) -> (v: i64)
    ensures
        -(6 * crate::numeric::SCALE) <= v <= 6 * crate::numeric::SCALE,
{
    let mut sum: i64 = 0;
    let mut i: usize = 0;
    while i < 12
        invariant
            i <= 12,
            0 <= sum <= i * 1000,
        decreases 12 - i,
    {
        let d = rng_in_range(rng, 0, 1001);
        sum = sum + d;
        i = i + 1;
    }
    sum - 6000
}

} // verus!
