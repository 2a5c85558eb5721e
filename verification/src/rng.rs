//! The random draws the library makes, through `rand`.

use vstd::prelude::*;
use rand::rngs::SmallRng;
use rand::Rng;
use rand::seq::SliceRandom;

verus! {

#[verifier::external_type_specification]
#[verifier::external_body]
pub struct ExSmallRng(SmallRng);

/// A fair coin: `rand::Rng::random::<bool>` on `rng`.
///
/// Nothing is stated of the outcome, which depends on the generator's state.
#[verifier::external_body]
pub(crate) fn coin(rng: &mut SmallRng) -> (b: bool) {
    rng.random::<bool>()
}

/// A fair coin: `rand::Rng::random_ratio(1, 2)` on `rng`, the Bernoulli
/// draw of probability one half (the same draw as `random_bool` at one
/// half: one `u64` compared with `2^63`).
///
/// Nothing is stated of the outcome, which depends on the generator's state.
#[verifier::external_body]
pub(crate) fn half_chance(rng: &mut SmallRng) -> (b: bool) {
    rng.random_ratio(1, 2)
}

/// A uniform draw from `0..n`: `rand::Rng::random_range(0..n)` on `rng`.
///
/// The contract states only that the draw lies in the range, which is what
/// `rand` documents; which value comes depends on the generator's state.
/// `rand` panics on an empty range, so `n` must be positive.
#[verifier::external_body]
pub(crate) fn below(rng: &mut SmallRng, n: usize) -> (r: usize)
    requires
        n > 0,
    ensures
        r < n,
{
    rng.random_range(0..n)
}

/// A uniform draw from `lo..=hi`: `rand::Rng::random_range(lo..=hi)` on
/// `rng`.
///
/// The contract states only that the draw lies in the range, which is what
/// `rand` documents; `rand` panics on an empty range, so `lo <= hi`.
#[verifier::external_body]
pub(crate) fn between(rng: &mut SmallRng, lo: i64, hi: i64) -> (r: i64)
    requires
        lo <= hi,
    ensures
        lo <= r <= hi,
{
    rng.random_range(lo..=hi)
}

/// A uniform draw from `lo..=hi`: `rand::Rng::random_range(lo..=hi)` on
/// `rng`, for `u64`.
///
/// The contract states only that the draw lies in the range; `rand` panics
/// on an empty range, so `lo <= hi`.
#[verifier::external_body]
pub(crate) fn between_u64(rng: &mut SmallRng, lo: u64, hi: u64) -> (r: u64)
    requires
        lo <= hi,
    ensures
        lo <= r <= hi,
{
    rng.random_range(lo..=hi)
}

/// Shuffles `v` in place: `rand::seq::SliceRandom::shuffle` on `v`.
///
/// The contract states only that the result is a rearrangement of `v`: the
/// same values with the same multiplicities, as `rand`'s Fisher-Yates swaps
/// keep them. The order depends on the generator's state.
#[verifier::external_body]
pub(crate) fn shuffle(v: &mut Vec<usize>, rng: &mut SmallRng)
    ensures
        final(v)@.to_multiset() == old(v)@.to_multiset(),
        final(v)@.len() == old(v)@.len(),
{
    v.as_mut_slice().shuffle(rng);
}

} // verus!
