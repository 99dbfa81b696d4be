//! The random draws that the simulation makes, each a thin call into `rand`.
//!
//! Nothing is known of a drawn value beyond the range it is drawn from: the
//! functions here state exactly that, and the verified code around them holds
//! for every value in that range.
use rand::rngs::ThreadRng;
use rand::Rng;
use vstd::prelude::*;

verus! {

/// `rand`'s handle to the thread-local generator; opaque to the proofs.
#[verifier::external_type_specification]
#[verifier::external_body]
pub struct ExThreadRng(ThreadRng);

/// Calls `Rng::random_range` on the half-open range `low..high` of `usize`.
/// Claimed: the value lies in the range (the call panics on an empty range,
/// which `requires` rules out).
#[verifier::external_body]
pub(crate) fn random_usize(rng: &mut ThreadRng, low: usize, high: usize) -> (r: usize)
    requires
        low < high,
    ensures
        low <= r < high,
{
    rng.random_range(low..high)
}

/// Calls `Rng::random_range` on the closed range `0..=high` of `usize`.
/// Claimed: the value is at most `high`.
#[verifier::external_body]
pub(crate) fn random_usize_up_to(rng: &mut ThreadRng, high: usize) -> (r: usize)
    ensures
        r <= high,
{
    rng.random_range(0..=high)
}

/// Calls `Rng::random_range` on the half-open range `0..high` of `u64`.
/// Claimed: the value lies in the range (the call panics on an empty range,
/// which `requires` rules out).
#[verifier::external_body]
pub(crate) fn random_u64_below(rng: &mut ThreadRng, high: u64) -> (r: u64)
    requires
        0 < high,
    ensures
        r < high,
{
    rng.random_range(0..high)
}

/// Calls `Rng::random_ratio`: `true` with probability `numerator / denominator`.
/// Claimed, as `rand` documents it: the value is `true` when the two are
/// equal and `false` when the numerator is 0 (the call panics for a zero
/// denominator or a numerator above it, which `requires` rules out).
#[verifier::external_body]
pub(crate) fn random_ratio(rng: &mut ThreadRng, numerator: u32, denominator: u32) -> (r: bool)
    requires
        0 < denominator,
        numerator <= denominator,
    ensures
        numerator == denominator ==> r,
        numerator == 0 ==> !r,
{
    rng.random_ratio(numerator, denominator)
}

/// Calls `ThreadRng::clone`: a second handle to the same thread-local generator.
#[verifier::external_body]
pub(crate) fn share_rng(rng: &ThreadRng) -> ThreadRng {
    rng.clone()
}

} // verus!
