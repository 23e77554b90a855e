//! Randomness draws, each behind a single trusted wrapper.
use rand::Rng;
use vstd::prelude::*;

verus! {

/// Relies on rand::random::<u16>: a uniformly random machine word.
/// Nothing can be promised of the value, so the contract is empty.
#[verifier::external_body]
pub(crate) fn random_u16() -> u16 {
    rand::random::<u16>()
}

/// Relies on rand::Rng::random_range on the thread-local generator:
/// a uniformly random value in `low..high`. The call panics on an empty
/// range, so the contract demands `low < high`.
#[verifier::external_body]
pub(crate) fn random_u128_range(low: u128, high: u128) -> (r: u128)
    requires
        low < high,
    ensures
        low <= r < high,
{
    rand::rng().random_range(low..high)
}

} // verus!
