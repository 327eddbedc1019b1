//! The library's single source of randomness.

use rand::Rng;
use vstd::prelude::*;

verus! {

/// Relies on `rand::thread_rng` and `rand::Rng::gen_range`: a draw from the
/// inclusive range `low..=high`, which panics only when the range is empty.
/// Nothing beyond membership in the range is assumed of the outcome.
#[verifier::external_body]
pub fn random_in_range(low: u128, high: u128) -> (r: u128)
    requires
        low <= high,
    ensures
        low <= r <= high,
{
    rand::thread_rng().gen_range(low..=high)
}

} // verus!
