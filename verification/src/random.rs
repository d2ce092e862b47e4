//! The random source.
//!
//! Random numbers come from the `rand` crate. Nothing is proved of that
//! crate: what this library takes on trust of it is stated here, and is no
//! more than that a number drawn from a range lies in the range.

use rand::rngs::StdRng;
use rand::Rng;
use vstd::prelude::*;

verus! {

/// `rand::rngs::StdRng`, the generator that random numbers are drawn from.
/// It is made from a seed, and nothing is known of the numbers it hands out.
#[verifier::external_type_specification]
#[verifier::external_body]
pub struct ExStdRng(rand::rngs::StdRng);

/// Calls `Rng::gen_range` of the `rand` crate on the range from `low` to
/// `high`, both included. That the number lies in the range is taken on
/// trust; nothing else is claimed of it. The call panics on an empty range,
/// which the precondition rules out.
#[verifier::external_body]
pub(crate) fn random_between(rng: &mut StdRng, low: i32, high: i32) -> (value: i32)
    requires
        low <= high,
    ensures
        low <= value <= high,
{
    rng.gen_range(low..=high)
}

} // verus!
