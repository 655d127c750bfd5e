//! The random source of the planner.

use vstd::prelude::*;

verus! {

/// `rand`'s standard generator. Its state is opaque here.
#[verifier::external_type_specification]
#[verifier::external_body]
pub struct ExStdRng(rand::rngs::StdRng);

/// Calls `rand`'s `Rng::gen_range` on the half-open range `low..high` of
/// `i32`. That method panics on an empty range, which `requires` leaves out;
/// otherwise it returns a value of the range. Which one is not claimed.
#[verifier::external_body]
pub(crate) fn sample_in_range(rng: &mut rand::rngs::StdRng, low: i32, high: i32) -> (value: i32)
    requires
        low < high,
    ensures
        low <= value < high,
{
    rand::Rng::gen_range(rng, low..high)
}

} // verus!
