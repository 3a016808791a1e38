use vstd::prelude::*;

use rand::rngs::ThreadRng;
use rand::Rng;

verus! {

/// The random number generator of a thread (`rand::rngs::ThreadRng`), carried through
/// verified code as an opaque value.
#[verifier::external_type_specification]
#[verifier::external_body]
pub struct ExThreadRng(rand::rngs::ThreadRng);

/// Calls `rand::thread_rng`, which hands out the generator of the current thread. Nothing is
/// stated of it.
#[verifier::external_body]
pub(crate) fn new_thread_rng() -> ThreadRng {
    rand::thread_rng()
}

/// Calls `Rng::gen_ratio`: `true` with a chance of `numerator` in `denominator`. Its
/// documentation promises `true` when the two are equal and `false` when `numerator` is
/// zero; any other outcome is left open. It panics on a zero `denominator` or a `numerator`
/// above it, which `requires` leaves out.
#[verifier::external_body]
pub(crate) fn random_ratio(rng: &mut ThreadRng, numerator: u32, denominator: u32) -> (hit: bool)
    requires
        0 < denominator,
        numerator <= denominator,
    ensures
        numerator == 0 ==> !hit,
        numerator == denominator ==> hit,
{
    rng.gen_ratio(numerator, denominator)
}

/// Calls `Rng::gen_range` on the inclusive range `low..=high`: a value within it. It panics
/// on an empty range, which `requires` leaves out.
#[verifier::external_body]
pub(crate) fn random_i64_inclusive(rng: &mut ThreadRng, low: i64, high: i64) -> (value: i64)
    requires
        low <= high,
    ensures
        low <= value <= high,
{
    rng.gen_range(low..=high)
}

/// Calls `Rng::gen_range` on the range `0..bound`: a value below `bound`. It panics on an
/// empty range, which `requires` leaves out.
#[verifier::external_body]
pub(crate) fn random_u32_below(rng: &mut ThreadRng, bound: u32) -> (value: u32)
    requires
        0 < bound,
    ensures
        value < bound,
{
    rng.gen_range(0..bound)
}

} // verus!
