//! The thread-local random source that sampling draws its jitter from.

use vstd::prelude::*;

verus! {

/// The thread-local generator of the `rand` crate, carried through sampling
/// calls as an opaque value.
#[verifier::external_type_specification]
#[verifier::external_body]
pub struct ExThreadRng(rand::ThreadRng);

/// Draws one integer with `rand::Rng::gen_range`.
///
/// Trusted: the drawn value lies in `[low, high)`, which is what the method
/// documents. The method panics unless `low < high`, hence the precondition.
/// Nothing is claimed about which value of the range comes out.
#[verifier::external_body]
pub(crate) fn draw_range(rng: &mut rand::ThreadRng, low: i32, high: i32) -> (r: i32)
    requires
        low < high,
    ensures
        low <= r < high,
{
    rand::Rng::gen_range(rng, low, high)
}

/// Obtains the calling thread's generator with `rand::thread_rng`.
///
/// Trusted: nothing is claimed about the generator that is returned. The
/// call ends the program when the system has no entropy to seed it with.
#[verifier::external_body]
pub(crate) fn local_rng() -> (rng: rand::ThreadRng) {
    rand::thread_rng()
}

} // verus!
