//! The random numbers that dice are rolled with.
use vstd::prelude::*;
use rand::rngs::StdRng;
use rand::RngExt;

verus! {

/// The generator of random numbers used to roll dice.
#[verifier::external_type_specification]
#[verifier::external_body]
pub struct ExStdRng(rand::rngs::StdRng);

/// A new generator, seeded from the system's entropy.
///
/// Trusted: calls `rand::make_rng::<StdRng>()`; nothing is stated of the
/// state it starts in.
#[verifier::external_body]
pub(crate) fn rng() -> StdRng {
    rand::make_rng()
}

/// A random number in `lo..=hi`, with a ghost copy of the range it was
/// drawn from.
///
/// Trusted: calls `RngExt::random_range` with the range `lo..=hi`, which
/// for `lo <= hi` returns a number of that range (and panics only on an empty
/// range, which `requires` rules out). Which number comes back is left open;
/// the ghost copy is the range handed to the call.
#[verifier::external_body]
pub(crate) fn random_in(rng: &mut StdRng, lo: u32, hi: u32) -> (r: (u32, Ghost<(u32, u32)>))
    requires
        lo <= hi,
    ensures
        lo <= r.0 <= hi,
        r.1@ == (lo, hi),
{
    (rng.random_range(lo..=hi), Ghost((lo, hi)))
}

} // verus!
