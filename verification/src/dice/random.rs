//! The random source behind every roll.

use rand::rngs::StdRng;
use rand::Rng;
use vstd::prelude::*;

verus! {

/// `rand`'s standard generator, carried through the rolling code as an opaque value.
#[verifier::external_type_specification]
#[verifier::external_body]
pub struct ExStdRng(StdRng);

/// Draws one value uniformly from `low..=high` by calling `rand::Rng::gen_range`
/// on the inclusive range. Trusted: the value lies in `low..=high`, which is
/// what `gen_range` documents for an inclusive range; `low <= high` is
/// required because `gen_range` panics on an empty range. Which value comes
/// back depends on the generator's state and is not stated.
#[verifier::external_body]
pub(crate) fn uniform_inclusive(rng: &mut StdRng, low: u32, high: u32) -> (value: u32)
    requires
        low <= high,
    ensures
        low <= value <= high,
{
    rng.gen_range(low..=high)
}

} // verus!
