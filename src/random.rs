use vstd::prelude::*;

use rand::rngs::StdRng;
use rand::Rng;

verus! {

/// rand's standard seeded generator, carried through the generators opaquely.
#[verifier::external_type_specification]
#[verifier::external_body]
pub struct ExStdRng(StdRng);

/// Relies on rand's `Rng::gen_range` for `i32`: with `low < high` it returns a
/// value in `[low, high)` (it panics otherwise, which `requires` rules out).
#[verifier::external_body]
pub(crate) fn gen_range(rng: &mut StdRng, low: i32, high: i32) -> (r: i32)
    requires
        low < high,
    ensures
        low <= r < high,
{
    rng.gen_range(low, high)
}

} // verus!
