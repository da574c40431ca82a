//! Random draws, from `rand`'s thread-local generator.
use rand::Rng;
use vstd::prelude::*;

verus! {

/// Relies on `rand::thread_rng()` and `Rng::gen_range(0, n)`: a value drawn from `[0, n)`.
/// `gen_range` panics when the range is empty.
#[verifier::external_body]
pub(crate) fn random_below(n: usize) -> (r: usize)
    requires
        n > 0,
    ensures
        r < n,
{
    rand::thread_rng().gen_range(0, n)
}

} // verus!
