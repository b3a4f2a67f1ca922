//! The random draws the engine makes, all from the thread-local generator.
use vstd::prelude::*;
use rand::Rng;

verus! {

/// Relies on `rand::Rng::gen_range` over `rand::thread_rng()`: a value in
/// `[0, bound)`. It panics when the range is empty, which `requires` rules out.
#[verifier::external_body]
pub(crate) fn random_below(bound: usize) -> (r: usize)
    requires
        bound > 0,
    ensures
        r < bound,
{
    rand::thread_rng().gen_range(0, bound)
}

/// Relies on `rand::random::<u8>`: any byte may come back.
#[verifier::external_body]
pub(crate) fn random_byte() -> (r: u8) {
    rand::random::<u8>()
}

} // verus!
