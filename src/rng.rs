//! The random source of the renderer.
use vstd::prelude::*;
use rand::Rng;

verus! {

/// A uniformly drawn integer in `[0, n)`.
///
/// Relies on `rand::Rng::gen_range` on `rand::thread_rng()`, which returns a value
/// in the half-open range it is given and panics only on an empty range (and
/// `thread_rng` only if the operating system's random source cannot seed it).
#[verifier::external_body]
pub(crate) fn random_below(n: u64) -> (r: u64)
    requires
        n > 0,
    ensures
        r < n,
{
    rand::thread_rng().gen_range(0..n)
}

} // verus!
