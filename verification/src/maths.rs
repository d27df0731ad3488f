//! Randomness at the library's edge.
//!
//! The builder of the bounding-volume hierarchy draws its split axis at
//! random.  Nothing can be promised about which value comes back, so the
//! contract says only that the draw stays inside the requested range, and
//! every caller is verified for all values in it.

use rand::Rng;
use vstd::prelude::*;

verus! {

/// Relies on rand's `Rng::gen_range` over `a..=b` on the thread-local
/// generator: it panics only on an empty range and returns a value inside
/// the range.
#[verifier::external_body]
pub fn random_usize_between(a: usize, b: usize) -> (r: usize)
    requires
        a <= b,
    ensures
        a <= r <= b,
{
    let mut rng = rand::thread_rng();
    rng.gen_range(a..=b)
}

} // verus!
