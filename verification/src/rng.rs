//! The uniform random source used for sampling.
//!
//! Everything random in this crate — antialiasing jitter, diffuse and fuzzy
//! scattering, the dielectric reflect/refract choice, and defocus-disk
//! sampling — draws from this one wrapper.  Nothing beyond the range of the
//! draw is assumed about its distribution.

use vstd::prelude::*;

verus! {

/// Relies on `rand::random_range` over `0..n`: the draw always lies below
/// `n`.  The call panics only on an empty range, which the precondition
/// rules out.
#[verifier::external_body]
pub(crate) fn random_below(n: u64) -> (r: u64)
    requires
        n >= 1,
    ensures
        r < n,
{
    rand::random_range(0..n)
}

} // verus!
