//! The one source of randomness the sampling code draws from.

use vstd::prelude::*;

verus! {

/// Relies on rand's `Rng::gen_range` over `0..n`: it returns a value of the
/// range, drawn uniformly, and panics only when the range is empty.
#[verifier::external_body]
pub fn random_below(n: u128) -> (r: u128)
    requires
        n > 0,
    ensures
        r < n,
{
    rand::Rng::gen_range(&mut rand::thread_rng(), 0..n)
}

} // verus!
