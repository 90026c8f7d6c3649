//! The game's only source of randomness.

use vstd::prelude::*;

verus! {

/// Relies on rand::random_range: a value drawn from the thread-local
/// generator, uniformly in `0..n` (the function panics only on an empty
/// range, which `n > 0` rules out). Nothing beyond the range can be promised
/// of a random draw.
#[verifier::external_body]
pub(crate) fn random_below(n: u32) -> (r: u32)
    requires
        n > 0,
    ensures
        r < n,
{
    rand::random_range(0..n)
}

} // verus!
