//! A uniform random index from the process-wide generator.

use vstd::prelude::*;

verus! {

/// Generate a random number between 0 to a specified limit.
/// e.g. get_rand_value(8) -> 2
///
/// Relies on rand::random_range over `0..lim`: it panics on an empty range
/// and otherwise returns a member of the range; nothing more is promised of
/// a random result.
#[verifier::external_body]
pub fn get_rand_value(lim: usize) -> (r: usize)
    requires
        lim >= 1,
    ensures
        r < lim,
{
    rand::random_range(0..lim)
}

} // verus!
