//! Trusted access to the process's source of randomness.

use vstd::prelude::*;

verus! {

/// Relies on rand::random_range over `0..len`: it returns a value of
/// the given non-empty range, and panics only on an empty one.
#[verifier::external_body]
pub(crate) fn random_index(len: usize) -> (r: usize)
    requires
        len >= 1,
    ensures
        r < len,
{
    rand::random_range(0..len)
}

/// Relies on rand::random_range over `1..=total`: it returns a value
/// of the given non-empty range, and panics only on an empty one.
#[verifier::external_body]
pub(crate) fn random_draw(total: u64) -> (r: u64)
    requires
        total >= 1,
    ensures
        1 <= r <= total,
{
    rand::random_range(1..=total)
}

} // verus!
