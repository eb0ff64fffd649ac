use vstd::prelude::*;

verus! {

/// Relies on rand's `RngExt::random_range` over `0..n`: returns a value
/// below the bound.
#[verifier::external_body]
pub(crate) fn random_below(n: usize) -> (r: usize)
    requires
        0 < n,
    ensures
        r < n,
{
    rand::RngExt::random_range(&mut rand::rng(), 0..n)
}

/// Relies on rand's `RngExt::random`: a draw of 64 bits; nothing is
/// promised of the value.
#[verifier::external_body]
pub(crate) fn random_word() -> (r: u64) {
    rand::RngExt::random(&mut rand::rng())
}

} // verus!
