//! Choice by chance.

use vstd::prelude::*;

verus! {

/// `rand::RngExt::random_range` on `0..n`, drawn from the generator of the
/// thread: some number below `n`, nothing more. On an empty range it panics, as it
/// does where the system gives no seed for the generator.
#[verifier::external_body]
pub(crate) fn random_index(n: usize) -> (i: usize)
    requires
        n > 0,
    ensures
        i < n,
{
    rand::RngExt::random_range(&mut rand::rng(), 0..n)
}

/// `rand::random`: any number of 16 bits.
#[verifier::external_body]
pub(crate) fn random_u16() -> u16 {
    rand::random::<u16>()
}

} // verus!
