//! Random numbers, drawn by the `rand` crate from the thread's generator.
use vstd::prelude::*;

verus! {

/// `rand::thread_rng().gen::<u32>()`: any `u32`; nothing is promised of which.
#[verifier::external_body]
pub(crate) fn random_u32() -> u32 {
    <rand::rngs::ThreadRng as rand::Rng>::gen::<u32>(&mut rand::thread_rng())
}

/// `rand::random::<u8>()`: any byte; nothing is promised of which.
#[verifier::external_body]
pub(crate) fn random_u8() -> u8 {
    rand::random::<u8>()
}

/// `rand::Rng::gen_range(lo..hi)`: a number at least `lo` and below `hi` (the range must not
/// be empty, or the call panics).
#[verifier::external_body]
pub(crate) fn random_in(lo: u8, hi: u8) -> (r: u8)
    requires
        lo < hi,
    ensures
        lo <= r < hi,
{
    <rand::rngs::ThreadRng as rand::Rng>::gen_range(&mut rand::thread_rng(), lo..hi)
}

} // verus!
