//! What a connection takes from its surroundings: random values and the time.
use vstd::prelude::*;

verus! {

/// `rand::rng().fill_bytes`: an array filled by the thread's generator. Nothing
/// is claimed of the bytes.
#[verifier::external_body]
pub(crate) fn random_bytes<const N: usize>() -> (bytes: [u8; N])
{
    let mut bytes = [0_u8; N];
    rand::RngCore::fill_bytes(&mut rand::rng(), &mut bytes);
    bytes
}

/// `rand::rng().next_u64`: a word of the thread's generator. Nothing is claimed
/// of it.
#[verifier::external_body]
pub(crate) fn random_u64() -> (word: u64)
{
    rand::RngCore::next_u64(&mut rand::rng())
}

/// `rand::rng().random_range` over `0..bound`: a number below the bound. Which
/// one is not claimed.
#[verifier::external_body]
pub(crate) fn random_below(bound: u32) -> (number: u32)
    requires
        bound > 0,
    ensures
        number < bound,
{
    rand::Rng::random_range(&mut rand::rng(), 0..bound)
}

/// `std::time::SystemTime::elapsed` on the Unix epoch: whole seconds since
/// then, or nothing where the clock stands before it. Nothing is claimed of the
/// number.
#[verifier::external_body]
pub(crate) fn unix_seconds() -> (seconds: Option<u64>)
{
    std::time::UNIX_EPOCH.elapsed().ok().map(|since| since.as_secs())
}

} // verus!
