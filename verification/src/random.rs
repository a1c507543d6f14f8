//! The pseudo-random generator of the `fastrand` crate, as the library draws
//! from it. A draw from a generator handed in depends on its hidden state,
//! so those contracts state only the range the value falls in; the words of
//! a generator started from a given seed are named.
use vstd::prelude::*;

verus! {

/// `fastrand::Rng`, a seeded pseudo-random generator.
#[verifier::external_type_specification]
#[verifier::external_body]
pub struct ExRng(fastrand::Rng);

/// The first `n` words of the generator started from `seed`: what
/// `fastrand::Rng::with_seed(seed)` gives through `n` calls of `u32(..)`.
/// The generator is a fixed function of its seed, so the words depend on
/// `seed` and `n` alone; which words they are is not written out here.
pub uninterp spec fn seeded_words(seed: u64, n: nat) -> Seq<u32>;

/// `fastrand::Rng::with_seed(seed)`, then `n` calls of `Rng::u32(..)`: the
/// words drawn, in order, are `seeded_words(seed, n)`, `n` of them.
#[verifier::external_body]
pub(crate) fn seeded_u32s(seed: u64, n: usize) -> (words: Vec<u32>)
    ensures
        words@ == seeded_words(seed, n as nat),
        words@.len() == n,
{
    let mut rng = fastrand::Rng::with_seed(seed);
    std::iter::repeat_with(|| rng.u32(..)).take(n).collect()
}

/// `fastrand::Rng::bool`: a fair coin. Nothing is stated of the outcome.
#[verifier::external_body]
pub(crate) fn rng_bool(rng: &mut fastrand::Rng) -> (b: bool) {
    rng.bool()
}

/// `fastrand::Rng::u8` over `0..n`: a number below `n` (the crate panics
/// on an empty range, so `n` must be positive).
#[verifier::external_body]
pub(crate) fn rng_u8_below(rng: &mut fastrand::Rng, n: u8) -> (x: u8)
    requires
        n > 0,
    ensures
        x < n,
{
    rng.u8(0..n)
}

/// `fastrand::Rng::usize` over `0..n`: an index below `n` (the crate
/// panics on an empty range, so `n` must be positive).
#[verifier::external_body]
pub(crate) fn rng_usize_below(rng: &mut fastrand::Rng, n: usize) -> (x: usize)
    requires
        n > 0,
    ensures
        x < n,
{
    rng.usize(0..n)
}

/// `fastrand::usize` over `0..n`, drawn from the thread's own generator: an
/// index below `n` (the crate panics on an empty range).
#[verifier::external_body]
pub(crate) fn random_usize_below(n: usize) -> (x: usize)
    requires
        n > 0,
    ensures
        x < n,
{
    fastrand::usize(0..n)
}

} // verus!
