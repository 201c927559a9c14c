use vstd::prelude::*;

use rand::seq::SliceRandom;
use rand_chacha::rand_core::SeedableRng;

verus! {

/// The seeded ChaCha generator that shuffles the decks of octets.
#[verifier::external_type_specification]
#[verifier::external_body]
pub struct ExChaCha12Rng(rand_chacha::ChaCha12Rng);

/// The thread-local generator that seeds it.
#[verifier::external_type_specification]
#[verifier::external_body]
pub struct ExThreadRng(rand::rngs::ThreadRng);

/// The error type of seeding.
#[verifier::external_type_specification]
#[verifier::external_body]
pub struct ExRandError(rand::Error);

/// The derived `Clone` of `ChaCha12Rng`, which copies the generator's
/// state; nothing is claimed of the copy.
pub assume_specification[<rand_chacha::ChaCha12Rng as Clone>::clone](
    rng: &rand_chacha::ChaCha12Rng,
) -> rand_chacha::ChaCha12Rng;

/// Calls `rand::thread_rng`, the handle of the thread-local generator that
/// the system seeds. Nothing is claimed of it; the first call on a thread
/// panics if the system gives no seed, which depends on the machine, not on
/// any argument.
#[verifier::external_body]
pub(crate) fn thread_rng() -> rand::rngs::ThreadRng {
    rand::thread_rng()
}

/// Calls `ChaCha12Rng::from_rng` (`SeedableRng::from_rng` of rand_core),
/// which fills a seed from `rng` and can only fail when `rng` does. The
/// thread-local generator fills bytes through `BlockRng::try_fill_bytes`,
/// which always returns `Ok`, so the claim is that seeding from it succeeds.
/// Nothing is claimed of the seed.
#[verifier::external_body]
pub(crate) fn chacha12_from_thread_rng(rng: rand::rngs::ThreadRng) -> (r: Result<
    rand_chacha::ChaCha12Rng,
    rand::Error,
>)
    ensures
        r is Ok,
{
    rand_chacha::ChaCha12Rng::from_rng(rng)
}

/// Calls `SliceRandom::shuffle` on the deck, a Fisher-Yates shuffle made
/// of swaps: the claim is that the deck holds the same octets, as many
/// times each, afterwards. Which order comes out depends on the generator
/// and is not stated.
#[verifier::external_body]
pub(crate) fn shuffle_deck(deck: &mut Vec<u8>, rng: &mut rand_chacha::ChaCha12Rng)
    ensures
        final(deck)@.to_multiset() == old(deck)@.to_multiset(),
{
    deck.shuffle(rng);
}

} // verus!
