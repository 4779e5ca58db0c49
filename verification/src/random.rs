//! What the engine takes from outside: a random order for the deck, a random
//! session token, and the clock.

use vstd::prelude::*;
use rand::seq::SliceRandom;
use rand::RngExt;
use crate::cards::Card;

verus! {

/// `std::time::Instant`, a moment of the monotonic clock: carried through,
/// never looked into.
#[verifier::external_type_specification]
#[verifier::external_body]
pub struct ExInstant(std::time::Instant);

/// `rand::rngs::ThreadRng`, the random number generator of the thread:
/// handed to the calls that draw from it.
#[verifier::external_type_specification]
#[verifier::external_body]
pub struct ExThreadRng(rand::rngs::ThreadRng);

/// `rand::rng`: a handle to the random number generator of the thread.
/// Nothing is claimed of it. (The call panics where the system cannot
/// seed the generator.)
#[verifier::external_body]
pub(crate) fn thread_rng() -> (rng: rand::rngs::ThreadRng)
{
    rand::rng()
}

/// `rand::seq::SliceRandom::shuffle` on the cards. The shuffle only swaps
/// entries, so the cards are the same ones afterwards; in which order is
/// left open.
#[verifier::external_body]
pub(crate) fn shuffle_cards(cards: &mut Vec<Card>, rng: &mut rand::rngs::ThreadRng)
    ensures
        final(cards)@.to_multiset() == old(cards)@.to_multiset(),
{
    cards.shuffle(rng);
}

/// `rand::RngExt::random` for a number of 128 bits: any number may come
/// back.
#[verifier::external_body]
pub(crate) fn random_token(rng: &mut rand::rngs::ThreadRng) -> (token: u128)
{
    rng.random()
}

/// `std::time::Instant::now`: the present moment of the monotonic clock.
#[verifier::external_body]
pub(crate) fn clock_now() -> (now: std::time::Instant)
{
    std::time::Instant::now()
}

/// `std::time::Instant::elapsed`: the time that has passed since `since`.
/// Nothing is claimed of it.
#[verifier::external_body]
pub(crate) fn time_since(since: &std::time::Instant) -> (passed: std::time::Duration)
{
    since.elapsed()
}

/// `std::time::Duration::as_secs`: the whole seconds of a duration. Nothing
/// is claimed of the number.
#[verifier::external_body]
pub(crate) fn whole_seconds(passed: &std::time::Duration) -> (secs: u64)
{
    passed.as_secs()
}

/// The whole seconds that have passed since `since`.
pub(crate) fn seconds_since(since: &std::time::Instant) -> (secs: u64)
{
    let passed = time_since(since);
    whole_seconds(&passed)
}

} // verus!
