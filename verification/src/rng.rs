//! Sources of random words for the measurement engine.

use rand_core::RngCore;
use rand_core::SeedableRng;
use vstd::prelude::*;

verus! {

#[verifier::external_type_specification]
#[verifier::external_body]
pub struct ExXorShiftRng(rand_xorshift::XorShiftRng);

/// The generator that a simulator uses when it is made from a seed.
pub type DefaultRng = rand_xorshift::XorShiftRng;

/// A source of random 32-bit words. A measurement whose outcome is not
/// forced draws one word and uses its lowest bit.
pub trait RandomSource: Sized {
    /// What the source promises of a draw: in this state it may hand out
    /// `word` and be left as `after`. A source that does not say promises
    /// nothing.
    open spec fn emits(&self, word: u32, after: Self) -> bool {
        true
    }

    /// Hands out the next word.
    fn next_u32(&mut self) -> (word: u32)
        ensures
            old(self).emits(word, *final(self)),
    ;
}

/// Sets up a generator with `rand_core::SeedableRng::seed_from_u64` of
/// `rand_xorshift::XorShiftRng`. The generator is opaque here: nothing is
/// claimed of its state.
#[verifier::external_body]
pub(crate) fn xorshift_from_seed(seed: u64) -> DefaultRng {
    rand_xorshift::XorShiftRng::seed_from_u64(seed)
}

/// Draws a word with `rand_core::RngCore::next_u32` of
/// `rand_xorshift::XorShiftRng`. Nothing is claimed of the word, nor of the
/// state the generator is left in.
#[verifier::external_body]
pub(crate) fn xorshift_next_u32(rng: &mut DefaultRng) -> u32 {
    RngCore::next_u32(rng)
}

impl RandomSource for rand_xorshift::XorShiftRng {
    fn next_u32(&mut self) -> (word: u32) {
        xorshift_next_u32(self)
    }
}

} // verus!
