use vstd::prelude::*;
use rand::rngs::{SmallRng, StdRng};
use rand::RngCore;

verus! {

/// A source of random bits for a model to draw from.
///
/// Nothing is asked of the bits: the model gives, for every value that the
/// source may yield, the state that follows for it. A source must yield,
/// though: `next_bits` returns and does not panic.
pub trait Generator {
    /// The next 64 bits of the source.
    fn next_bits(&mut self) -> (bits: u64);
}

/// `rand::rngs::SmallRng`, carried through as it is: nothing inside it is read.
#[verifier::external_type_specification]
#[verifier::external_body]
pub struct ExSmallRng(rand::rngs::SmallRng);

/// `rand::rngs::StdRng`, carried through as it is: nothing inside it is read.
#[verifier::external_type_specification]
#[verifier::external_body]
pub struct ExStdRng(rand::rngs::StdRng);

/// The next 64 bits of a `rand::rngs::SmallRng`, by its
/// `rand::RngCore::next_u64`: one step of a xoshiro generator, which is
/// shifts, rotations and wrapping sums on its own state. Nothing is claimed
/// of the bits.
#[verifier::external_body]
fn small_rng_bits(rng: &mut SmallRng) -> (bits: u64) {
    rng.next_u64()
}

/// The next 64 bits of a `rand::rngs::StdRng`, by its
/// `rand::RngCore::next_u64`: two words of the current ChaCha block, with a
/// new block computed where the current one is used up. Nothing is claimed
/// of the bits.
#[verifier::external_body]
fn std_rng_bits(rng: &mut StdRng) -> (bits: u64) {
    rng.next_u64()
}

impl Generator for SmallRng {
    fn next_bits(&mut self) -> (bits: u64) {
        small_rng_bits(self)
    }
}

impl Generator for StdRng {
    fn next_bits(&mut self) -> (bits: u64) {
        std_rng_bits(self)
    }
}

} // verus!
