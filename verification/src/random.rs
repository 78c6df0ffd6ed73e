//! The randomness capability used while dealing shares.
//!
//! Coefficient sampling is expressed as a capability with one operation,
//! so that callers may inject a deterministic source for testing or for
//! environments without a system generator.  [`ThreadRandom`] is the
//! default source, backed by the operating system through the `rand`
//! crate.

use vstd::prelude::*;

verus! {

/// A source of uniform samples from the nonzero field values.
pub trait RandomSource {
    /// Samples one value from `1..=255`.
    fn sample_nonzero(&mut self) -> (r: u8)
        ensures
            1 <= r <= 255,
    ;
}

#[verifier::external_type_specification]
#[verifier::external_body]
pub struct ExThreadRng(rand::rngs::ThreadRng);

/// Relies on rand::thread_rng: returns a handle to the thread-local
/// generator.
#[verifier::external_body]
fn new_thread_rng() -> rand::rngs::ThreadRng {
    rand::thread_rng()
}

/// Relies on rand::Rng::gen_range: the sample lies within the given
/// range, here the inclusive range 1..=255.
#[verifier::external_body]
fn gen_range_nonzero(rng: &mut rand::rngs::ThreadRng) -> (r: u8)
    ensures
        1 <= r <= 255,
{
    rand::Rng::gen_range(rng, 1..=255u8)
}

/// The default randomness source: the `rand` crate's thread-local
/// generator.
pub struct ThreadRandom {
    rng: rand::rngs::ThreadRng,
}

impl ThreadRandom {
    pub fn new() -> (t: ThreadRandom) {
        ThreadRandom { rng: new_thread_rng() }
    }
}

impl RandomSource for ThreadRandom {
    fn sample_nonzero(&mut self) -> (r: u8) {
        gen_range_nonzero(&mut self.rng)
    }
}

} // verus!
