//! An explicit, injectable source of random words.
//!
//! Hypervector construction draws uniform random bits. The source is owned by
//! the caller and passed in explicitly, so a run can be reproduced by fixing
//! the seed; no global generator is consulted.

use vstd::prelude::*;

verus! {

#[verifier::external_type_specification]
#[verifier::external_body]
pub struct ExStdRng(rand::rngs::StdRng);

/// Relies on rand::SeedableRng::seed_from_u64: builds rand's standard
/// generator deterministically from one seed word.
#[verifier::external_body]
fn std_rng_from_seed(seed: u64) -> rand::rngs::StdRng {
    <rand::rngs::StdRng as rand::SeedableRng>::seed_from_u64(seed)
}

/// Relies on rand::RngCore::next_u64: draws the generator's next word.
/// Nothing is promised of the value.
#[verifier::external_body]
fn std_rng_next_u64(rng: &mut rand::rngs::StdRng) -> u64 {
    rand::RngCore::next_u64(rng)
}

/// A caller-owned random source backing hypervector construction.
pub struct RandSource {
    rng: rand::rngs::StdRng,
}

impl RandSource {
    /// A deterministic source: the same seed yields the same stream of words.
    pub fn from_seed(seed: u64) -> RandSource {
        RandSource { rng: std_rng_from_seed(seed) }
    }

    /// The next word of the stream; each bit is uniform and independent.
    pub fn next_word(&mut self) -> u64 {
        std_rng_next_u64(&mut self.rng)
    }
}

} // verus!
