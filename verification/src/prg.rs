//! The pseudo-random generator behind share masking: a cryptographically
//! secure generator, seedable from two 64-bit words or from system entropy.
//!
//! Nothing is promised of the values drawn: every caller's contract must
//! hold whatever bits come back.

use vstd::prelude::*;

verus! {

#[verifier::external_type_specification]
#[verifier::external_body]
pub struct ExStdRng(rand::rngs::StdRng);

/// A cryptographically secure pseudo-random generator.
pub struct Prg {
    rng: rand::rngs::StdRng,
}

impl Prg {
    /// Relies on rand's `SeedableRng::from_entropy` for `StdRng`: a fresh
    /// generator seeded from the operating system.
    #[verifier::external_body]
    pub fn new() -> (r: Prg) {
        Prg { rng: <rand::rngs::StdRng as rand::SeedableRng>::from_entropy() }
    }

    /// Relies on rand's `SeedableRng::from_seed` for `StdRng`: a
    /// deterministic generator from the given seed; the two words fill the
    /// low half of the 32-byte seed.
    #[verifier::external_body]
    pub fn from_seed(word0: u64, word1: u64) -> (r: Prg) {
        let mut seed = [0u8; 32];
        seed[..8].copy_from_slice(&word0.to_le_bytes());
        seed[8..16].copy_from_slice(&word1.to_le_bytes());
        Prg { rng: <rand::rngs::StdRng as rand::SeedableRng>::from_seed(seed) }
    }

    /// Relies on rand's `Rng::gen` for `bool`: one draw from the generator;
    /// nothing is known of the value.
    #[verifier::external_body]
    pub fn rand_bool(&mut self) -> (r: bool) {
        rand::Rng::gen(&mut self.rng)
    }

    /// Overwrite a byte buffer with generator output, eight draws a
    /// byte; the length does not change and nothing is known of the
    /// bytes.
    pub fn fill_bytes(&mut self, buf: &mut Vec<u8>)
        ensures
            final(buf)@.len() == old(buf)@.len(),
    {
        let n = buf.len();
        let mut i: usize = 0;
        while i < n
            invariant
                i <= n,
                buf@.len() == n,
            decreases n - i,
        {
            let mut b: u8 = 0;
            let mut k: usize = 0;
            while k < 8
                invariant
                    k <= 8,
                decreases 8 - k,
            {
                if self.rand_bool() {
                    b = b | (1u8 << k);
                }
                k = k + 1;
            }
            buf.set(i, b);
            i = i + 1;
        }
    }
}

} // verus!
