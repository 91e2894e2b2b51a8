//! Deterministic pseudo-random byte stream, drawn from rand_xoshiro's
//! `Xoshiro256PlusPlus` generator.
//!
//! The generator is seeded from a single integer and then emits one byte
//! per draw. Its whole behaviour is a function of the seed alone, so the
//! stream is named by the uninterpreted function `xoshiro_byte`: the byte
//! at position `pos` of the stream started from `seed`. A generator value
//! is modelled by the seed it was built from and by how many bytes have
//! been drawn from it so far.

use vstd::prelude::*;
use rand::Rng;
use rand::SeedableRng;
use rand_xoshiro::Xoshiro256PlusPlus;

verus! {

#[verifier::external_type_specification]
#[verifier::external_body]
pub struct ExXoshiro256PlusPlus(Xoshiro256PlusPlus);

/// The seed a generator was built from.
pub uninterp spec fn stream_seed_of(rng: Xoshiro256PlusPlus) -> u64;

/// How many bytes have been drawn from a generator so far.
pub uninterp spec fn stream_pos_of(rng: Xoshiro256PlusPlus) -> nat;

/// The byte at position `pos` of the pseudo-random stream started from
/// `seed`: what the generator returns there, on every machine and in
/// every run.
pub uninterp spec fn xoshiro_byte(seed: u64, pos: nat) -> u8;

/// Relies on rand_xoshiro's `Xoshiro256PlusPlus::seed_from_u64`: it
/// builds the generator state from the seed alone (through `SplitMix64`),
/// so the same seed always starts the same stream.
#[verifier::external_body]
pub(crate) fn rng_from_seed(seed: u64) -> (rng: Xoshiro256PlusPlus)
    ensures
        stream_seed_of(rng) == seed,
        stream_pos_of(rng) == 0,
{
    Xoshiro256PlusPlus::seed_from_u64(seed)
}

/// Relies on rand's `Rng::gen::<u8>` over `Xoshiro256PlusPlus`: the next
/// byte is computed from the generator state alone, so it is a function
/// of the seed and of how many bytes were drawn before it.
#[verifier::external_body]
pub(crate) fn rng_next_byte(rng: &mut Xoshiro256PlusPlus) -> (b: u8)
    ensures
        stream_seed_of(*final(rng)) == stream_seed_of(*old(rng)),
        stream_pos_of(*final(rng)) == stream_pos_of(*old(rng)) + 1,
        b == xoshiro_byte(stream_seed_of(*old(rng)), stream_pos_of(*old(rng))),
{
    rng.gen::<u8>()
}

} // verus!
