//! Generation of codebooks: ordered sequences of fixed-width binary
//! codewords kept as far apart as possible under Hamming distance.
//!
//! A codebook is built by seeding every codeword with deterministic
//! pseudo-random bytes and then running a greedy local search that flips
//! one bit at a time until no single-bit change improves the separation
//! of any codeword from the rest.
//!
//! Every entry point pins its result as a function of its input: the
//! seeded content equals `seeded_views` of the codebook's shape and the
//! seed, and the refined content equals `refine_spec` (for one run) or
//! `partition_spec` (for the divide-and-conquer path) of the content it
//! started from, so equal inputs provably give equal codebooks. Each
//! entry point also returns a boolean that is proved equivalent to
//! convergence of the returned codebook. The flag exists because the
//! search's cross-position sweeps have no known termination measure —
//! a move accepted at one position can lower another position's
//! objective — so they run under an explicit budget no physical run can
//! exhaust; see `generate_dict_stage_2`. For codebooks of up to two
//! words the flag is proved true outright.

pub mod bits;
pub mod codeword;
pub mod dict;
pub mod metric;
pub mod refine;
pub mod rng;

pub use bits::lemma_hamming_bounds;
pub use codeword::Codeword;
pub use dict::{generate_dict, generate_dict_from, generate_dict_rand, generate_dict_with_seed,
    partition_spec, seeded_views, DEFAULT_SEED};
pub use metric::lemma_converged_pair_distinct;
pub use refine::{generate_dict_stage_2, refine_spec};
