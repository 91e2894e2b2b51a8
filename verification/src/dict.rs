//! Building codebooks: allocate, seed deterministically, refine.
//!
//! The divide-and-conquer partitioner refines large ranges by halving:
//! both halves are brought to a local optimum independently, then one
//! whole-range refinement pass resolves collisions across the split.

use vstd::prelude::*;
use crate::codeword::Codeword;
use crate::metric::{
    converged, lemma_mul_le, lemma_views_update, min_pairwise, sum_fits, uniform_width, views,
    word_width,
};
use crate::refine::{generate_dict_stage_2, refine_spec, sweep_budget};
use crate::rng::{rng_from_seed, rng_next_byte, stream_pos_of, stream_seed_of, xoshiro_byte};

verus! {

/// The seed the default entry points start the pseudo-random stream from.
pub const DEFAULT_SEED: u64 = 0;

/// The byte string that seeding writes into the codeword at position
/// `i`: `width` consecutive bytes of the stream, starting at `i * width`.
pub open spec fn seeded_word(width: nat, seed: u64, i: int) -> Seq<u8> {
    Seq::new(width, |j: int| xoshiro_byte(seed, (i * width + j) as nat))
}

/// The whole codebook that seeding produces for a given shape: `len`
/// words of `width` bytes, filled word-major, byte-minor from the
/// stream started at `seed`. Seeding is thereby a function of the
/// codebook's shape and the seed alone.
pub open spec fn seeded_views(len: nat, width: nat, seed: u64) -> Seq<Seq<u8>> {
    Seq::new(len, |i: int| seeded_word(width, seed, i))
}

/// What refining the range `[lo, hi)` computes: up to 64 words one
/// whole-range refinement run; above that both halves refined
/// recursively, then one run over the full range. A refinement result
/// is thereby a function of the input content and the range alone.
pub open spec fn partition_spec(s: Seq<Seq<u8>>, lo: int, hi: int) -> Seq<Seq<u8>>
    decreases hi - lo,
{
    if hi - lo <= 64 {
        refine_spec(s, lo, hi, sweep_budget())
    } else {
        let mid = lo + (hi - lo) / 2;
        let left = partition_spec(s, lo, mid);
        let both = partition_spec(left, mid, hi);
        refine_spec(both, lo, hi, sweep_budget())
    }
}

/// Fill every byte of every codeword with the deterministic
/// pseudo-random stream started from `seed`, in word-major, byte-minor
/// order: codeword 0 is filled completely before codeword 1, and so on.
/// The result is pinned exactly: it equals `seeded_views` of the
/// codebook's shape and the seed.
fn seed_range(dict: &mut Vec<Codeword>, seed: u64)
    requires
        uniform_width(views(old(dict)@), 0, old(dict)@.len() as int),
    ensures
        final(dict)@.len() == old(dict)@.len(),
        forall|i: int|
            0 <= i < old(dict)@.len() ==> views(final(dict)@)[i].len() == views(old(dict)@)[i].len(),
        views(final(dict)@) == seeded_views(
            old(dict)@.len() as nat,
            word_width(views(old(dict)@), 0, old(dict)@.len() as int),
            seed,
        ),
{
    let ghost s0 = views(old(dict)@);
    let ghost n = old(dict)@.len() as int;
    let ghost wd = word_width(s0, 0, n);
    let mut rng = rng_from_seed(seed);
    let mut i: usize = 0;
    while i < dict.len()
        invariant
            i <= dict@.len(),
            dict@.len() == s0.len(),
            s0.len() == n,
            wd == word_width(s0, 0, n),
            uniform_width(s0, 0, n),
            forall|k: int| i <= k < n ==> views(dict@)[k] == s0[k],
            forall|k: int| 0 <= k < n ==> views(dict@)[k].len() == s0[k].len(),
            forall|k: int, j: int|
                0 <= k < i && 0 <= j < s0[k].len() ==> views(dict@)[k][j] == xoshiro_byte(
                    seed,
                    (k * wd + j) as nat,
                ),
            stream_seed_of(rng) == seed,
            stream_pos_of(rng) == i * wd,
        decreases dict@.len() - i,
    {
        proof {
            assert(views(dict@)[i as int] == dict@[i as int]@);
            assert(s0[i as int].len() == wd);
        }
        let w = dict[i].width();
        let mut bytes: Vec<u8> = Vec::new();
        let mut j: usize = 0;
        while j < w
            invariant
                j <= w,
                w as nat == wd,
                bytes@.len() == j,
                stream_seed_of(rng) == seed,
                stream_pos_of(rng) == i * wd + j,
                forall|jj: int|
                    0 <= jj < j ==> bytes@[jj] == xoshiro_byte(seed, ((i as int) * wd + jj) as nat),
            decreases w - j,
        {
            let b = rng_next_byte(&mut rng);
            bytes.push(b);
            j = j + 1;
        }
        let word = Codeword::from_bytes(bytes);
        proof {
            lemma_views_update(dict@, i as int, word);
        }
        dict.set(i, word);
        proof {
            assert((i as int) * wd + wd == ((i as int) + 1) * wd) by (nonlinear_arith);
        }
        i = i + 1;
    }
    proof {
        assert forall|k: int| 0 <= k < n implies views(dict@)[k] == seeded_word(wd, seed, k) by {
            assert(views(dict@)[k].len() == s0[k].len());
            assert(s0[k].len() == wd);
            assert forall|j: int| 0 <= j < wd implies views(dict@)[k][j] == seeded_word(
                wd,
                seed,
                k,
            )[j] by {
                assert(views(dict@)[k][j] == xoshiro_byte(seed, (k * wd + j) as nat));
            }
            assert(views(dict@)[k] =~= seeded_word(wd, seed, k));
        }
        assert(views(dict@) =~= seeded_views(s0.len(), wd, seed));
    }
}

/// Refine the range `[lo, hi)` of the codebook in place: nothing to do
/// below two words, one direct refinement run up to 64 words, and above
/// that a recursive split into two contiguous halves — each refined
/// independently, distances measured only within the half — followed by
/// one refinement run over the full range. Returns true when the final
/// run reached convergence of the whole range.
fn generate_dict_from_range(dict: &mut Vec<Codeword>, lo: usize, hi: usize) -> (done: bool)
    requires
        lo <= hi <= old(dict)@.len(),
        uniform_width(views(old(dict)@), lo as int, hi as int),
        sum_fits(views(old(dict)@), lo as int, hi as int),
    ensures
        final(dict)@.len() == old(dict)@.len(),
        forall|i: int|
            0 <= i < old(dict)@.len() && !(lo <= i < hi) ==> views(final(dict)@)[i] == views(
                old(dict)@,
            )[i],
        forall|i: int|
            lo <= i < hi ==> views(final(dict)@)[i].len() == views(old(dict)@)[i].len(),
        uniform_width(views(final(dict)@), lo as int, hi as int),
        sum_fits(views(final(dict)@), lo as int, hi as int),
        word_width(views(final(dict)@), lo as int, hi as int) == word_width(
            views(old(dict)@),
            lo as int,
            hi as int,
        ),
        done <==> converged(views(final(dict)@), lo as int, hi as int),
        hi - lo <= 1 ==> done && (forall|i: int|
            0 <= i < old(dict)@.len() ==> views(final(dict)@)[i] == views(old(dict)@)[i]),
        word_width(views(old(dict)@), lo as int, hi as int) == 0 ==> done && (forall|i: int|
            0 <= i < old(dict)@.len() ==> views(final(dict)@)[i] == views(old(dict)@)[i]),
        hi - lo <= 64 ==> min_pairwise(views(final(dict)@), lo as int, hi as int) >= min_pairwise(
            views(old(dict)@),
            lo as int,
            hi as int,
        ),
        hi - lo <= 64 && converged(views(old(dict)@), lo as int, hi as int) ==> done && (forall|
            i: int,
        |
            0 <= i < old(dict)@.len() ==> views(final(dict)@)[i] == views(old(dict)@)[i]),
        views(final(dict)@) == partition_spec(views(old(dict)@), lo as int, hi as int),
        hi - lo <= 2 ==> done,
    decreases hi - lo,
{
    let n = hi - lo;
    if n <= 64 {
        proof {
            if n <= 1 {
                crate::metric::lemma_converged_small(views(dict@), lo as int, hi as int);
            }
            if word_width(views(dict@), lo as int, hi as int) == 0 {
                crate::metric::lemma_converged_zero_width(views(dict@), lo as int, hi as int);
            }
        }
        return generate_dict_stage_2(dict, lo, hi);
    }
    let ghost s0 = views(old(dict)@);
    let ghost wd = word_width(s0, lo as int, hi as int);
    let mid = lo + n / 2;
    proof {
        assert forall|i: int| lo <= i < mid implies s0[i].len() == word_width(
            s0,
            lo as int,
            mid as int,
        ) by {
            assert(s0[i].len() == wd);
        }
        lemma_mul_le(8 * wd as int, mid - lo, hi - lo);
    }
    generate_dict_from_range(dict, lo, mid);
    let ghost s1 = views(dict@);
    proof {
        assert forall|i: int| mid <= i < hi implies s1[i].len() == word_width(
            s1,
            mid as int,
            hi as int,
        ) by {
            assert(s1[i] == s0[i]);
            assert(s0[i].len() == wd);
            assert(s1[mid as int] == s0[mid as int]);
        }
        assert(word_width(s1, mid as int, hi as int) == wd);
        lemma_mul_le(8 * wd as int, hi - mid, hi - lo);
    }
    generate_dict_from_range(dict, mid, hi);
    let ghost s2 = views(dict@);
    proof {
        assert(word_width(s2, lo as int, hi as int) == wd);
        assert forall|i: int| lo <= i < hi implies s2[i].len() == word_width(
            s2,
            lo as int,
            hi as int,
        ) by {
            if i < mid {
                assert(s2[i] == s1[i]);
                assert(s1[i].len() == s0[i].len());
            } else {
                assert(s2[i].len() == s1[i].len());
                assert(s1[i] == s0[i]);
            }
            assert(s0[i].len() == wd);
        }
        if wd == 0 {
            crate::metric::lemma_converged_zero_width(s2, lo as int, hi as int);
        }
    }
    let d3 = generate_dict_stage_2(dict, lo, hi);
    proof {
        assert(s1 == partition_spec(s0, lo as int, mid as int));
        assert(s2 == partition_spec(s1, mid as int, hi as int));
        assert(partition_spec(s0, lo as int, hi as int) == refine_spec(
            s2,
            lo as int,
            hi as int,
            sweep_budget(),
        ));
        if wd == 0 {
            assert(word_width(s0, lo as int, mid as int) == 0);
            assert(word_width(s1, mid as int, hi as int) == 0);
            assert(converged(s2, lo as int, hi as int));
            assert forall|i: int| 0 <= i < dict@.len() implies views(dict@)[i] == s0[i] by {
                assert(views(dict@)[i] == s2[i]);
                assert(s2[i] == s1[i]);
                assert(s1[i] == s0[i]);
            }
        }
    }
    d3
}

/// Refine a caller-supplied codebook in place, without seeding: bring it
/// to a state where no single-bit flip of any codeword improves that
/// codeword's `(closest distance, sum of distances)` pair. The result
/// equals `partition_spec` of the input content — a pure function of
/// the bytes it started from, so equal inputs provably end equal. The
/// returned flag is proved equivalent to convergence of the returned
/// content (see `generate_dict_stage_2` for why it is a certificate
/// rather than a constant), and is proved true for up to two words. A
/// codebook of fewer than two words, of zero-width words, or of up to
/// 64 already-converged words is left byte-for-byte unchanged. Up to 64
/// words, the minimum pairwise distance of the result is never below
/// that of the input.
pub fn generate_dict_from(dict: &mut Vec<Codeword>) -> (done: bool)
    requires
        uniform_width(views(old(dict)@), 0, old(dict)@.len() as int),
        sum_fits(views(old(dict)@), 0, old(dict)@.len() as int),
    ensures
        final(dict)@.len() == old(dict)@.len(),
        forall|i: int|
            0 <= i < old(dict)@.len() ==> views(final(dict)@)[i].len() == views(old(dict)@)[i].len(),
        done <==> converged(views(final(dict)@), 0, old(dict)@.len() as int),
        old(dict)@.len() <= 1 ==> done && (forall|i: int|
            0 <= i < old(dict)@.len() ==> views(final(dict)@)[i] == views(old(dict)@)[i]),
        word_width(views(old(dict)@), 0, old(dict)@.len() as int) == 0 ==> done && (forall|i: int|
            0 <= i < old(dict)@.len() ==> views(final(dict)@)[i] == views(old(dict)@)[i]),
        old(dict)@.len() <= 64 ==> min_pairwise(views(final(dict)@), 0, old(dict)@.len() as int)
            >= min_pairwise(views(old(dict)@), 0, old(dict)@.len() as int),
        old(dict)@.len() <= 64 && converged(views(old(dict)@), 0, old(dict)@.len() as int)
            ==> done && (forall|i: int|
            0 <= i < old(dict)@.len() ==> views(final(dict)@)[i] == views(old(dict)@)[i]),
        views(final(dict)@) == partition_spec(views(old(dict)@), 0, old(dict)@.len() as int),
        old(dict)@.len() <= 2 ==> done,
{
    let hi = dict.len();
    generate_dict_from_range(dict, 0, hi)
}

/// Seed the codebook from `seed` and refine it in place: every byte is
/// first overwritten with the deterministic pseudo-random stream — the
/// intermediate content is exactly `seeded_views` of the codebook's
/// shape and the seed — then the partitioner refines that content. The
/// returned flag is proved equivalent to convergence of the returned
/// content. A codebook of fewer than two words, or one of zero-width
/// words, carries exactly its seeded bytes; up to 64 words the result's
/// minimum pairwise distance is never below that of the seeded content.
pub fn generate_dict_with_seed(dict: &mut Vec<Codeword>, seed: u64) -> (done: bool)
    requires
        uniform_width(views(old(dict)@), 0, old(dict)@.len() as int),
        sum_fits(views(old(dict)@), 0, old(dict)@.len() as int),
    ensures
        final(dict)@.len() == old(dict)@.len(),
        forall|i: int|
            0 <= i < old(dict)@.len() ==> views(final(dict)@)[i].len() == views(old(dict)@)[i].len(),
        done <==> converged(views(final(dict)@), 0, old(dict)@.len() as int),
        old(dict)@.len() <= 1 ==> done && views(final(dict)@) == seeded_views(
            old(dict)@.len() as nat,
            word_width(views(old(dict)@), 0, old(dict)@.len() as int),
            seed,
        ),
        word_width(views(old(dict)@), 0, old(dict)@.len() as int) == 0 ==> done && views(
            final(dict)@,
        ) == seeded_views(
            old(dict)@.len() as nat,
            word_width(views(old(dict)@), 0, old(dict)@.len() as int),
            seed,
        ),
        old(dict)@.len() <= 64 ==> min_pairwise(views(final(dict)@), 0, old(dict)@.len() as int)
            >= min_pairwise(
            seeded_views(
                old(dict)@.len() as nat,
                word_width(views(old(dict)@), 0, old(dict)@.len() as int),
                seed,
            ),
            0,
            old(dict)@.len() as int,
        ),
        old(dict)@.len() <= 64 && converged(
            seeded_views(
                old(dict)@.len() as nat,
                word_width(views(old(dict)@), 0, old(dict)@.len() as int),
                seed,
            ),
            0,
            old(dict)@.len() as int,
        ) ==> done && views(final(dict)@) == seeded_views(
            old(dict)@.len() as nat,
            word_width(views(old(dict)@), 0, old(dict)@.len() as int),
            seed,
        ),
        views(final(dict)@) == partition_spec(
            seeded_views(
                old(dict)@.len() as nat,
                word_width(views(old(dict)@), 0, old(dict)@.len() as int),
                seed,
            ),
            0,
            old(dict)@.len() as int,
        ),
        old(dict)@.len() <= 2 ==> done,
{
    let ghost s0 = views(old(dict)@);
    let ghost n = old(dict)@.len() as int;
    let ghost w0 = word_width(s0, 0, n);
    seed_range(dict, seed);
    let ghost sd = views(dict@);
    proof {
        assert(sd == seeded_views(s0.len(), w0, seed));
        assert(word_width(sd, 0, n) == word_width(s0, 0, n));
        assert forall|i: int| 0 <= i < n implies sd[i].len() == word_width(sd, 0, n) by {
            assert(sd[i].len() == s0[i].len());
            assert(s0[i].len() == word_width(s0, 0, n));
        }
    }
    let hi = dict.len();
    let done = generate_dict_from_range(dict, 0, hi);
    proof {
        if n <= 1 || w0 == 0 || (n <= 64 && converged(sd, 0, n)) {
            assert(views(dict@) =~= sd);
        }
    }
    done
}

/// Seed the codebook with the default seed and refine it in place. The
/// words it held before are discarded: the intermediate seeded content
/// is exactly `seeded_views` of the codebook's shape and the default
/// seed, so it depends on the length and width alone. The returned flag
/// is proved equivalent to convergence of the returned content.
pub fn generate_dict_rand(dict: &mut Vec<Codeword>) -> (done: bool)
    requires
        uniform_width(views(old(dict)@), 0, old(dict)@.len() as int),
        sum_fits(views(old(dict)@), 0, old(dict)@.len() as int),
    ensures
        final(dict)@.len() == old(dict)@.len(),
        forall|i: int|
            0 <= i < old(dict)@.len() ==> views(final(dict)@)[i].len() == views(old(dict)@)[i].len(),
        done <==> converged(views(final(dict)@), 0, old(dict)@.len() as int),
        old(dict)@.len() <= 1 ==> done && views(final(dict)@) == seeded_views(
            old(dict)@.len() as nat,
            word_width(views(old(dict)@), 0, old(dict)@.len() as int),
            DEFAULT_SEED,
        ),
        word_width(views(old(dict)@), 0, old(dict)@.len() as int) == 0 ==> done && views(
            final(dict)@,
        ) == seeded_views(
            old(dict)@.len() as nat,
            word_width(views(old(dict)@), 0, old(dict)@.len() as int),
            DEFAULT_SEED,
        ),
        old(dict)@.len() <= 64 ==> min_pairwise(views(final(dict)@), 0, old(dict)@.len() as int)
            >= min_pairwise(
            seeded_views(
                old(dict)@.len() as nat,
                word_width(views(old(dict)@), 0, old(dict)@.len() as int),
                DEFAULT_SEED,
            ),
            0,
            old(dict)@.len() as int,
        ),
        views(final(dict)@) == partition_spec(
            seeded_views(
                old(dict)@.len() as nat,
                word_width(views(old(dict)@), 0, old(dict)@.len() as int),
                DEFAULT_SEED,
            ),
            0,
            old(dict)@.len() as int,
        ),
        old(dict)@.len() <= 2 ==> done,
{
    generate_dict_with_seed(dict, DEFAULT_SEED)
}

/// Build a codebook of `words` codewords of `width` bytes from scratch:
/// allocate zeroed words, seed them from the default seed — the seeded
/// content is exactly `seeded_views(words, width, DEFAULT_SEED)` — and
/// refine that content. The boolean is proved equivalent to convergence
/// of the returned codebook.
pub fn generate_dict(width: usize, words: usize) -> (r: (Vec<Codeword>, bool))
    requires
        8 * (width as int) * (words as int) <= u64::MAX,
    ensures
        r.0@.len() == words,
        forall|i: int| 0 <= i < words ==> views(r.0@)[i].len() == width,
        r.1 <==> converged(views(r.0@), 0, words as int),
        words <= 1 ==> r.1 && views(r.0@) == seeded_views(
            words as nat,
            width as nat,
            DEFAULT_SEED,
        ),
        width == 0 ==> r.1,
        words <= 64 ==> min_pairwise(views(r.0@), 0, words as int) >= min_pairwise(
            seeded_views(words as nat, width as nat, DEFAULT_SEED),
            0,
            words as int,
        ),
        views(r.0@) == partition_spec(
            seeded_views(words as nat, width as nat, DEFAULT_SEED),
            0,
            words as int,
        ),
        words <= 2 ==> r.1,
{
    let mut dict: Vec<Codeword> = Vec::new();
    let mut k: usize = 0;
    while k < words
        invariant
            k <= words,
            dict@.len() == k,
            forall|i: int| 0 <= i < k ==> views(dict@)[i].len() == width,
        decreases words - k,
    {
        let ghost pre = dict@;
        let z = Codeword::zeros(width);
        dict.push(z);
        proof {
            assert forall|i: int| 0 <= i <= k implies views(dict@)[i].len() == width by {
                assert(views(dict@)[i] == dict@[i]@);
                if i < k {
                    assert(dict@[i] == pre[i]);
                    assert(views(pre)[i] == pre[i]@);
                } else {
                    assert(dict@[i] == z);
                }
            }
        }
        k = k + 1;
    }
    let ghost sz = views(dict@);
    proof {
        if words > 0 {
            assert(word_width(sz, 0, words as int) == width);
        } else {
            assert(8 * word_width(sz, 0, words as int) * (words as int) == 0) by (nonlinear_arith)
                requires
                    (words as int) == 0,
            ;
        }
        assert(uniform_width(sz, 0, words as int));
        assert(8 * word_width(sz, 0, words as int) * (words as int) <= u64::MAX);
    }
    let done = generate_dict_rand(&mut dict);
    proof {
        if words == 0 {
            assert(seeded_views(words as nat, word_width(sz, 0, words as int), DEFAULT_SEED)
                =~= seeded_views(words as nat, width as nat, DEFAULT_SEED));
        }
    }
    (dict, done)
}

} // verus!

