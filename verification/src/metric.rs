//! The separation objective of a codebook range.
//!
//! For a codeword at position `ix` of the range `[lo, hi)` the objective
//! is the pair `(closest distance, sum of distances)` to the other
//! codewords of the range, compared lexicographically. A position is
//! locally optimal when no single-bit flip of its codeword yields a
//! strictly greater pair; a range is converged when every position is
//! locally optimal.

use vstd::prelude::*;
use crate::bits::{hamming, lemma_hamming_bounds, lemma_hamming_sym, pop8};
use crate::codeword::{flip, Codeword};

verus! {

/// The byte strings of a codeword sequence.
pub open spec fn views(s: Seq<Codeword>) -> Seq<Seq<u8>> {
    s.map_values(|c: Codeword| c@)
}

/// The byte width shared by the words of `[lo, hi)` (that of the first
/// word; `uniform_width` makes them all equal).
pub open spec fn word_width(s: Seq<Seq<u8>>, lo: int, hi: int) -> nat {
    if lo < hi {
        s[lo].len()
    } else {
        0
    }
}

/// Every word of `[lo, hi)` has the same byte width.
pub open spec fn uniform_width(s: Seq<Seq<u8>>, lo: int, hi: int) -> bool {
    forall|i: int| lo <= i < hi ==> s[i].len() == word_width(s, lo, hi)
}

/// The sum of all distances from one word to the range fits in 64 bits.
pub open spec fn sum_fits(s: Seq<Seq<u8>>, lo: int, hi: int) -> bool {
    8 * word_width(s, lo, hi) * (hi - lo) <= u64::MAX
}

/// The closest distance when a word has no neighbours at all.
pub open spec fn no_neighbor() -> nat {
    u64::MAX as nat
}

pub open spec fn min2(a: nat, b: nat) -> nat {
    if a <= b {
        a
    } else {
        b
    }
}

/// Minimum Hamming distance from `w` to the words of `[lo, n)`, the
/// position `ix` excluded.
pub open spec fn cd_full(s: Seq<Seq<u8>>, lo: int, n: int, w: Seq<u8>, ix: int) -> nat
    decreases n - lo,
{
    if n <= lo {
        no_neighbor()
    } else {
        let rest = cd_full(s, lo, n - 1, w, ix);
        if n - 1 == ix {
            rest
        } else {
            min2(rest, hamming(s[n - 1], w))
        }
    }
}

/// Sum of Hamming distances from `w` to the words of `[lo, n)`, the
/// position `ix` excluded.
pub open spec fn sd_full(s: Seq<Seq<u8>>, lo: int, n: int, w: Seq<u8>, ix: int) -> nat
    decreases n - lo,
{
    if n <= lo {
        0
    } else {
        let rest = sd_full(s, lo, n - 1, w, ix);
        if n - 1 == ix {
            rest
        } else {
            rest + hamming(s[n - 1], w)
        }
    }
}

/// Lexicographic comparison of two objective pairs.
pub open spec fn lex_gt(c1: nat, s1: nat, c2: nat, s2: nat) -> bool {
    c1 > c2 || (c1 == c2 && s1 > s2)
}

/// Whether replacing the word at `ix` by `w` strictly improves its
/// objective pair over the range `[lo, hi)`.
pub open spec fn improves(s: Seq<Seq<u8>>, lo: int, hi: int, ix: int, w: Seq<u8>) -> bool {
    lex_gt(
        cd_full(s, lo, hi, w, ix),
        sd_full(s, lo, hi, w, ix),
        cd_full(s, lo, hi, s[ix], ix),
        sd_full(s, lo, hi, s[ix], ix),
    )
}

/// No single-bit flip of the word at `ix` improves its objective pair.
pub open spec fn locally_optimal_at(s: Seq<Seq<u8>>, lo: int, hi: int, ix: int) -> bool {
    forall|byte: int, bit: u8|
        0 <= byte < s[ix].len() && bit < 8 ==> !improves(s, lo, hi, ix, flip(s[ix], byte, bit))
}

/// Every position of the range is locally optimal: a full refinement
/// sweep would accept no move.
pub open spec fn converged(s: Seq<Seq<u8>>, lo: int, hi: int) -> bool {
    forall|ix: int| lo <= ix < hi ==> locally_optimal_at(s, lo, hi, ix)
}

/// The flip of bit `bit` in byte `byte` is the first single-bit flip of
/// the word at `ix`, in byte-major bit-minor scan order, that improves
/// its objective pair over the range `[lo, hi)`.
pub open spec fn first_improving_flip(
    s: Seq<Seq<u8>>,
    lo: int,
    hi: int,
    ix: int,
    byte: int,
    bit: u8,
) -> bool {
    &&& 0 <= byte < s[ix].len()
    &&& bit < 8
    &&& improves(s, lo, hi, ix, flip(s[ix], byte, bit))
    &&& forall|b2: int, t2: u8|
        0 <= b2 && t2 < 8 && (b2 < byte || (b2 == byte && t2 < bit)) ==> !improves(
            s,
            lo,
            hi,
            ix,
            flip(s[ix], b2, t2),
        )
}

/// Minimum distance over the pairs of `[lo, n)` whose members both
/// differ from `ix`.
pub open spec fn mp_excl(s: Seq<Seq<u8>>, lo: int, n: int, ix: int) -> nat
    decreases n - lo,
{
    if n <= lo {
        no_neighbor()
    } else {
        let rest = mp_excl(s, lo, n - 1, ix);
        if n - 1 == ix {
            rest
        } else {
            min2(rest, cd_full(s, lo, n - 1, s[n - 1], ix))
        }
    }
}

/// Minimum pairwise Hamming distance over the range `[lo, hi)`.
pub open spec fn min_pairwise(s: Seq<Seq<u8>>, lo: int, hi: int) -> nat {
    mp_excl(s, lo, hi, -1)
}

/// Replacing one codeword of a sequence replaces its byte string in the
/// sequence of views.
pub proof fn lemma_views_update(s: Seq<Codeword>, ix: int, c: Codeword)
    requires
        0 <= ix < s.len(),
    ensures
        views(s.update(ix, c)) == views(s).update(ix, c@),
{
    assert(views(s.update(ix, c)) =~= views(s).update(ix, c@));
}

/// A range of fewer than two words is converged outright.
pub proof fn lemma_converged_small(s: Seq<Seq<u8>>, lo: int, hi: int)
    requires
        lo <= hi,
        hi - lo <= 1,
    ensures
        converged(s, lo, hi),
{
    assert forall|ix: int| lo <= ix < hi implies locally_optimal_at(s, lo, hi, ix) by {
        assert forall|byte: int, bit: u8|
            0 <= byte < s[ix].len() && bit < 8 implies !improves(
            s,
            lo,
            hi,
            ix,
            flip(s[ix], byte, bit),
        ) by {
            let w = flip(s[ix], byte, bit);
            assert(cd_full(s, lo, lo, w, ix) == no_neighbor());
            assert(cd_full(s, lo, lo, s[ix], ix) == no_neighbor());
            assert(sd_full(s, lo, lo, w, ix) == 0);
            assert(sd_full(s, lo, lo, s[ix], ix) == 0);
            assert(cd_full(s, lo, hi, w, ix) == no_neighbor());
            assert(cd_full(s, lo, hi, s[ix], ix) == no_neighbor());
            assert(sd_full(s, lo, hi, w, ix) == 0);
            assert(sd_full(s, lo, hi, s[ix], ix) == 0);
        }
    }
}

/// A range of zero-width words is converged outright: no bit exists to
/// flip, so no move can ever be accepted.
pub proof fn lemma_converged_zero_width(s: Seq<Seq<u8>>, lo: int, hi: int)
    requires
        lo <= hi,
        uniform_width(s, lo, hi),
        word_width(s, lo, hi) == 0,
    ensures
        converged(s, lo, hi),
{
    assert forall|ix: int| lo <= ix < hi implies locally_optimal_at(s, lo, hi, ix) by {
        assert(s[ix].len() == 0);
    }
}

/// For a two-word range both objective components of either position
/// collapse to the plain distance between `w` and the other word.
pub proof fn lemma_pair_objective(s: Seq<Seq<u8>>, lo: int, hi: int, ix: int, w: Seq<u8>)
    requires
        0 <= lo,
        hi == lo + 2,
        hi <= s.len(),
        lo <= ix < hi,
        uniform_width(s, lo, hi),
        sum_fits(s, lo, hi),
    ensures
        ix == lo ==> cd_full(s, lo, hi, w, ix) == hamming(s[lo + 1], w) && sd_full(
            s,
            lo,
            hi,
            w,
            ix,
        ) == hamming(s[lo + 1], w),
        ix == lo + 1 ==> cd_full(s, lo, hi, w, ix) == hamming(s[lo], w) && sd_full(
            s,
            lo,
            hi,
            w,
            ix,
        ) == hamming(s[lo], w),
{
    let wd = word_width(s, lo, hi);
    lemma_hamming_bounds(s[lo], w);
    lemma_hamming_bounds(s[lo + 1], w);
    assert(8 * wd * 2 == 8 * wd + 8 * wd) by (nonlinear_arith);
    assert(cd_full(s, lo, lo, w, ix) == no_neighbor());
    assert(sd_full(s, lo, lo, w, ix) == 0);
    if ix == lo {
        assert(cd_full(s, lo, lo + 1, w, ix) == no_neighbor());
        assert(sd_full(s, lo, lo + 1, w, ix) == 0);
        assert(hamming(s[lo + 1], w) <= 8 * wd);
        assert(cd_full(s, lo, hi, w, ix) == min2(no_neighbor(), hamming(s[lo + 1], w)));
    } else {
        assert(cd_full(s, lo, lo + 1, w, ix) == min2(no_neighbor(), hamming(s[lo], w)));
        assert(hamming(s[lo], w) <= 8 * wd);
        assert(cd_full(s, lo, hi, w, ix) == cd_full(s, lo, lo + 1, w, ix));
        assert(sd_full(s, lo, hi, w, ix) == sd_full(s, lo, lo + 1, w, ix));
    }
}

/// A converged pair of words of at least one byte is distinct: were the
/// two words equal, their distance would be zero, and flipping any
/// single bit of either word would raise its closest distance from zero
/// to one — an accepted move, contradicting convergence.
pub proof fn lemma_converged_pair_distinct(s: Seq<Seq<u8>>, lo: int, hi: int)
    requires
        0 <= lo,
        hi == lo + 2,
        hi <= s.len(),
        uniform_width(s, lo, hi),
        word_width(s, lo, hi) >= 1,
        converged(s, lo, hi),
    ensures
        hamming(s[lo], s[lo + 1]) >= 1,
        s[lo] != s[lo + 1],
{
    let a = s[lo];
    let b = s[lo + 1];
    assert(a.len() == word_width(s, lo, hi));
    assert(b.len() == word_width(s, lo, hi));
    if hamming(a, b) == 0 {
        // The leading bytes agree.
        crate::bits::lemma_hamming_upto_term(a, b, a.len() as int, 0);
        assert(pop8(a[0] ^ b[0]) == 0);
        crate::bits::lemma_pop8_zero(a[0] ^ b[0]);
        let x = a[0];
        let y = b[0];
        assert(x == y) by (bit_vector)
            requires
                x ^ y == 0,
        ;
        // Flipping the first bit of the first word puts it at distance
        // one from the second.
        let w = flip(a, 0, 0);
        assert(1u8 << 0u8 == 1) by (bit_vector);
        assert(w[0] == x ^ 1);
        assert(x ^ (x ^ 1u8) == 1) by (bit_vector);
        assert(b[0] ^ w[0] == 1u8);
        crate::bits::lemma_pop8_one();
        crate::bits::lemma_hamming_upto_term(b, w, b.len() as int, 0);
        assert(hamming(b, w) >= 1);
        // Objective pairs of the current and the flipped word.
        lemma_hamming_sym(a, b);
        assert(cd_full(s, lo, lo, a, lo) == no_neighbor());
        assert(cd_full(s, lo, lo + 1, a, lo) == no_neighbor());
        assert(cd_full(s, lo, hi, a, lo) == min2(no_neighbor(), hamming(b, a)));
        assert(cd_full(s, lo, hi, a, lo) == 0);
        assert(cd_full(s, lo, lo, w, lo) == no_neighbor());
        assert(cd_full(s, lo, lo + 1, w, lo) == no_neighbor());
        assert(cd_full(s, lo, hi, w, lo) == min2(no_neighbor(), hamming(b, w)));
        assert(cd_full(s, lo, hi, w, lo) >= 1);
        assert(improves(s, lo, hi, lo, w));
        // Convergence forbids exactly this move.
        assert(locally_optimal_at(s, lo, hi, lo));
        assert(0 <= 0 < a.len());
        assert(false);
    }
    if a == b {
        crate::bits::lemma_hamming_self(a);
    }
}

/// An exclusion index outside the scanned range does not matter.
proof fn lemma_cd_excl_outside(s: Seq<Seq<u8>>, lo: int, n: int, w: Seq<u8>, ix: int, iy: int)
    requires
        !(lo <= ix < n),
        !(lo <= iy < n),
    ensures
        cd_full(s, lo, n, w, ix) == cd_full(s, lo, n, w, iy),
    decreases n - lo,
{
    if n > lo {
        lemma_cd_excl_outside(s, lo, n - 1, w, ix, iy);
    }
}

/// Splitting the excluded position out of an unrestricted minimum.
proof fn lemma_cd_split(s: Seq<Seq<u8>>, lo: int, n: int, w: Seq<u8>, ix: int)
    requires
        0 <= lo <= ix < n,
    ensures
        cd_full(s, lo, n, w, -1) == min2(cd_full(s, lo, n, w, ix), hamming(s[ix], w)),
    decreases n - lo,
{
    if n - 1 == ix {
        lemma_cd_excl_outside(s, lo, n - 1, w, ix, -1);
    } else {
        lemma_cd_split(s, lo, n - 1, w, ix);
    }
}

/// Replacing the excluded word leaves the minimum unchanged.
pub(crate) proof fn lemma_cd_update(s: Seq<Seq<u8>>, lo: int, n: int, w: Seq<u8>, ix: int, v: Seq<u8>)
    requires
        0 <= lo,
        n <= s.len(),
        0 <= ix < s.len(),
    ensures
        cd_full(s.update(ix, v), lo, n, w, ix) == cd_full(s, lo, n, w, ix),
    decreases n - lo,
{
    if n > lo {
        lemma_cd_update(s, lo, n - 1, w, ix, v);
    }
}

/// Replacing the excluded word leaves the sum unchanged.
pub(crate) proof fn lemma_sd_update(s: Seq<Seq<u8>>, lo: int, n: int, w: Seq<u8>, ix: int, v: Seq<u8>)
    requires
        0 <= lo,
        n <= s.len(),
        0 <= ix < s.len(),
    ensures
        sd_full(s.update(ix, v), lo, n, w, ix) == sd_full(s, lo, n, w, ix),
    decreases n - lo,
{
    if n > lo {
        lemma_sd_update(s, lo, n - 1, w, ix, v);
    }
}

proof fn lemma_mp_excl_outside(s: Seq<Seq<u8>>, lo: int, n: int, ix: int, iy: int)
    requires
        0 <= lo,
        !(lo <= ix < n),
        !(lo <= iy < n),
    ensures
        mp_excl(s, lo, n, ix) == mp_excl(s, lo, n, iy),
    decreases n - lo,
{
    if n > lo {
        lemma_mp_excl_outside(s, lo, n - 1, ix, iy);
        lemma_cd_excl_outside(s, lo, n - 1, s[n - 1], ix, iy);
    }
}

proof fn lemma_mp_excl_update(s: Seq<Seq<u8>>, lo: int, n: int, ix: int, v: Seq<u8>)
    requires
        0 <= lo,
        n <= s.len(),
        0 <= ix < s.len(),
    ensures
        mp_excl(s.update(ix, v), lo, n, ix) == mp_excl(s, lo, n, ix),
    decreases n - lo,
{
    if n > lo {
        lemma_mp_excl_update(s, lo, n - 1, ix, v);
        if n - 1 != ix {
            lemma_cd_update(s, lo, n - 1, s[n - 1], ix, v);
        }
    }
}

/// The pairwise minimum of a range splits into the pairs avoiding `ix`
/// and the closest distance of the word at `ix`.
proof fn lemma_mp_decompose(s: Seq<Seq<u8>>, lo: int, hi: int, ix: int)
    requires
        0 <= lo <= ix < hi <= s.len(),
        uniform_width(s, lo, hi),
    ensures
        min_pairwise(s, lo, hi) == min2(mp_excl(s, lo, hi, ix), cd_full(s, lo, hi, s[ix], ix)),
    decreases hi - lo,
{
    if hi == ix + 1 {
        lemma_mp_excl_outside(s, lo, ix, ix, -1);
        lemma_cd_excl_outside(s, lo, ix, s[ix], ix, -1);
    } else {
        assert(uniform_width(s, lo, hi - 1));
        lemma_mp_decompose(s, lo, hi - 1, ix);
        lemma_cd_split(s, lo, hi - 1, s[hi - 1], ix);
        lemma_hamming_sym(s[ix], s[hi - 1]);
    }
}

/// Replacing the word at `ix` by one whose closest distance to the rest
/// is no smaller never lowers the pairwise minimum of the range.
pub proof fn lemma_move_keeps_min_pairwise(
    s: Seq<Seq<u8>>,
    lo: int,
    hi: int,
    ix: int,
    v: Seq<u8>,
)
    requires
        0 <= lo <= ix < hi <= s.len(),
        uniform_width(s, lo, hi),
        v.len() == s[ix].len(),
        cd_full(s, lo, hi, v, ix) >= cd_full(s, lo, hi, s[ix], ix),
    ensures
        min_pairwise(s.update(ix, v), lo, hi) >= min_pairwise(s, lo, hi),
        uniform_width(s.update(ix, v), lo, hi),
{
    let s2 = s.update(ix, v);
    assert(word_width(s2, lo, hi) == word_width(s, lo, hi));
    assert forall|i: int| lo <= i < hi implies s2[i].len() == word_width(s2, lo, hi) by {
        assert(s[i].len() == word_width(s, lo, hi));
    }
    lemma_mp_decompose(s, lo, hi, ix);
    lemma_mp_decompose(s2, lo, hi, ix);
    lemma_mp_excl_update(s, lo, hi, ix, v);
    lemma_cd_update(s, lo, hi, v, ix, v);
}

/// The minimum over a range is no greater than any scanned distance.
proof fn lemma_cd_le_elem(s: Seq<Seq<u8>>, lo: int, n: int, w: Seq<u8>, ix: int, j: int)
    requires
        lo <= j < n,
        j != ix,
    ensures
        cd_full(s, lo, n, w, ix) <= hamming(s[j], w),
    decreases n - lo,
{
    if n - 1 != j {
        lemma_cd_le_elem(s, lo, n - 1, w, ix, j);
    }
}

/// With at least one neighbour in range, the closest distance is a real
/// distance and so lies within the width bound.
pub proof fn lemma_cd_le_width(s: Seq<Seq<u8>>, lo: int, hi: int, w: Seq<u8>, ix: int)
    requires
        0 <= lo,
        hi - lo >= 2,
        hi <= s.len(),
        lo <= ix < hi,
        uniform_width(s, lo, hi),
    ensures
        cd_full(s, lo, hi, w, ix) <= 8 * word_width(s, lo, hi),
{
    let j: int = if ix == lo {
        lo + 1
    } else {
        lo
    };
    lemma_cd_le_elem(s, lo, hi, w, ix, j);
    lemma_hamming_bounds(s[j], w);
    assert(s[j].len() == word_width(s, lo, hi));
}

/// The distance sum over a range of words of equal width is bounded by
/// the width of the range times the widest possible distance.
pub proof fn lemma_sd_le(s: Seq<Seq<u8>>, lo: int, n: int, w: Seq<u8>, ix: int, wid: nat)
    requires
        0 <= lo <= n,
        forall|i: int| lo <= i < n ==> s[i].len() == wid,
    ensures
        sd_full(s, lo, n, w, ix) <= 8 * wid * (n - lo),
    decreases n - lo,
{
    if n > lo {
        lemma_sd_le(s, lo, n - 1, w, ix, wid);
        if n - 1 != ix {
            lemma_hamming_bounds(s[n - 1], w);
        }
        assert(8 * wid * (n - 1 - lo) + 8 * wid == 8 * wid * (n - lo)) by (nonlinear_arith);
    }
}

/// Multiplication keeps order on non-negative values.
pub proof fn lemma_mul_le(a: int, b: int, c: int)
    requires
        0 <= a,
        0 <= b <= c,
    ensures
        a * b <= a * c,
{
    assert(a * b <= a * c) by (nonlinear_arith)
        requires
            0 <= a,
            0 <= b <= c,
    ;
}

/// The current objective pair of `word` against the range `[lo, hi)` of
/// the codebook, the position `ignore` excluded: its closest distance to
/// the other words first, the sum of the distances second.
pub(crate) fn closest_distance_sum_distances(
    dict: &Vec<Codeword>,
    word: &Codeword,
    ignore: usize,
    lo: usize,
    hi: usize,
) -> (r: (u64, u64))
    requires
        lo <= hi <= dict@.len(),
        forall|i: int| lo <= i < hi ==> views(dict@)[i].len() == word@.len(),
        8 * word@.len() * (hi - lo) <= u64::MAX,
    ensures
        r.0 as nat == cd_full(views(dict@), lo as int, hi as int, word@, ignore as int),
        r.1 as nat == sd_full(views(dict@), lo as int, hi as int, word@, ignore as int),
{
    let ghost s = views(dict@);
    let mut closest: u64 = u64::MAX;
    let mut sum: u64 = 0;
    let mut j: usize = lo;
    while j < hi
        invariant
            lo <= j <= hi <= dict@.len(),
            s == views(dict@),
            forall|i: int| lo <= i < hi ==> s[i].len() == word@.len(),
            8 * word@.len() * (hi - lo) <= u64::MAX,
            closest as nat == cd_full(s, lo as int, j as int, word@, ignore as int),
            sum as nat == sd_full(s, lo as int, j as int, word@, ignore as int),
            sum as int <= 8 * word@.len() * (j - lo),
        decreases hi - j,
    {
        if j != ignore {
            proof {
                assert(8 * word@.len() * 1 <= 8 * word@.len() * (hi - lo)) by (nonlinear_arith)
                    requires
                        hi - lo >= 1,
                        word@.len() >= 0,
                ;
                assert(s[j as int] == dict@[j as int]@);
            }
            let d = dict[j].distance(word);
            proof {
                assert(8 * word@.len() * (j - lo) + 8 * word@.len() == 8 * word@.len() * (j + 1
                    - lo)) by (nonlinear_arith);
                lemma_mul_le(8 * word@.len() as int, j + 1 - lo, hi - lo);
            }
            sum = sum + d;
            if d < closest {
                closest = d;
            }
        }
        proof {
            lemma_mul_le(8 * word@.len() as int, j - lo, j + 1 - lo);
        }
        j = j + 1;
    }
    (closest, sum)
}

} // verus!
