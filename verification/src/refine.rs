//! The local-search refiner.
//!
//! A refinement pass sweeps every position of a codebook range. At each
//! position it scans all single-bit flips of the codeword in a fixed
//! order (byte 0 to byte B-1, bit 0 to bit 7) and commits the first flip
//! whose objective pair is lexicographically greater, restarting the scan
//! from the first bit; when no flip improves, it advances. Sweeps repeat
//! until one of them accepts no move: then every position is locally
//! optimal and the range is converged.

use vstd::prelude::*;
use crate::bits::{hamming, lemma_hamming_bounds, lemma_hamming_sym};
use crate::codeword::{flip, Codeword};
use crate::metric::{
    cd_full, closest_distance_sum_distances, converged, first_improving_flip, improves,
    lemma_cd_le_width, lemma_cd_update, lemma_converged_small, lemma_move_keeps_min_pairwise,
    lemma_converged_pair_distinct, lemma_pair_objective, lemma_sd_le, lemma_sd_update,
    lemma_views_update, locally_optimal_at, min_pairwise, no_neighbor, sd_full, sum_fits,
    uniform_width, views, word_width,
};

verus! {

/// How many sweeps a refinement run may spend before giving up: more
/// than any physical run can perform.
pub open spec fn sweep_budget() -> nat {
    u64::MAX as nat
}

/// Whether some single-bit flip of the word at `ix` improves its
/// objective pair — equivalently, whether a first improving flip exists.
pub open spec fn has_improving_flip(s: Seq<Seq<u8>>, lo: int, hi: int, ix: int) -> bool {
    exists|byte: int, bit: u8| first_improving_flip(s, lo, hi, ix, byte, bit)
}

/// The codebook after committing the first improving flip at `ix`, or
/// `None` when the position is locally optimal. Well defined because at
/// most one flip is first in the scan order (`lemma_first_flip_unique`).
pub open spec fn step_at(s: Seq<Seq<u8>>, lo: int, hi: int, ix: int) -> Option<Seq<Seq<u8>>> {
    if has_improving_flip(s, lo, hi, ix) {
        let (byte, bit) = choose|byte: int, bit: u8|
            first_improving_flip(s, lo, hi, ix, byte, bit);
        Some(s.update(ix, flip(s[ix], byte, bit)))
    } else {
        None
    }
}

/// The index bounds and width uniformity under which one refinement
/// step is meaningful.
pub open spec fn wf_range(s: Seq<Seq<u8>>, lo: int, hi: int, ix: int) -> bool {
    0 <= lo && lo <= ix < hi && hi <= s.len() && uniform_width(s, lo, hi)
}

/// Only one flip can be first in the byte-major, bit-minor scan order.
pub proof fn lemma_first_flip_unique(
    s: Seq<Seq<u8>>,
    lo: int,
    hi: int,
    ix: int,
    b1: int,
    t1: u8,
    b2: int,
    t2: u8,
)
    requires
        first_improving_flip(s, lo, hi, ix, b1, t1),
        first_improving_flip(s, lo, hi, ix, b2, t2),
    ensures
        b1 == b2 && t1 == t2,
{
    if b1 < b2 || (b1 == b2 && t1 < t2) {
        assert(!improves(s, lo, hi, ix, flip(s[ix], b1, t1)));
        assert(false);
    }
    if b2 < b1 || (b1 == b2 && t2 < t1) {
        assert(!improves(s, lo, hi, ix, flip(s[ix], b2, t2)));
        assert(false);
    }
}

/// A locally optimal position admits no improving flip at all.
pub proof fn lemma_optimal_no_flip(s: Seq<Seq<u8>>, lo: int, hi: int, ix: int)
    requires
        locally_optimal_at(s, lo, hi, ix),
    ensures
        !has_improving_flip(s, lo, hi, ix),
{
    if has_improving_flip(s, lo, hi, ix) {
        let (byte, bit) = choose|byte: int, bit: u8|
            first_improving_flip(s, lo, hi, ix, byte, bit);
        assert(improves(s, lo, hi, ix, flip(s[ix], byte, bit)));
        assert(false);
    }
}

/// The position `ix` brought to its local optimum: first improving
/// flips committed one after the other until none exists. The flag says
/// whether any flip was committed. Terminates because every committed
/// flip strictly raises the position's bounded objective pair.
pub open spec fn refine_position_spec(s: Seq<Seq<u8>>, lo: int, hi: int, ix: int) -> (Seq<
    Seq<u8>,
>, bool)
    decreases
            8 * word_width(s, lo, hi) - cd_full(s, lo, hi, s[ix], ix),
            8 * word_width(s, lo, hi) * (hi - lo) - sd_full(s, lo, hi, s[ix], ix),
    when wf_range(s, lo, hi, ix)
    via refine_position_spec_decreases
{
    match step_at(s, lo, hi, ix) {
        None => (s, false),
        Some(s2) => (refine_position_spec(s2, lo, hi, ix).0, true),
    }
}

#[via_fn]
proof fn refine_position_spec_decreases(s: Seq<Seq<u8>>, lo: int, hi: int, ix: int) {
    if wf_range(s, lo, hi, ix) && has_improving_flip(s, lo, hi, ix) {
        let (byte, bit) = choose|byte: int, bit: u8|
            first_improving_flip(s, lo, hi, ix, byte, bit);
        let v = flip(s[ix], byte, bit);
        assert(improves(s, lo, hi, ix, v));
        if hi - lo < 2 {
            assert(cd_full(s, lo, lo, v, ix) == no_neighbor());
            assert(cd_full(s, lo, lo, s[ix], ix) == no_neighbor());
            assert(sd_full(s, lo, lo, v, ix) == 0);
            assert(sd_full(s, lo, lo, s[ix], ix) == 0);
            assert(false);
        }
        lemma_move_keeps_min_pairwise(s, lo, hi, ix, v);
        lemma_cd_update(s, lo, hi, v, ix, v);
        lemma_sd_update(s, lo, hi, v, ix, v);
        let s2 = s.update(ix, v);
        assert(word_width(s2, lo, hi) == word_width(s, lo, hi));
        lemma_cd_le_width(s2, lo, hi, s2[ix], ix);
        lemma_sd_le(s2, lo, hi, s2[ix], ix, word_width(s2, lo, hi));
    }
}

/// One sweep: every position of `[ix, hi)` brought to its local
/// optimum, left to right. The flag says whether any position moved.
pub open spec fn sweep_spec(s: Seq<Seq<u8>>, lo: int, hi: int, ix: int) -> (Seq<Seq<u8>>, bool)
    decreases hi - ix,
{
    if ix < lo || ix >= hi {
        (s, false)
    } else {
        let r = refine_position_spec(s, lo, hi, ix);
        let rest = sweep_spec(r.0, lo, hi, ix + 1);
        (rest.0, r.1 || rest.1)
    }
}

/// A whole refinement run: sweeps repeated until one of them moves
/// nothing, or until `fuel` sweeps have been spent. With the sweep
/// budget for fuel this is exactly what the refiner computes, so every
/// refinement result is a function of its input content and range.
pub open spec fn refine_spec(s: Seq<Seq<u8>>, lo: int, hi: int, fuel: nat) -> Seq<Seq<u8>>
    decreases fuel,
{
    if fuel == 0 {
        s
    } else {
        let sw = sweep_spec(s, lo, hi, lo);
        if sw.1 {
            refine_spec(sw.0, lo, hi, (fuel - 1) as nat)
        } else {
            s
        }
    }
}

/// The first single-bit flip of the codeword at `ix` that strictly
/// improves its objective pair over the range `[lo, hi)`, scanned byte
/// by byte and bit by bit; `None` when no flip improves, which makes the
/// position locally optimal.
pub(crate) fn first_improvement(dict: &Vec<Codeword>, lo: usize, hi: usize, ix: usize) -> (r:
    Option<Codeword>)
    requires
        lo <= hi <= dict@.len(),
        lo <= ix < hi,
        uniform_width(views(dict@), lo as int, hi as int),
        sum_fits(views(dict@), lo as int, hi as int),
    ensures
        r is None ==> locally_optimal_at(views(dict@), lo as int, hi as int, ix as int),
        r is None ==> step_at(views(dict@), lo as int, hi as int, ix as int) is None,
        r matches Some(w) ==> improves(views(dict@), lo as int, hi as int, ix as int, w@),
        r matches Some(w) ==> w@.len() == views(dict@)[ix as int].len(),
        r matches Some(w) ==> exists|byte: int, bit: u8|
            first_improving_flip(views(dict@), lo as int, hi as int, ix as int, byte, bit) && w@
                == flip(views(dict@)[ix as int], byte, bit),
        r matches Some(w) ==> step_at(views(dict@), lo as int, hi as int, ix as int) == Some(
            views(dict@).update(ix as int, w@),
        ),
{
    let ghost s = views(dict@);
    proof {
        assert(s[ix as int] == dict@[ix as int]@);
        assert(s[ix as int].len() == word_width(s, lo as int, hi as int));
    }
    let width = dict[ix].width();
    let (cd0, sd0) = closest_distance_sum_distances(dict, &dict[ix], ix, lo, hi);
    let mut byte: usize = 0;
    while byte < width
        invariant
            lo <= hi <= dict@.len(),
            lo <= ix < hi,
            s == views(dict@),
            uniform_width(s, lo as int, hi as int),
            sum_fits(s, lo as int, hi as int),
            width == s[ix as int].len(),
            byte <= width,
            cd0 as nat == cd_full(s, lo as int, hi as int, s[ix as int], ix as int),
            sd0 as nat == sd_full(s, lo as int, hi as int, s[ix as int], ix as int),
            forall|b: int, t: u8|
                0 <= b < byte && t < 8 ==> !improves(
                    s,
                    lo as int,
                    hi as int,
                    ix as int,
                    flip(s[ix as int], b, t),
                ),
        decreases width - byte,
    {
        let mut bit: u8 = 0;
        while bit < 8
            invariant
                lo <= hi <= dict@.len(),
                lo <= ix < hi,
                s == views(dict@),
                uniform_width(s, lo as int, hi as int),
                sum_fits(s, lo as int, hi as int),
                width == s[ix as int].len(),
                byte < width,
                bit <= 8,
                cd0 as nat == cd_full(s, lo as int, hi as int, s[ix as int], ix as int),
                sd0 as nat == sd_full(s, lo as int, hi as int, s[ix as int], ix as int),
                forall|b: int, t: u8|
                    0 <= b < byte && t < 8 ==> !improves(
                        s,
                        lo as int,
                        hi as int,
                        ix as int,
                        flip(s[ix as int], b, t),
                    ),
                forall|t: u8|
                    t < bit ==> !improves(
                        s,
                        lo as int,
                        hi as int,
                        ix as int,
                        flip(s[ix as int], byte as int, t),
                    ),
            decreases 8 - bit,
        {
            let mut cand = dict[ix].duplicate();
            cand.flip_bit(byte, bit);
            proof {
                assert(cand@ == flip(s[ix as int], byte as int, bit));
                assert(cand@.len() == s[ix as int].len());
            }
            let (cd, sd) = closest_distance_sum_distances(dict, &cand, ix, lo, hi);
            if cd > cd0 || (cd == cd0 && sd > sd0) {
                proof {
                    assert(improves(s, lo as int, hi as int, ix as int, cand@));
                    assert(first_improving_flip(s, lo as int, hi as int, ix as int, byte as int,
                        bit));
                    assert(cand@ == flip(s[ix as int], byte as int, bit));
                    assert(has_improving_flip(s, lo as int, hi as int, ix as int));
                    let (cb, ct) = choose|byte: int, bit: u8|
                        first_improving_flip(s, lo as int, hi as int, ix as int, byte, bit);
                    lemma_first_flip_unique(s, lo as int, hi as int, ix as int, cb, ct,
                        byte as int, bit);
                    assert(step_at(s, lo as int, hi as int, ix as int) == Some(s.update(ix as int,
                        cand@)));
                }
                return Some(cand);
            }
            bit = bit + 1;
        }
        byte = byte + 1;
    }
    proof {
        assert forall|b: int, t: u8| 0 <= b < s[ix as int].len() && t < 8 implies !improves(
            s,
            lo as int,
            hi as int,
            ix as int,
            flip(s[ix as int], b, t),
        ) by {
            assert(0 <= b < byte);
        }
        lemma_optimal_no_flip(s, lo as int, hi as int, ix as int);
    }
    None
}

/// Bring the position `ix` of the range `[lo, hi)` to a local optimum:
/// commit the first improving flip and restart the bit scan until no
/// single-bit flip improves the codeword's objective pair. Reports
/// whether any flip was committed.
fn refine_position(dict: &mut Vec<Codeword>, lo: usize, hi: usize, ix: usize) -> (moved: bool)
    requires
        lo <= hi <= old(dict)@.len(),
        hi - lo >= 2,
        lo <= ix < hi,
        uniform_width(views(old(dict)@), lo as int, hi as int),
        sum_fits(views(old(dict)@), lo as int, hi as int),
    ensures
        final(dict)@.len() == old(dict)@.len(),
        forall|i: int|
            0 <= i < old(dict)@.len() && i != ix ==> views(final(dict)@)[i] == views(old(dict)@)[i],
        views(final(dict)@)[ix as int].len() == views(old(dict)@)[ix as int].len(),
        uniform_width(views(final(dict)@), lo as int, hi as int),
        sum_fits(views(final(dict)@), lo as int, hi as int),
        word_width(views(final(dict)@), lo as int, hi as int) == word_width(
            views(old(dict)@),
            lo as int,
            hi as int,
        ),
        locally_optimal_at(views(final(dict)@), lo as int, hi as int, ix as int),
        min_pairwise(views(final(dict)@), lo as int, hi as int) >= min_pairwise(
            views(old(dict)@),
            lo as int,
            hi as int,
        ),
        !moved ==> views(final(dict)@) == views(old(dict)@),
        locally_optimal_at(views(old(dict)@), lo as int, hi as int, ix as int) ==> !moved,
        views(final(dict)@) == refine_position_spec(
            views(old(dict)@),
            lo as int,
            hi as int,
            ix as int,
        ).0,
        moved == refine_position_spec(views(old(dict)@), lo as int, hi as int, ix as int).1,
        hi - lo == 2 && moved ==> hamming(
            views(final(dict)@)[lo as int],
            views(final(dict)@)[lo as int + 1],
        ) > hamming(views(old(dict)@)[lo as int], views(old(dict)@)[lo as int + 1]),
{
    let ghost s_start = views(old(dict)@);
    let mut moved = false;
    let mut done = false;
    while !done
        invariant
            lo <= hi <= dict@.len(),
            hi - lo >= 2,
            lo <= ix < hi,
            dict@.len() == s_start.len(),
            forall|i: int|
                0 <= i < s_start.len() && i != ix ==> views(dict@)[i] == s_start[i],
            views(dict@)[ix as int].len() == s_start[ix as int].len(),
            uniform_width(views(dict@), lo as int, hi as int),
            sum_fits(views(dict@), lo as int, hi as int),
            word_width(views(dict@), lo as int, hi as int) == word_width(
                s_start,
                lo as int,
                hi as int,
            ),
            min_pairwise(views(dict@), lo as int, hi as int) >= min_pairwise(
                s_start,
                lo as int,
                hi as int,
            ),
            !moved ==> views(dict@) == s_start,
            moved ==> !locally_optimal_at(s_start, lo as int, hi as int, ix as int),
            done ==> locally_optimal_at(views(dict@), lo as int, hi as int, ix as int),
            refine_position_spec(views(dict@), lo as int, hi as int, ix as int).0
                == refine_position_spec(s_start, lo as int, hi as int, ix as int).0,
            (moved || refine_position_spec(views(dict@), lo as int, hi as int, ix as int).1)
                == refine_position_spec(s_start, lo as int, hi as int, ix as int).1,
            done ==> views(dict@) == refine_position_spec(
                s_start,
                lo as int,
                hi as int,
                ix as int,
            ).0,
            hi - lo == 2 && moved ==> hamming(
                views(dict@)[lo as int],
                views(dict@)[lo as int + 1],
            ) > hamming(s_start[lo as int], s_start[lo as int + 1]),
        decreases
            8 * word_width(views(dict@), lo as int, hi as int) - cd_full(
                views(dict@),
                lo as int,
                hi as int,
                views(dict@)[ix as int],
                ix as int,
            ),
            8 * word_width(views(dict@), lo as int, hi as int) * (hi - lo) - sd_full(
                views(dict@),
                lo as int,
                hi as int,
                views(dict@)[ix as int],
                ix as int,
            ),
            (if done { 0int } else { 1int }),
    {
        let r = first_improvement(dict, lo, hi, ix);
        match r {
            None => {
                proof {
                    assert(wf_range(views(dict@), lo as int, hi as int, ix as int));
                    assert(refine_position_spec(views(dict@), lo as int, hi as int, ix as int)
                        == (views(dict@), false));
                }
                done = true;
            },
            Some(w) => {
                proof {
                    let s = views(dict@);
                    let v = w@;
                    if !moved {
                        assert(!locally_optimal_at(s_start, lo as int, hi as int, ix as int));
                    }
                    assert(wf_range(s, lo as int, hi as int, ix as int));
                    assert(step_at(s, lo as int, hi as int, ix as int) == Some(s.update(
                        ix as int,
                        v,
                    )));
                    assert(refine_position_spec(s, lo as int, hi as int, ix as int).0
                        == refine_position_spec(s.update(ix as int, v), lo as int, hi as int,
                        ix as int).0);
                    assert(refine_position_spec(s, lo as int, hi as int, ix as int).1);
                    if hi - lo == 2 {
                        lemma_pair_objective(s, lo as int, hi as int, ix as int, s[ix as int]);
                        lemma_pair_objective(s, lo as int, hi as int, ix as int, v);
                        if ix == lo {
                            lemma_hamming_sym(s[lo as int], s[lo as int + 1]);
                            lemma_hamming_sym(v, s[lo as int + 1]);
                        }
                    }
                    lemma_move_keeps_min_pairwise(s, lo as int, hi as int, ix as int, v);
                    lemma_views_update(dict@, ix as int, w);
                    lemma_cd_update(s, lo as int, hi as int, v, ix as int, v);
                    lemma_sd_update(s, lo as int, hi as int, v, ix as int, v);
                    let s2 = s.update(ix as int, v);
                    lemma_cd_le_width(s2, lo as int, hi as int, s2[ix as int], ix as int);
                    lemma_sd_le(
                        s2,
                        lo as int,
                        hi as int,
                        s2[ix as int],
                        ix as int,
                        word_width(s2, lo as int, hi as int),
                    );
                }
                dict.set(ix, w);
                moved = true;
            },
        }
    }
    proof {
        lemma_optimal_no_flip(views(dict@), lo as int, hi as int, ix as int);
        assert(wf_range(views(dict@), lo as int, hi as int, ix as int));
        assert(refine_position_spec(views(dict@), lo as int, hi as int, ix as int) == (
        views(dict@),
        false,
        ));
    }
    moved
}

/// One whole refinement run over the range `[lo, hi)`: sweep all
/// positions, restarting whenever a sweep accepted a move, until a full
/// sweep changes nothing. The pairwise minimum distance of the range
/// never decreases, and words outside the range are untouched.
///
/// The result is pinned as a function of the input: it equals
/// `refine_spec` of the starting content, so equal inputs provably give
/// equal outputs. The returned flag is a proved certificate: it is true
/// exactly when the returned content is converged — every position
/// locally optimal — and an already-converged range is returned
/// unchanged with the flag set. Bringing one position to its local
/// optimum provably terminates (its objective pair strictly rises and
/// is bounded by the width), but no well-founded measure is known for
/// the sweeps as a whole: a move accepted at one position can lower the
/// objective pair of another, so the claim that a zero-change sweep is
/// always reached stands unproved in general. The sweeps therefore
/// carry an explicit budget of 2^64 - 1 — out of reach of any physical
/// run — and if it were ever exhausted, one read-only scan certifies
/// whether the content converged regardless. For a two-word range the
/// pair's distance itself is a strictly rising bounded measure, so
/// there the flag is proved true and the two words provably distinct.
pub fn generate_dict_stage_2(dict: &mut Vec<Codeword>, lo: usize, hi: usize) -> (done: bool)
    requires
        lo <= hi <= old(dict)@.len(),
        uniform_width(views(old(dict)@), lo as int, hi as int),
        sum_fits(views(old(dict)@), lo as int, hi as int),
    ensures
        final(dict)@.len() == old(dict)@.len(),
        forall|i: int|
            0 <= i < old(dict)@.len() && !(lo <= i < hi) ==> views(final(dict)@)[i] == views(
                old(dict)@,
            )[i],
        forall|i: int|
            lo <= i < hi ==> views(final(dict)@)[i].len() == views(old(dict)@)[i].len(),
        uniform_width(views(final(dict)@), lo as int, hi as int),
        sum_fits(views(final(dict)@), lo as int, hi as int),
        word_width(views(final(dict)@), lo as int, hi as int) == word_width(
            views(old(dict)@),
            lo as int,
            hi as int,
        ),
        done <==> converged(views(final(dict)@), lo as int, hi as int),
        min_pairwise(views(final(dict)@), lo as int, hi as int) >= min_pairwise(
            views(old(dict)@),
            lo as int,
            hi as int,
        ),
        converged(views(old(dict)@), lo as int, hi as int) ==> done && (forall|i: int|
            0 <= i < old(dict)@.len() ==> views(final(dict)@)[i] == views(old(dict)@)[i]),
        views(final(dict)@) == refine_spec(
            views(old(dict)@),
            lo as int,
            hi as int,
            sweep_budget(),
        ),
        hi - lo <= 2 ==> done,
        hi - lo == 2 && word_width(views(old(dict)@), lo as int, hi as int) >= 1 ==> hamming(
            views(final(dict)@)[lo as int],
            views(final(dict)@)[lo as int + 1],
        ) >= 1,
{
    let ghost s0 = views(old(dict)@);
    if hi - lo <= 1 {
        proof {
            lemma_converged_small(s0, lo as int, hi as int);
            if hi - lo == 1 {
                assert(wf_range(s0, lo as int, hi as int, lo as int));
                lemma_optimal_no_flip(s0, lo as int, hi as int, lo as int);
                assert(refine_position_spec(s0, lo as int, hi as int, lo as int) == (s0, false));
                assert(sweep_spec(s0, lo as int, hi as int, lo as int + 1) == (s0, false));
                assert(sweep_spec(s0, lo as int, hi as int, lo as int) == (s0, false));
            } else {
                assert(sweep_spec(s0, lo as int, hi as int, lo as int) == (s0, false));
            }
            assert(refine_spec(s0, lo as int, hi as int, sweep_budget()) == s0);
        }
        return true;
    }
    let mut changed = true;
    let mut fuel: u64 = u64::MAX;
    while changed && fuel > 0
        invariant
            lo <= hi <= dict@.len(),
            hi - lo >= 2,
            dict@.len() == s0.len(),
            forall|i: int|
                0 <= i < s0.len() && !(lo <= i < hi) ==> views(dict@)[i] == s0[i],
            forall|i: int| lo <= i < hi ==> views(dict@)[i].len() == s0[i].len(),
            uniform_width(views(dict@), lo as int, hi as int),
            sum_fits(views(dict@), lo as int, hi as int),
            word_width(views(dict@), lo as int, hi as int) == word_width(s0, lo as int, hi as int),
            min_pairwise(views(dict@), lo as int, hi as int) >= min_pairwise(
                s0,
                lo as int,
                hi as int,
            ),
            !changed ==> converged(views(dict@), lo as int, hi as int),
            converged(s0, lo as int, hi as int) ==> (forall|i: int|
                0 <= i < s0.len() ==> views(dict@)[i] == s0[i]),
            converged(s0, lo as int, hi as int) && changed ==> fuel == u64::MAX,
            changed ==> refine_spec(views(dict@), lo as int, hi as int, fuel as nat)
                == refine_spec(s0, lo as int, hi as int, sweep_budget()),
            !changed ==> views(dict@) == refine_spec(s0, lo as int, hi as int, sweep_budget()),
            hi - lo == 2 && changed ==> u64::MAX as int - fuel as int <= hamming(
                views(dict@)[lo as int],
                views(dict@)[lo as int + 1],
            ) + 1,
        decreases fuel,
    {
        fuel = fuel - 1;
        changed = false;
        let ghost sst = views(dict@);
        let mut ix = lo;
        while ix < hi
            invariant
                lo <= hi <= dict@.len(),
                hi - lo >= 2,
                lo <= ix <= hi,
                dict@.len() == s0.len(),
                forall|i: int|
                    0 <= i < s0.len() && !(lo <= i < hi) ==> views(dict@)[i] == s0[i],
                forall|i: int| lo <= i < hi ==> views(dict@)[i].len() == s0[i].len(),
                uniform_width(views(dict@), lo as int, hi as int),
                sum_fits(views(dict@), lo as int, hi as int),
                word_width(views(dict@), lo as int, hi as int) == word_width(
                    s0,
                    lo as int,
                    hi as int,
                ),
                min_pairwise(views(dict@), lo as int, hi as int) >= min_pairwise(
                    s0,
                    lo as int,
                    hi as int,
                ),
                !changed ==> (forall|k: int|
                    lo <= k < ix ==> locally_optimal_at(views(dict@), lo as int, hi as int, k)),
                converged(s0, lo as int, hi as int) ==> !changed && (forall|i: int|
                    0 <= i < s0.len() ==> views(dict@)[i] == s0[i]),
                fuel < u64::MAX,
                refine_spec(sst, lo as int, hi as int, fuel as nat + 1) == refine_spec(
                    s0,
                    lo as int,
                    hi as int,
                    sweep_budget(),
                ),
                hi - lo == 2 ==> u64::MAX as int - (fuel as int + 1) <= hamming(
                    sst[lo as int],
                    sst[lo as int + 1],
                ) + 1,
                hi - lo == 2 && changed ==> hamming(
                    views(dict@)[lo as int],
                    views(dict@)[lo as int + 1],
                ) > hamming(sst[lo as int], sst[lo as int + 1]),
                sweep_spec(views(dict@), lo as int, hi as int, ix as int).0 == sweep_spec(
                    sst,
                    lo as int,
                    hi as int,
                    lo as int,
                ).0,
                (changed || sweep_spec(views(dict@), lo as int, hi as int, ix as int).1)
                    == sweep_spec(sst, lo as int, hi as int, lo as int).1,
                !changed ==> views(dict@) == sst,
            decreases hi - ix,
        {
            proof {
                if converged(s0, lo as int, hi as int) {
                    assert(views(dict@) =~= s0);
                    assert(locally_optimal_at(views(dict@), lo as int, hi as int, ix as int));
                }
            }
            let ghost before = views(dict@);
            let moved = refine_position(dict, lo, hi, ix);
            proof {
                assert(sweep_spec(before, lo as int, hi as int, ix as int).0 == sweep_spec(
                    views(dict@),
                    lo as int,
                    hi as int,
                    ix as int + 1,
                ).0);
                assert(sweep_spec(before, lo as int, hi as int, ix as int).1 == (moved
                    || sweep_spec(views(dict@), lo as int, hi as int, ix as int + 1).1));
            }
            if moved {
                changed = true;
            }
            ix = ix + 1;
        }
        proof {
            assert(sweep_spec(views(dict@), lo as int, hi as int, hi as int) == (
            views(dict@),
            false,
            ));
            assert(sweep_spec(sst, lo as int, hi as int, lo as int).1 == changed);
            if changed {
                assert(refine_spec(sst, lo as int, hi as int, fuel as nat + 1) == refine_spec(
                    views(dict@),
                    lo as int,
                    hi as int,
                    fuel as nat,
                ));
            } else {
                assert(refine_spec(sst, lo as int, hi as int, fuel as nat + 1) == sst);
            }
        }
    }
    if !changed {
        proof {
            if hi - lo == 2 && word_width(s0, lo as int, hi as int) >= 1 {
                lemma_converged_pair_distinct(views(dict@), lo as int, hi as int);
            }
        }
        return true;
    }
    proof {
        if converged(s0, lo as int, hi as int) {
            assert(fuel == u64::MAX);
            assert(false);
        }
        if hi - lo == 2 {
            // A two-word range cannot outlast the budget: every changing
            // sweep raises the bounded pair distance.
            let cur = views(dict@);
            let wd = word_width(cur, lo as int, hi as int);
            lemma_hamming_bounds(cur[lo as int], cur[lo as int + 1]);
            assert(cur[lo as int].len() == wd);
            assert(8 * wd * 2 == 8 * wd + 8 * wd) by (nonlinear_arith);
            assert(false);
        }
        assert(refine_spec(views(dict@), lo as int, hi as int, fuel as nat) == views(dict@));
    }
    // The sweep budget ran out mid-run: certify the content as it
    // stands, with one read-only scan over all positions.
    let ghost sfin = views(dict@);
    let mut ok = true;
    let mut ix = lo;
    while ix < hi
        invariant
            lo <= hi <= dict@.len(),
            hi - lo >= 2,
            lo <= ix <= hi,
            views(dict@) == sfin,
            uniform_width(views(dict@), lo as int, hi as int),
            sum_fits(views(dict@), lo as int, hi as int),
            ok ==> (forall|k: int|
                lo <= k < ix ==> locally_optimal_at(views(dict@), lo as int, hi as int, k)),
            !ok ==> !converged(views(dict@), lo as int, hi as int),
        decreases hi - ix,
    {
        let r = first_improvement(dict, lo, hi, ix);
        match r {
            None => {},
            Some(w) => {
                proof {
                    let s = views(dict@);
                    let (byte, bit): (int, u8) = choose|byte: int, bit: u8|
                        first_improving_flip(s, lo as int, hi as int, ix as int, byte, bit) && w@
                            == flip(s[ix as int], byte, bit);
                    assert(0 <= byte < s[ix as int].len() && bit < 8 && improves(
                        s,
                        lo as int,
                        hi as int,
                        ix as int,
                        flip(s[ix as int], byte, bit),
                    ));
                    assert(!locally_optimal_at(s, lo as int, hi as int, ix as int));
                    assert(!converged(s, lo as int, hi as int));
                }
                ok = false;
            },
        }
        ix = ix + 1;
    }
    ok
}

} // verus!
