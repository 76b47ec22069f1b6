//! The split search: for a cube, try every axis-aligned cut and keep the
//! one that best separates the colour distribution.
//!
//! The criterion maximised is Wu's between-group term
//! `|m(half)|^2 / count(half) + |m(rest)|^2 / count(rest)`.  The two
//! divisions are carried out in fixed point: both squared norms are scaled
//! by `SCORE_SCALE` before the integer division, so the whole search stays
//! in exact integer arithmetic and is deterministic.

use vstd::prelude::*;
use crate::agg::{box_agg, lemma_box_agg_split, lemma_box_agg_subset, lemma_box_agg_wf};
use crate::colour::Rgb;
use crate::cube::{axis_end, axis_start, box_of, cube_contains, cube_wf, lower_cube, upper_cube,
    ColourCube};
use crate::entry::{em_le, em_msq, em_sub, em_wf, lemma_sq_le, ColourEntry, EntryModel,
    MAX_PIXELS};
use crate::space::{cumulated, ColourSpace};

verus! {

/// Fixed-point scale (2^20) applied to a squared norm before dividing by a
/// count, so that cut scores are compared with twenty fractional bits.
pub const SCORE_SCALE: u64 = 1048576;

/// Is `i` an admissible cut position on axis `d` of the cube?  A cut at
/// `i` separates cells at most `i` from cells above `i`, so it must leave
/// at least one cell layer on each side.
pub open spec fn cut_in_range(cube: ColourCube, d: int, i: int) -> bool {
    0 <= d < 3 && axis_start(cube, d) <= i < axis_end(cube, d)
}

/// Aggregate of the lower half produced by cutting axis `d` at `i`.
pub open spec fn half_agg(pal: Seq<Rgb>, cube: ColourCube, d: int, i: int) -> EntryModel {
    box_agg(pal, box_of(lower_cube(cube, d, i)))
}

/// Aggregate of the rest of the cube above the cut.
pub open spec fn other_agg(pal: Seq<Rgb>, cube: ColourCube, d: int, i: int) -> EntryModel {
    em_sub(box_agg(pal, box_of(cube)), half_agg(pal, cube, d, i))
}

/// A cut is valid when it puts at least one pixel strictly on each side.
pub open spec fn cut_valid(pal: Seq<Rgb>, cube: ColourCube, d: int, i: int) -> bool {
    &&& cut_in_range(cube, d, i)
    &&& 0 < half_agg(pal, cube, d, i).count < box_agg(pal, box_of(cube)).count
}

/// One fixed-point term of the separation criterion.
pub open spec fn score_term(e: EntryModel) -> int {
    em_msq(e) * SCORE_SCALE / e.count
}

/// The separation score of a cut: the criterion Wu's method maximises.
pub open spec fn cut_score(pal: Seq<Rgb>, cube: ColourCube, d: int, i: int) -> int {
    score_term(half_agg(pal, cube, d, i)) + score_term(other_agg(pal, cube, d, i))
}

/// Search order of candidate cuts: red before green before blue, lower cut
/// positions first.
pub open spec fn cut_before(d1: int, i1: int, d2: int, i2: int) -> bool {
    d1 < d2 || (d1 == d2 && i1 < i2)
}

/// No valid cut of the cube has a positive score; together with a count
/// below two this is what makes a cube unsplittable.
pub open spec fn no_positive_cut(pal: Seq<Rgb>, cube: ColourCube) -> bool {
    forall|d: int, i: int| #[trigger] cut_valid(pal, cube, d, i) ==> cut_score(pal, cube, d, i)
        <= 0
}

/// The cut on axis `d` at position `i` is the best one: a valid cut with
/// positive score, no valid cut scores higher, and every earlier
/// candidate scores strictly lower (ties keep the earliest candidate).
pub open spec fn is_best_cut(pal: Seq<Rgb>, cube: ColourCube, d: int, i: int) -> bool {
    &&& cut_valid(pal, cube, d, i)
    &&& cut_score(pal, cube, d, i) > 0
    &&& forall|d2: int, i2: int| #[trigger] cut_valid(pal, cube, d2, i2) ==> cut_score(
        pal,
        cube,
        d2,
        i2,
    ) <= cut_score(pal, cube, d, i)
    &&& forall|d2: int, i2: int|
        #[trigger] cut_valid(pal, cube, d2, i2) && cut_before(d2, i2, d, i) ==> cut_score(
            pal,
            cube,
            d2,
            i2,
        ) < cut_score(pal, cube, d, i)
}

/// Some cut of the cube is a valid positive-score best cut.
pub open spec fn has_best_cut(pal: Seq<Rgb>, cube: ColourCube) -> bool {
    exists|d: int, i: int| is_best_cut(pal, cube, d, i)
}

/// The best cut; meaningful whenever one exists, and then unique.
pub open spec fn best_cut(pal: Seq<Rgb>, cube: ColourCube) -> (int, int) {
    choose|d: int, i: int| is_best_cut(pal, cube, d, i)
}

/// There is at most one best cut: of two distinct candidates one precedes
/// the other in search order, and the two optimality clauses then order
/// their scores both ways.
pub proof fn lemma_best_cut_unique(
    pal: Seq<Rgb>,
    cube: ColourCube,
    d1: int,
    i1: int,
    d2: int,
    i2: int,
)
    requires
        is_best_cut(pal, cube, d1, i1),
        is_best_cut(pal, cube, d2, i2),
    ensures
        d1 == d2 && i1 == i2,
{
    if !(d1 == d2 && i1 == i2) {
        if cut_before(d1, i1, d2, i2) {
            assert(cut_valid(pal, cube, d1, i1));
            assert(cut_valid(pal, cube, d2, i2));
            assert(cut_score(pal, cube, d1, i1) < cut_score(pal, cube, d2, i2));
            assert(cut_score(pal, cube, d2, i2) <= cut_score(pal, cube, d1, i1));
        } else {
            assert(cut_before(d2, i2, d1, i1));
            assert(cut_valid(pal, cube, d1, i1));
            assert(cut_valid(pal, cube, d2, i2));
            assert(cut_score(pal, cube, d2, i2) < cut_score(pal, cube, d1, i1));
            assert(cut_score(pal, cube, d1, i1) <= cut_score(pal, cube, d2, i2));
        }
    }
}

/// The pair `(lo, hi)` is the outcome of cutting `cube` at its best cut
/// `(d, i)`.
pub open spec fn split_at(
    pal: Seq<Rgb>,
    cube: ColourCube,
    d: int,
    i: int,
    lo: ColourCube,
    hi: ColourCube,
) -> bool {
    &&& is_best_cut(pal, cube, d, i)
    &&& lo == lower_cube(cube, d, i)
    &&& hi == upper_cube(cube, d, i)
}

/// What a successful split guarantees: two well-formed, non-empty child
/// cubes that partition the parent's cells, produced by the best cut.
pub open spec fn split_success(pal: Seq<Rgb>, cube: ColourCube, lo: ColourCube, hi: ColourCube)
    -> bool {
    &&& cube_wf(lo)
    &&& cube_wf(hi)
    &&& box_agg(pal, box_of(lo)).count >= 1
    &&& box_agg(pal, box_of(hi)).count >= 1
    &&& forall|r: int, g: int, b: int|
        #[trigger] cube_contains(cube, r, g, b) <==> (cube_contains(lo, r, g, b) || cube_contains(
            hi,
            r,
            g,
            b,
        ))
    &&& forall|r: int, g: int, b: int|
        !(#[trigger] cube_contains(lo, r, g, b) && cube_contains(hi, r, g, b))
    &&& exists|d: int, i: int| split_at(pal, cube, d, i, lo, hi)
}

/// Floor of a cube's variance, used as its queue priority: the second
/// moment minus the squared norm of the first moment over the count,
/// clamped at zero (integer division may round the subtrahend down).
pub open spec fn spec_priority(e: EntryModel) -> int {
    if e.count >= 1 && em_msq(e) / e.count <= e.m2 {
        e.m2 - em_msq(e) / e.count
    } else {
        0
    }
}

/// State of the running best candidate once every cut before boundary
/// `(bd_lim, bi_lim)` in search order has been considered.
pub open spec fn best_state(
    pal: Seq<Rgb>,
    cube: ColourCube,
    best: Option<(ColourCube, ColourCube)>,
    score: int,
    bd: int,
    bi: int,
    d_lim: int,
    i_lim: int,
) -> bool {
    match best {
        Option::None => {
            &&& score == 0
            &&& forall|d2: int, i2: int|
                #[trigger] cut_valid(pal, cube, d2, i2) && cut_before(d2, i2, d_lim, i_lim)
                    ==> cut_score(pal, cube, d2, i2) <= 0
        },
        Option::Some(pair) => {
            &&& cut_valid(pal, cube, bd, bi)
            &&& cut_before(bd, bi, d_lim, i_lim)
            &&& score == cut_score(pal, cube, bd, bi)
            &&& score > 0
            &&& pair.0 == lower_cube(cube, bd, bi)
            &&& pair.1 == upper_cube(cube, bd, bi)
            &&& forall|d2: int, i2: int|
                #[trigger] cut_valid(pal, cube, d2, i2) && cut_before(d2, i2, d_lim, i_lim)
                    ==> cut_score(pal, cube, d2, i2) <= score
            &&& forall|d2: int, i2: int|
                #[trigger] cut_valid(pal, cube, d2, i2) && cut_before(d2, i2, bd, bi) ==> cut_score(
                    pal,
                    cube,
                    d2,
                    i2,
                ) < score
        },
    }
}

/// Integer division by a positive divisor never exceeds the dividend.
pub proof fn lemma_div_le_num(x: int, d: int)
    requires
        0 <= x,
        1 <= d,
    ensures
        0 <= x / d <= x,
{
    assert(0 <= x / d <= x) by (nonlinear_arith)
        requires
            0 <= x && 1 <= d,
    ;
}

impl ColourSpace<ColourEntry> {
    /// The queue priority of a cube: the floor of its variance, zero if
    /// the subtrahend rounds past the second moment.
    pub(crate) fn variance(&self, cube: &ColourCube, Ghost(pal): Ghost<Seq<Rgb>>) -> (v: u64)
        requires
            self.wf(),
            cumulated(self@, pal),
            cube_wf(*cube),
            pal.len() <= MAX_PIXELS,
            box_agg(pal, box_of(*cube)).count >= 1,
        ensures
            v == spec_priority(box_agg(pal, box_of(*cube))),
    {
        let e = self.query(cube, Ghost(pal));
        proof {
            lemma_box_agg_wf(pal, box_of(*cube));
            lemma_sq_le(e.m_r as int, 255 * MAX_PIXELS as int);
            lemma_sq_le(e.m_g as int, 255 * MAX_PIXELS as int);
            lemma_sq_le(e.m_b as int, 255 * MAX_PIXELS as int);
        }
        let msq: u128 = (e.m_r as u128) * (e.m_r as u128) + (e.m_g as u128) * (e.m_g as u128) + (
        e.m_b as u128) * (e.m_b as u128);
        let q: u128 = msq / (e.count as u128);
        if q <= e.m2 as u128 {
            (e.m2 as u128 - q) as u64
        } else {
            0
        }
    }

    /// Search all three axes and every interior cut for the split that
    /// maximises the separation criterion; return the two child cubes, or
    /// nothing when the cube holds at most one pixel or no cut separates
    /// anything.
    pub(crate) fn split(&self, cube: &ColourCube, Ghost(pal): Ghost<Seq<Rgb>>) -> (res: Option<
        (ColourCube, ColourCube),
    >)
        requires
            self.wf(),
            cumulated(self@, pal),
            cube_wf(*cube),
            pal.len() <= MAX_PIXELS,
        ensures
            match res {
                Option::Some(pair) => split_success(pal, *cube, pair.0, pair.1),
                Option::None => box_agg(pal, box_of(*cube)).count <= 1 || no_positive_cut(
                    pal,
                    *cube,
                ),
            },
    {
        let whole = self.query(cube, Ghost(pal));
        proof {
            lemma_box_agg_wf(pal, box_of(*cube));
        }
        if whole.count <= 1 {
            return Option::None;
        }
        let mut best: Option<(ColourCube, ColourCube)> = Option::None;
        let mut best_score: u128 = 0;
        let ghost mut bd: int = 0;
        let ghost mut bi: int = 0;
        let mut d: usize = 0;
        while d < 3
            invariant
                self.wf(),
                cumulated(self@, pal),
                cube_wf(*cube),
                pal.len() <= MAX_PIXELS,
                d <= 3,
                whole@ == box_agg(pal, box_of(*cube)),
                whole.count > 1,
                best_state(pal, *cube, best, best_score as int, bd, bi, d as int, 0),
            decreases 3 - d,
        {
            let (lo_ax, hi_ax): (u8, u8) = if d == 0 {
                (cube.start.r, cube.end.r)
            } else if d == 1 {
                (cube.start.g, cube.end.g)
            } else {
                (cube.start.b, cube.end.b)
            };
            proof {
                assert(lo_ax == axis_start(*cube, d as int) && hi_ax == axis_end(*cube, d as int));
            }
            let mut i: usize = lo_ax as usize;
            while i < hi_ax as usize
                invariant_except_break
                    self.wf(),
                    cumulated(self@, pal),
                    cube_wf(*cube),
                    pal.len() <= MAX_PIXELS,
                    d < 3,
                    lo_ax == axis_start(*cube, d as int),
                    hi_ax == axis_end(*cube, d as int),
                    lo_ax as usize <= i,
                    whole@ == box_agg(pal, box_of(*cube)),
                    whole.count > 1,
                    best_state(pal, *cube, best, best_score as int, bd, bi, d as int, i as int),
                ensures
                    self.wf(),
                    cumulated(self@, pal),
                    whole@ == box_agg(pal, box_of(*cube)),
                    whole.count > 1,
                    best_state(pal, *cube, best, best_score as int, bd, bi, d + 1, 0),
                decreases hi_ax as int - i,
            {
                let ghost di = d as int;
                let ghost ii = i as int;
                let lower = if d == 0 {
                    ColourCube { start: cube.start, end: Rgb { r: i as u8, g: cube.end.g, b: cube.end.b } }
                } else if d == 1 {
                    ColourCube { start: cube.start, end: Rgb { r: cube.end.r, g: i as u8, b: cube.end.b } }
                } else {
                    ColourCube { start: cube.start, end: Rgb { r: cube.end.r, g: cube.end.g, b: i as u8 } }
                };
                proof {
                    assert(lower == lower_cube(*cube, di, ii));
                    lemma_box_agg_subset(pal, box_of(lower), box_of(*cube));
                    lemma_box_agg_wf(pal, box_of(lower));
                }
                let half = self.query(&lower, Ghost(pal));
                if half.count == 0 {
                    proof {
                        assert(!cut_valid(pal, *cube, di, ii));
                        assert forall|d2: int, i2: int|
                            #[trigger] cut_valid(pal, *cube, d2, i2) && cut_before(
                                d2,
                                i2,
                                di,
                                ii + 1,
                            ) implies cut_before(d2, i2, di, ii) by {}
                    }
                } else if half.count == whole.count {
                    proof {
                        assert forall|i2: int| ii <= i2 < hi_ax implies !cut_valid(
                            pal,
                            *cube,
                            di,
                            i2,
                        ) by {
                            lemma_box_agg_subset(
                                pal,
                                box_of(lower_cube(*cube, di, ii)),
                                box_of(lower_cube(*cube, di, i2)),
                            );
                            lemma_box_agg_subset(
                                pal,
                                box_of(lower_cube(*cube, di, i2)),
                                box_of(*cube),
                            );
                        }
                        assert forall|d2: int, i2: int|
                            #[trigger] cut_valid(pal, *cube, d2, i2) && cut_before(d2, i2, di + 1, 0)
                            implies cut_before(d2, i2, di, ii) by {}
                    }
                    break;
                } else {
                    let upper = if d == 0 {
                        ColourCube {
                            start: Rgb { r: (i + 1) as u8, g: cube.start.g, b: cube.start.b },
                            end: cube.end,
                        }
                    } else if d == 1 {
                        ColourCube {
                            start: Rgb { r: cube.start.r, g: (i + 1) as u8, b: cube.start.b },
                            end: cube.end,
                        }
                    } else {
                        ColourCube {
                            start: Rgb { r: cube.start.r, g: cube.start.g, b: (i + 1) as u8 },
                            end: cube.end,
                        }
                    };
                    proof {
                        assert(upper == upper_cube(*cube, di, ii));
                        assert(cut_valid(pal, *cube, di, ii));
                    }
                    let mut other = whole;
                    other.sub_inplace(&half);
                    proof {
                        assert(other@ == other_agg(pal, *cube, di, ii));
                        lemma_box_agg_wf(pal, box_of(*cube));
                        lemma_sq_le(half.m_r as int, 255 * MAX_PIXELS as int);
                        lemma_sq_le(half.m_g as int, 255 * MAX_PIXELS as int);
                        lemma_sq_le(half.m_b as int, 255 * MAX_PIXELS as int);
                        lemma_sq_le(other.m_r as int, 255 * MAX_PIXELS as int);
                        lemma_sq_le(other.m_g as int, 255 * MAX_PIXELS as int);
                        lemma_sq_le(other.m_b as int, 255 * MAX_PIXELS as int);
                    }
                    let msq_h: u128 = (half.m_r as u128) * (half.m_r as u128) + (half.m_g as u128)
                        * (half.m_g as u128) + (half.m_b as u128) * (half.m_b as u128);
                    let msq_o: u128 = (other.m_r as u128) * (other.m_r as u128) + (
                    other.m_g as u128) * (other.m_g as u128) + (other.m_b as u128) * (
                    other.m_b as u128);
                    proof {
                        assert(msq_h == em_msq(half@) && msq_o == em_msq(other@));
                        assert(msq_h <= 3 * ((255 * MAX_PIXELS as int) * (255 * MAX_PIXELS as int)));
                        assert(msq_o <= 3 * ((255 * MAX_PIXELS as int) * (255 * MAX_PIXELS as int)));
                        lemma_div_le_num(
                            (msq_h * SCORE_SCALE as u128) as int,
                            half.count as int,
                        );
                        lemma_div_le_num(
                            (msq_o * SCORE_SCALE as u128) as int,
                            other.count as int,
                        );
                    }
                    proof {
                        vstd::arithmetic::mul::lemma_mul_upper_bound(
                            msq_h as int,
                            3 * ((255 * MAX_PIXELS as int) * (255 * MAX_PIXELS as int)),
                            SCORE_SCALE as int,
                            1048576,
                        );
                        vstd::arithmetic::mul::lemma_mul_upper_bound(
                            msq_o as int,
                            3 * ((255 * MAX_PIXELS as int) * (255 * MAX_PIXELS as int)),
                            SCORE_SCALE as int,
                            1048576,
                        );
                        assert(msq_h * (SCORE_SCALE as u128) <= u128::MAX);
                        assert(msq_o * (SCORE_SCALE as u128) <= u128::MAX);
                    }
                    let s: u128 = msq_h * (SCORE_SCALE as u128) / (half.count as u128) + msq_o * (
                    SCORE_SCALE as u128) / (other.count as u128);
                    proof {
                        assert(s == cut_score(pal, *cube, di, ii));
                    }
                    if s > best_score {
                        best_score = s;
                        best = Option::Some((lower, upper));
                        proof {
                            bd = di;
                            bi = ii;
                        }
                    }
                    proof {
                        assert forall|d2: int, i2: int|
                            #[trigger] cut_valid(pal, *cube, d2, i2) && cut_before(
                                d2,
                                i2,
                                di,
                                ii + 1,
                            ) implies cut_before(d2, i2, di, ii) || (d2 == di && i2 == ii) by {}
                    }
                }
                i = i + 1;
            }
            d = d + 1;
        }
        match best {
            Option::None => Option::None,
            Option::Some(pair) => {
                proof {
                    assert(cut_valid(pal, *cube, bd, bi));
                    lemma_box_agg_split(
                        pal,
                        box_of(*cube),
                        box_of(lower_cube(*cube, bd, bi)),
                        box_of(upper_cube(*cube, bd, bi)),
                    );
                    assert(split_at(pal, *cube, bd, bi, pair.0, pair.1));
                    assert(split_success(pal, *cube, pair.0, pair.1));
                }
                Option::Some(pair)
            },
        }
    }
}

} // verus!
