//! Aggregate colour statistics over axis-aligned boxes of the reduced grid.
//!
//! `box_agg` is the reference meaning of every histogram cell, cumulative
//! cell and cube query in the engine: the statistics of exactly those
//! palette pixels whose reduced coordinate falls inside a box.  The lemmas
//! here are the algebra the executable code is proved against: boxes that
//! partition a box split its aggregate, nested boxes order their aggregates,
//! and a box aggregate is a signed sum of eight prefix-box aggregates
//! (corner inclusion–exclusion on the summed-volume table).

use vstd::prelude::*;
use crate::colour::{cell_b, cell_g, cell_r, Rgb};
use crate::entry::{
    em_msq,
    em_add, em_le, em_of_colour, em_wf, em_zero, lemma_sq_le, EntryModel, MAX_COLOUR_SQ,
};

verus! {

/// An axis-aligned box of grid cells, bounds inclusive on both sides.  A
/// box with an upper bound below a lower bound is empty.
pub struct Box3 {
    pub r0: int,
    pub r1: int,
    pub g0: int,
    pub g1: int,
    pub b0: int,
    pub b1: int,
}

/// Does colour `c`'s reduced coordinate lie inside the box?
pub open spec fn in_box(bx: Box3, c: Rgb) -> bool {
    &&& bx.r0 <= cell_r(c) <= bx.r1
    &&& bx.g0 <= cell_g(c) <= bx.g1
    &&& bx.b0 <= cell_b(c) <= bx.b1
}

/// Statistics of every palette pixel whose reduced coordinate lies in `bx`.
pub open spec fn box_agg(pal: Seq<Rgb>, bx: Box3) -> EntryModel
    decreases pal.len(),
{
    if pal.len() == 0 {
        em_zero()
    } else {
        let rest = box_agg(pal.drop_last(), bx);
        if in_box(bx, pal.last()) {
            em_add(rest, em_of_colour(pal.last()))
        } else {
            rest
        }
    }
}

/// The box of all cells at most `(r, g, b)` componentwise.
pub open spec fn prefix_box(r: int, g: int, b: int) -> Box3 {
    Box3 { r0: 0, r1: r, g0: 0, g1: g, b0: 0, b1: b }
}

/// The single grid cell `(r, g, b)`.
pub open spec fn cell_box(r: int, g: int, b: int) -> Box3 {
    Box3 { r0: r, r1: r, g0: g, g1: g, b0: b, b1: b }
}

/// A box aggregate is the statistics of a real pixel set: its fields obey
/// the per-pixel bounds and its count is at most the palette length.
pub proof fn lemma_box_agg_wf(pal: Seq<Rgb>, bx: Box3)
    ensures
        em_wf(box_agg(pal, bx)),
        box_agg(pal, bx).count <= pal.len(),
    decreases pal.len(),
{
    if pal.len() > 0 {
        lemma_box_agg_wf(pal.drop_last(), bx);
        let x = pal.last();
        lemma_sq_le(x.r as int, 255);
        lemma_sq_le(x.g as int, 255);
        lemma_sq_le(x.b as int, 255);
        assert(em_of_colour(x).m2 <= MAX_COLOUR_SQ);
    }
}

/// A box containing no colour aggregates to zero.
pub proof fn lemma_box_agg_empty(pal: Seq<Rgb>, bx: Box3)
    requires
        forall|c: Rgb| !in_box(bx, c),
    ensures
        box_agg(pal, bx) == em_zero(),
    decreases pal.len(),
{
    if pal.len() > 0 {
        lemma_box_agg_empty(pal.drop_last(), bx);
    }
}

/// Boxes holding the same cells aggregate identically.
pub proof fn lemma_box_agg_equiv(pal: Seq<Rgb>, a: Box3, b: Box3)
    requires
        forall|c: Rgb| in_box(a, c) <==> in_box(b, c),
    ensures
        box_agg(pal, a) == box_agg(pal, b),
    decreases pal.len(),
{
    if pal.len() > 0 {
        lemma_box_agg_equiv(pal.drop_last(), a, b);
    }
}

/// Boxes holding the same palette pixels aggregate identically, whatever
/// cells they span elsewhere.
pub proof fn lemma_box_agg_equiv_on(pal: Seq<Rgb>, a: Box3, b: Box3)
    requires
        forall|j: int|
            0 <= j < pal.len() ==> (in_box(a, #[trigger] pal[j]) <==> in_box(b, pal[j])),
    ensures
        box_agg(pal, a) == box_agg(pal, b),
    decreases pal.len(),
{
    if pal.len() > 0 {
        assert forall|j: int| 0 <= j < pal.drop_last().len() implies (in_box(
            a,
            #[trigger] pal.drop_last()[j],
        ) <==> in_box(b, pal.drop_last()[j])) by {
            assert(pal.drop_last()[j] == pal[j]);
        }
        lemma_box_agg_equiv_on(pal.drop_last(), a, b);
        assert(in_box(a, pal[pal.len() - 1]) <==> in_box(b, pal[pal.len() - 1]));
    }
}

/// Two disjoint boxes that together cover a box split its aggregate.
pub proof fn lemma_box_agg_split(pal: Seq<Rgb>, whole: Box3, p1: Box3, p2: Box3)
    requires
        forall|c: Rgb| in_box(whole, c) <==> in_box(p1, c) || in_box(p2, c),
        forall|c: Rgb| !(in_box(p1, c) && in_box(p2, c)),
    ensures
        box_agg(pal, whole) == em_add(box_agg(pal, p1), box_agg(pal, p2)),
    decreases pal.len(),
{
    if pal.len() > 0 {
        lemma_box_agg_split(pal.drop_last(), whole, p1, p2);
    }
}

/// The aggregate of a nested box is componentwise at most the outer one's.
pub proof fn lemma_box_agg_subset(pal: Seq<Rgb>, inner: Box3, outer: Box3)
    requires
        forall|c: Rgb| in_box(inner, c) ==> in_box(outer, c),
    ensures
        em_le(box_agg(pal, inner), box_agg(pal, outer)),
    decreases pal.len(),
{
    if pal.len() > 0 {
        lemma_box_agg_subset(pal.drop_last(), inner, outer);
        let x = pal.last();
        lemma_sq_le(x.r as int, 255);
        lemma_sq_le(x.g as int, 255);
        lemma_sq_le(x.b as int, 255);
    }
}

/// A box whose pixels all share one colour has moments that are exact
/// multiples of that colour.
pub proof fn lemma_box_agg_uniform(pal: Seq<Rgb>, bx: Box3, c: Rgb)
    requires
        forall|j: int| 0 <= j < pal.len() ==> (in_box(bx, #[trigger] pal[j]) ==> pal[j] == c),
    ensures
        box_agg(pal, bx).m_r == c.r * box_agg(pal, bx).count,
        box_agg(pal, bx).m_g == c.g * box_agg(pal, bx).count,
        box_agg(pal, bx).m_b == c.b * box_agg(pal, bx).count,
    decreases pal.len(),
{
    if pal.len() > 0 {
        assert forall|j: int|
            0 <= j < pal.drop_last().len() && in_box(bx, #[trigger] pal.drop_last()[j])
            implies pal.drop_last()[j] == c by {
            assert(pal.drop_last()[j] == pal[j]);
        }
        lemma_box_agg_uniform(pal.drop_last(), bx, c);
        let x = pal.last();
        if in_box(bx, x) {
            assert(pal[pal.len() - 1] == x);
            assert(x == c);
            let n = box_agg(pal.drop_last(), bx).count;
            assert(c.r * (n + 1) == c.r * n + c.r) by (nonlinear_arith);
            assert(c.g * (n + 1) == c.g * n + c.g) by (nonlinear_arith);
            assert(c.b * (n + 1) == c.b * n + c.b) by (nonlinear_arith);
        }
    }
}

/// A box with a positive count holds at least one palette pixel.
pub proof fn lemma_box_agg_witness(pal: Seq<Rgb>, bx: Box3)
    requires
        box_agg(pal, bx).count > 0,
    ensures
        exists|j: int| 0 <= j < pal.len() && in_box(bx, #[trigger] pal[j]),
    decreases pal.len(),
{
    if pal.len() > 0 {
        if in_box(bx, pal.last()) {
            assert(in_box(bx, pal[pal.len() - 1]));
        } else {
            lemma_box_agg_witness(pal.drop_last(), bx);
            let j = choose|j: int|
                0 <= j < pal.drop_last().len() && in_box(bx, #[trigger] pal.drop_last()[j]);
            assert(in_box(bx, pal[j]));
        }
    }
}

/// Squared magnitude of a single colour's channel vector.
pub open spec fn colour_sq(c: Rgb) -> int {
    c.r * c.r + c.g * c.g + c.b * c.b
}

/// Squared Euclidean distance between two colours.
pub open spec fn sqdist(a: Rgb, b: Rgb) -> int {
    (a.r - b.r) * (a.r - b.r) + (a.g - b.g) * (a.g - b.g) + (a.b - b.b) * (a.b - b.b)
}

/// Sum of squared distances from `x` to every palette pixel inside `bx`.
pub open spec fn box_dists(pal: Seq<Rgb>, bx: Box3, x: Rgb) -> int
    decreases pal.len(),
{
    if pal.len() == 0 {
        0
    } else {
        box_dists(pal.drop_last(), bx, x) + if in_box(bx, pal.last()) {
            sqdist(pal.last(), x)
        } else {
            0
        }
    }
}

/// Sum of squared distances over every unordered pair of palette pixels
/// inside `bx`.
pub open spec fn box_pairsum(pal: Seq<Rgb>, bx: Box3) -> int
    decreases pal.len(),
{
    if pal.len() == 0 {
        0
    } else {
        box_pairsum(pal.drop_last(), bx) + if in_box(bx, pal.last()) {
            box_dists(pal.drop_last(), bx, pal.last())
        } else {
            0
        }
    }
}

/// Closed form of the distance sum in terms of the box aggregate.
pub proof fn lemma_box_dists_value(pal: Seq<Rgb>, bx: Box3, x: Rgb)
    ensures
        box_dists(pal, bx, x) == box_agg(pal, bx).count * colour_sq(x) + box_agg(pal, bx).m2 - 2
            * (box_agg(pal, bx).m_r * x.r + box_agg(pal, bx).m_g * x.g + box_agg(pal, bx).m_b
            * x.b),
    decreases pal.len(),
{
    if pal.len() > 0 {
        lemma_box_dists_value(pal.drop_last(), bx, x);
        let p = pal.last();
        if in_box(bx, p) {
            let e = box_agg(pal.drop_last(), bx);
            assert((p.r - x.r) * (p.r - x.r) == p.r * p.r + x.r * x.r - 2 * (p.r * x.r))
                by (nonlinear_arith);
            assert((p.g - x.g) * (p.g - x.g) == p.g * p.g + x.g * x.g - 2 * (p.g * x.g))
                by (nonlinear_arith);
            assert((p.b - x.b) * (p.b - x.b) == p.b * p.b + x.b * x.b - 2 * (p.b * x.b))
                by (nonlinear_arith);
            assert((e.count + 1) * colour_sq(x) == e.count * colour_sq(x) + colour_sq(x))
                by (nonlinear_arith);
            assert((e.m_r + p.r) * x.r == e.m_r * x.r + p.r * x.r) by (nonlinear_arith);
            assert((e.m_g + p.g) * x.g == e.m_g * x.g + p.g * x.g) by (nonlinear_arith);
            assert((e.m_b + p.b) * x.b == e.m_b * x.b + p.b * x.b) by (nonlinear_arith);
        }
    }
}

/// Lagrange's identity for the colour statistics of a box: count times the
/// second moment, minus the squared norm of the first moment, is exactly
/// the sum of squared distances over all pixel pairs.
pub proof fn lemma_box_pairsum_identity(pal: Seq<Rgb>, bx: Box3)
    ensures
        box_agg(pal, bx).count * box_agg(pal, bx).m2 - em_msq(box_agg(pal, bx)) == box_pairsum(
            pal,
            bx,
        ),
    decreases pal.len(),
{
    if pal.len() > 0 {
        lemma_box_pairsum_identity(pal.drop_last(), bx);
        let x = pal.last();
        if in_box(bx, x) {
            lemma_box_dists_value(pal.drop_last(), bx, x);
            let e = box_agg(pal.drop_last(), bx);
            let n = e.count;
            let q = colour_sq(x);
            assert((n + 1) * (e.m2 + q) == n * e.m2 + n * q + e.m2 + q) by (nonlinear_arith);
            assert((e.m_r + x.r) * (e.m_r + x.r) == e.m_r * e.m_r + 2 * (e.m_r * x.r) + x.r * x.r)
                by (nonlinear_arith);
            assert((e.m_g + x.g) * (e.m_g + x.g) == e.m_g * e.m_g + 2 * (e.m_g * x.g) + x.g * x.g)
                by (nonlinear_arith);
            assert((e.m_b + x.b) * (e.m_b + x.b) == e.m_b * e.m_b + 2 * (e.m_b * x.b) + x.b * x.b)
                by (nonlinear_arith);
        }
    }
}

/// Distance sums are never negative.
pub proof fn lemma_box_dists_nonneg(pal: Seq<Rgb>, bx: Box3, x: Rgb)
    ensures
        box_dists(pal, bx, x) >= 0,
    decreases pal.len(),
{
    if pal.len() > 0 {
        lemma_box_dists_nonneg(pal.drop_last(), bx, x);
        let p = pal.last();
        assert((p.r - x.r) * (p.r - x.r) >= 0) by (nonlinear_arith);
        assert((p.g - x.g) * (p.g - x.g) >= 0) by (nonlinear_arith);
        assert((p.b - x.b) * (p.b - x.b) >= 0) by (nonlinear_arith);
    }
}

/// Pair sums are never negative.
pub proof fn lemma_box_pairsum_nonneg(pal: Seq<Rgb>, bx: Box3)
    ensures
        box_pairsum(pal, bx) >= 0,
    decreases pal.len(),
{
    if pal.len() > 0 {
        lemma_box_pairsum_nonneg(pal.drop_last(), bx);
        if in_box(bx, pal.last()) {
            lemma_box_dists_nonneg(pal.drop_last(), bx, pal.last());
        }
    }
}

/// The distance sum dominates the distance to any single pixel in the box.
pub proof fn lemma_box_dists_lower(pal: Seq<Rgb>, bx: Box3, x: Rgb, j: int)
    requires
        0 <= j < pal.len(),
        in_box(bx, pal[j]),
    ensures
        box_dists(pal, bx, x) >= sqdist(pal[j], x),
    decreases pal.len(),
{
    let p = pal.last();
    if j == pal.len() - 1 {
        lemma_box_dists_nonneg(pal.drop_last(), bx, x);
    } else {
        assert(pal.drop_last()[j] == pal[j]);
        lemma_box_dists_lower(pal.drop_last(), bx, x, j);
        assert((p.r - x.r) * (p.r - x.r) >= 0) by (nonlinear_arith);
        assert((p.g - x.g) * (p.g - x.g) >= 0) by (nonlinear_arith);
        assert((p.b - x.b) * (p.b - x.b) >= 0) by (nonlinear_arith);
    }
}

/// The pair sum dominates the squared distance of any one pixel pair in
/// the box.
pub proof fn lemma_box_pairsum_lower(pal: Seq<Rgb>, bx: Box3, j1: int, j2: int)
    requires
        0 <= j1 < j2 < pal.len(),
        in_box(bx, pal[j1]),
        in_box(bx, pal[j2]),
    ensures
        box_pairsum(pal, bx) >= sqdist(pal[j1], pal[j2]),
    decreases pal.len(),
{
    if j2 == pal.len() - 1 {
        lemma_box_pairsum_nonneg(pal.drop_last(), bx);
        assert(pal.drop_last()[j1] == pal[j1]);
        lemma_box_dists_lower(pal.drop_last(), bx, pal.last(), j1);
    } else {
        assert(pal.drop_last()[j1] == pal[j1] && pal.drop_last()[j2] == pal[j2]);
        lemma_box_pairsum_lower(pal.drop_last(), bx, j1, j2);
        if in_box(bx, pal.last()) {
            lemma_box_dists_nonneg(pal.drop_last(), bx, pal.last());
        }
    }
}

/// A box holding a pixel aggregates at least that pixel's moments and one
/// count.
pub proof fn lemma_box_agg_pixel(pal: Seq<Rgb>, bx: Box3, j: int)
    requires
        0 <= j < pal.len(),
        in_box(bx, pal[j]),
    ensures
        box_agg(pal, bx).count >= 1,
        box_agg(pal, bx).m_r >= pal[j].r,
        box_agg(pal, bx).m_g >= pal[j].g,
        box_agg(pal, bx).m_b >= pal[j].b,
    decreases pal.len(),
{
    lemma_box_agg_wf(pal, bx);
    if j == pal.len() - 1 {
        lemma_box_agg_wf(pal.drop_last(), bx);
    } else {
        assert(pal.drop_last()[j] == pal[j]);
        lemma_box_agg_pixel(pal.drop_last(), bx, j);
    }
}

/// In a box whose lower bound on an axis is at least one, every pixel's
/// raw value on that channel is at least eight, so the channel moment
/// dominates the count.
pub proof fn lemma_box_agg_channel_floor(pal: Seq<Rgb>, bx: Box3)
    ensures
        bx.r0 >= 1 ==> box_agg(pal, bx).m_r >= 8 * box_agg(pal, bx).count,
        bx.g0 >= 1 ==> box_agg(pal, bx).m_g >= 8 * box_agg(pal, bx).count,
        bx.b0 >= 1 ==> box_agg(pal, bx).m_b >= 8 * box_agg(pal, bx).count,
    decreases pal.len(),
{
    if pal.len() > 0 {
        lemma_box_agg_channel_floor(pal.drop_last(), bx);
        let x = pal.last();
        if in_box(bx, x) {
            assert(cell_r(x) >= 1 ==> x.r >= 8);
            assert(cell_g(x) >= 1 ==> x.g >= 8);
            assert(cell_b(x) >= 1 ==> x.b >= 8);
        }
    }
}

/// A box counting at least two holds two different palette pixels.
pub proof fn lemma_box_agg_two_witnesses(pal: Seq<Rgb>, bx: Box3)
    requires
        box_agg(pal, bx).count >= 2,
    ensures
        exists|j1: int, j2: int|
            0 <= j1 < j2 < pal.len() && in_box(bx, #[trigger] pal[j1]) && in_box(
                bx,
                #[trigger] pal[j2],
            ),
    decreases pal.len(),
{
    lemma_box_agg_wf(pal, bx);
    if in_box(bx, pal.last()) {
        lemma_box_agg_witness(pal.drop_last(), bx);
        let j1 = choose|j: int|
            0 <= j < pal.drop_last().len() && in_box(bx, #[trigger] pal.drop_last()[j]);
        assert(in_box(bx, pal[j1]));
        assert(in_box(bx, pal[pal.len() - 1]));
        assert(0 <= j1 < pal.len() - 1);
    } else {
        lemma_box_agg_two_witnesses(pal.drop_last(), bx);
        let (j1, j2) = choose|j1: int, j2: int|
            0 <= j1 < j2 < pal.drop_last().len() && in_box(bx, #[trigger] pal.drop_last()[j1])
                && in_box(bx, #[trigger] pal.drop_last()[j2]);
        assert(in_box(bx, pal[j1]) && in_box(bx, pal[j2]));
    }
}

/// A box holding two pixels counts at least two.
pub proof fn lemma_box_agg_two_pixels(pal: Seq<Rgb>, bx: Box3, j1: int, j2: int)
    requires
        0 <= j1 < j2 < pal.len(),
        in_box(bx, pal[j1]),
        in_box(bx, pal[j2]),
    ensures
        box_agg(pal, bx).count >= 2,
    decreases pal.len(),
{
    if j2 == pal.len() - 1 {
        assert(pal.drop_last()[j1] == pal[j1]);
        lemma_box_agg_pixel(pal.drop_last(), bx, j1);
    } else {
        assert(pal.drop_last()[j1] == pal[j1] && pal.drop_last()[j2] == pal[j2]);
        lemma_box_agg_two_pixels(pal.drop_last(), bx, j1, j2);
    }
}

/// A box containing every colour aggregates the whole palette.
pub proof fn lemma_box_agg_all(pal: Seq<Rgb>, bx: Box3)
    requires
        forall|c: Rgb| in_box(bx, c),
    ensures
        box_agg(pal, bx).count == pal.len(),
    decreases pal.len(),
{
    if pal.len() > 0 {
        lemma_box_agg_all(pal.drop_last(), bx);
    }
}

/// The four positive corners of the inclusion–exclusion pattern: prefix
/// aggregates at `(e_r, e_g, e_b)`, `(e_r, s_g, s_b)`, `(s_r, e_g, s_b)`
/// and `(s_r, s_g, e_b)`, where `e` is the box's upper bound and `s` the
/// cell just below its lower bound.
pub open spec fn pos_corner_sum(pal: Seq<Rgb>, bx: Box3) -> EntryModel {
    em_add(
        em_add(
            box_agg(pal, prefix_box(bx.r1, bx.g1, bx.b1)),
            box_agg(pal, prefix_box(bx.r1, bx.g0 - 1, bx.b0 - 1)),
        ),
        em_add(
            box_agg(pal, prefix_box(bx.r0 - 1, bx.g1, bx.b0 - 1)),
            box_agg(pal, prefix_box(bx.r0 - 1, bx.g0 - 1, bx.b1)),
        ),
    )
}

/// The four negative corners: prefix aggregates at `(s_r, s_g, s_b)`,
/// `(s_r, e_g, e_b)`, `(e_r, s_g, e_b)` and `(e_r, e_g, s_b)`.
pub open spec fn neg_corner_sum(pal: Seq<Rgb>, bx: Box3) -> EntryModel {
    em_add(
        em_add(
            box_agg(pal, prefix_box(bx.r0 - 1, bx.g0 - 1, bx.b0 - 1)),
            box_agg(pal, prefix_box(bx.r0 - 1, bx.g1, bx.b1)),
        ),
        em_add(
            box_agg(pal, prefix_box(bx.r1, bx.g0 - 1, bx.b1)),
            box_agg(pal, prefix_box(bx.r1, bx.g1, bx.b0 - 1)),
        ),
    )
}

/// Corner inclusion–exclusion for the summed-volume table: a box aggregate
/// plus the four negative corner prefixes equals the four positive corner
/// prefixes.
pub proof fn lemma_box_incl_excl(pal: Seq<Rgb>, bx: Box3)
    requires
        0 <= bx.r0 <= bx.r1 + 1,
        0 <= bx.g0 <= bx.g1 + 1,
        0 <= bx.b0 <= bx.b1 + 1,
    ensures
        em_add(box_agg(pal, bx), neg_corner_sum(pal, bx)) == pos_corner_sum(pal, bx),
    decreases pal.len(),
{
    if pal.len() > 0 {
        lemma_box_incl_excl(pal.drop_last(), bx);
        let x = pal.last();
        let fw = if in_box(bx, x) {
            1int
        } else {
            0int
        };
        let fp1 = if in_box(prefix_box(bx.r1, bx.g1, bx.b1), x) {
            1int
        } else {
            0int
        };
        let fp2 = if in_box(prefix_box(bx.r1, bx.g0 - 1, bx.b0 - 1), x) {
            1int
        } else {
            0int
        };
        let fp3 = if in_box(prefix_box(bx.r0 - 1, bx.g1, bx.b0 - 1), x) {
            1int
        } else {
            0int
        };
        let fp4 = if in_box(prefix_box(bx.r0 - 1, bx.g0 - 1, bx.b1), x) {
            1int
        } else {
            0int
        };
        let fn1 = if in_box(prefix_box(bx.r0 - 1, bx.g0 - 1, bx.b0 - 1), x) {
            1int
        } else {
            0int
        };
        let fn2 = if in_box(prefix_box(bx.r0 - 1, bx.g1, bx.b1), x) {
            1int
        } else {
            0int
        };
        let fn3 = if in_box(prefix_box(bx.r1, bx.g0 - 1, bx.b1), x) {
            1int
        } else {
            0int
        };
        let fn4 = if in_box(prefix_box(bx.r1, bx.g1, bx.b0 - 1), x) {
            1int
        } else {
            0int
        };
        assert(fw + fn1 + fn2 + fn3 + fn4 == fp1 + fp2 + fp3 + fp4);
    }
}

} // verus!
