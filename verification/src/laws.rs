//! Library-level laws: consequences of `compress_post` that hold for every
//! run of the quantiser, stated and proved once for all inputs.

use vstd::prelude::*;
use crate::agg::{box_agg, cell_box, in_box, lemma_box_agg_channel_floor, lemma_box_agg_equiv,
    lemma_box_agg_equiv_on,
    lemma_box_agg_pixel,
    lemma_box_agg_split, lemma_box_agg_two_pixels, lemma_box_agg_two_witnesses,
    lemma_box_agg_uniform, lemma_box_agg_wf,
    lemma_box_agg_witness, lemma_box_pairsum_identity, lemma_box_pairsum_lower, sqdist, Box3};
use crate::colour::{cell_axis, cell_b, cell_g, cell_r, Rgb};
use crate::cube::{axis_end, axis_start, box_of, cube_contains, cube_wf, full_cube, is_unit,
    lower_cube,
    upper_cube, ColourCube};
use crate::entry::{em_add, em_msq, em_of_colour, em_zero, lemma_sq_le, EntryModel};
use crate::quantise::{compress_post, final_cubes, mean_colour, quantisation_ok, spec_lookup,
    terminal_cube};
use crate::space::{flat_idx, in_grid, lemma_flat_idx_injective, SPACE_CELLS};
use crate::split::{cut_in_range, cut_score, cut_valid, half_agg, lemma_div_le_num,
    no_positive_cut, other_agg, score_term, spec_priority, SCORE_SCALE};

verus! {

/// The statistics of the whole palette: the aggregate over the cube
/// spanning the entire reduced grid.
pub open spec fn total_agg(pal: Seq<Rgb>) -> EntryModel {
    box_agg(pal, box_of(full_cube()))
}

/// The mean colour of the whole palette, truncated per channel.
pub open spec fn global_mean_colour(pal: Seq<Rgb>) -> Rgb {
    mean_colour(total_agg(pal))
}

/// The quantiser is a mathematical function of its inputs.  `compress`
/// ensures its output realises `final_cubes`, the final cube list the
/// queue policy computes from the palette and the requested count alone;
/// any two outputs realising that list are identical, palette and lookup
/// volume both.  Repeated calls on equal inputs therefore return equal
/// results, and independent invocations share no state that could change
/// them.
pub proof fn lemma_compress_deterministic(
    pal: Seq<Rgb>,
    n: int,
    flat1: Seq<Rgb>,
    vol1: Seq<u8>,
    flat2: Seq<Rgb>,
    vol2: Seq<u8>,
)
    requires
        quantisation_ok(pal, n, flat1, vol1, final_cubes(pal, n)),
        quantisation_ok(pal, n, flat2, vol2, final_cubes(pal, n)),
        vol1.len() == SPACE_CELLS,
        vol2.len() == SPACE_CELLS,
    ensures
        flat1 == flat2,
        vol1 == vol2,
{
    let cubes = final_cubes(pal, n);
    assert forall|k: int| 0 <= k < flat1.len() implies flat1[k] == flat2[k] by {
        assert(flat1[k] == mean_colour(box_agg(pal, box_of(cubes[k]))));
        assert(flat2[k] == mean_colour(box_agg(pal, box_of(cubes[k]))));
    }
    assert(flat1 =~= flat2);
    assert forall|idx: int| 0 <= idx < SPACE_CELLS implies vol1[idx] == vol2[idx] by {
        vstd::arithmetic::div_mod::lemma_fundamental_div_mod(idx, 1024);
        vstd::arithmetic::div_mod::lemma_mod_bound(idx, 1024);
        let r = idx / 1024;
        let rem = idx % 1024;
        vstd::arithmetic::div_mod::lemma_fundamental_div_mod(rem, 32);
        vstd::arithmetic::div_mod::lemma_mod_bound(rem, 32);
        let g = rem / 32;
        let b = rem % 32;
        assert(in_grid(r, g, b));
        assert(flat_idx(r, g, b) == idx);
        let k = vol1[flat_idx(r, g, b)] as int;
        assert(0 <= k < cubes.len() && cube_contains(cubes[k], r, g, b));
        assert(vol2[flat_idx(r, g, b)] == k);
    }
    assert(vol1 =~= vol2);
}

/// The output palette never exceeds the requested colour count, and is
/// never empty.
pub proof fn lemma_palette_within_capacity(pal: Seq<Rgb>, n: int, flat: Seq<Rgb>, vol: Seq<u8>)
    requires
        compress_post(pal, n, flat, vol),
    ensures
        1 <= flat.len() <= n,
{
}

/// Looking a colour up is a pure function of the volume and the colour:
/// equal volumes and equal colours always give equal indices, so repeated
/// lookups within one compression are stable.
pub proof fn lemma_lookup_stable(vol1: Seq<u8>, vol2: Seq<u8>, c1: Rgb, c2: Rgb)
    requires
        vol1 == vol2,
        c1 == c2,
    ensures
        spec_lookup(vol1, c1) == spec_lookup(vol2, c2),
{
}

/// Every colour's lookup lands on a real palette entry, and on the unique
/// final cube containing the colour's reduced coordinate: the cubes cover
/// the grid without overlap.
pub proof fn lemma_lookup_in_palette(
    pal: Seq<Rgb>,
    n: int,
    flat: Seq<Rgb>,
    vol: Seq<u8>,
    c: Rgb,
)
    requires
        compress_post(pal, n, flat, vol),
    ensures
        spec_lookup(vol, c) < flat.len(),
{
    let cubes = choose|cubes: Seq<ColourCube>| quantisation_ok(pal, n, flat, vol, cubes);
    assert(in_grid(cell_r(c), cell_g(c), cell_b(c)));
    assert(vol[flat_idx(cell_r(c), cell_g(c), cell_b(c))] < cubes.len());
}

/// A region whose pixels all share one colour has that colour as its mean.
pub proof fn lemma_uniform_region_mean(pal: Seq<Rgb>, cube: ColourCube, c: Rgb)
    requires
        forall|j: int| 0 <= j < pal.len() ==> (in_box(box_of(cube), #[trigger] pal[j]) ==> pal[j]
            == c),
        box_agg(pal, box_of(cube)).count >= 1,
    ensures
        mean_colour(box_agg(pal, box_of(cube))) == c,
{
    let e = box_agg(pal, box_of(cube));
    lemma_box_agg_uniform(pal, box_of(cube), c);
    vstd::arithmetic::div_mod::lemma_div_by_multiple(c.r as int, e.count);
    vstd::arithmetic::div_mod::lemma_div_by_multiple(c.g as int, e.count);
    vstd::arithmetic::div_mod::lemma_div_by_multiple(c.b as int, e.count);
}

/// A palette of one repeated colour compresses, whatever count was
/// requested, to a single entry holding exactly that colour, and every
/// lookup lands on it: lossless below capacity in the one-colour case.
pub proof fn lemma_single_colour_palette(
    pal: Seq<Rgb>,
    n: int,
    flat: Seq<Rgb>,
    vol: Seq<u8>,
    c: Rgb,
)
    requires
        compress_post(pal, n, flat, vol),
        pal.len() >= 1,
        forall|j: int| 0 <= j < pal.len() ==> #[trigger] pal[j] == c,
    ensures
        flat.len() == 1,
        flat[0] == c,
        forall|x: Rgb| spec_lookup(vol, x) == 0,
{
    let cubes = choose|cubes: Seq<ColourCube>| quantisation_ok(pal, n, flat, vol, cubes);
    let cr = cell_r(c);
    let cg = cell_g(c);
    let cb = cell_b(c);
    assert forall|k: int| 0 <= k < cubes.len() implies cube_contains(
        #[trigger] cubes[k],
        cr,
        cg,
        cb,
    ) by {
        lemma_box_agg_witness(pal, box_of(cubes[k]));
        let j = choose|j: int| 0 <= j < pal.len() && in_box(box_of(cubes[k]), #[trigger] pal[j]);
        assert(pal[j] == c);
    }
    assert(in_grid(cr, cg, cb));
    if cubes.len() >= 2 {
        assert(cube_contains(cubes[0], cr, cg, cb));
        assert(cube_contains(cubes[1], cr, cg, cb));
        assert(vol[flat_idx(cr, cg, cb)] == 0);
        assert(vol[flat_idx(cr, cg, cb)] == 1);
        assert(false);
    }
    lemma_uniform_region_mean(pal, cubes[0], c);
    assert forall|x: Rgb| spec_lookup(vol, x) == 0 by {
        assert(in_grid(cell_r(x), cell_g(x), cell_b(x)));
        assert(vol[flat_idx(cell_r(x), cell_g(x), cell_b(x))] < 1);
    }
}

/// The aggregate of a two-pixel palette over any box: each pixel
/// contributes its own statistics exactly when its cell lies in the box.
proof fn lemma_pair_agg(a: Rgb, b: Rgb, bx: Box3)
    ensures
        box_agg(seq![a, b], bx) == em_add(
            if in_box(bx, a) {
                em_of_colour(a)
            } else {
                em_zero()
            },
            if in_box(bx, b) {
                em_of_colour(b)
            } else {
                em_zero()
            },
        ),
{
    let p2 = seq![a, b];
    let p1 = seq![a];
    let p0 = Seq::<Rgb>::empty();
    assert(p2.drop_last() =~= p1);
    assert(p1.drop_last() =~= p0);
    assert(p2.last() == b);
    assert(p1.last() == a);
    assert(box_agg(p0, bx) == em_zero());
    assert(box_agg(p1, bx) == if in_box(bx, a) {
        em_add(em_zero(), em_of_colour(a))
    } else {
        em_zero()
    });
    assert(box_agg(p2, bx) == if in_box(bx, b) {
        em_add(box_agg(p1, bx), em_of_colour(b))
    } else {
        box_agg(p1, bx)
    });
}

/// A palette of exactly two colours in different grid cells, compressed to
/// two colours, keeps both: the output holds exactly the two input colours
/// at two distinct indices, and each colour looks up its own entry.
pub proof fn lemma_two_colours_preserved(
    pal: Seq<Rgb>,
    flat: Seq<Rgb>,
    vol: Seq<u8>,
    a: Rgb,
    b: Rgb,
)
    requires
        compress_post(pal, 2, flat, vol),
        pal == seq![a, b],
        !(cell_r(a) == cell_r(b) && cell_g(a) == cell_g(b) && cell_b(a) == cell_b(b)),
    ensures
        flat.len() == 2,
        spec_lookup(vol, a) != spec_lookup(vol, b),
        flat[spec_lookup(vol, a) as int] == a,
        flat[spec_lookup(vol, b) as int] == b,
{
    let cubes = choose|cubes: Seq<ColourCube>| quantisation_ok(pal, 2, flat, vol, cubes);
    if flat.len() == 1 {
        // The single cube must cover the whole grid ...
        assert forall|r: int, g: int, b2: int| in_grid(r, g, b2) implies cube_contains(
            cubes[0],
            r,
            g,
            b2,
        ) by {
            assert(vol[flat_idx(r, g, b2)] < 1);
            assert(cube_contains(cubes[vol[flat_idx(r, g, b2)] as int], r, g, b2));
        }
        assert(in_grid(0, 0, 0) && in_grid(31, 31, 31));
        assert(cubes[0] == full_cube());
        // ... yet the terminal-cube clause forbids an unsplittable one.
        assert(terminal_cube(pal, cubes[0]));
        assert(pal[0] == a && pal[1] == b);
        assert(in_box(box_of(cubes[0]), a) && in_box(box_of(cubes[0]), b));
        lemma_multi_pixel_not_terminal(pal, cubes[0], 0, 1);
        assert(false);
    }
    assert(flat.len() == 2);
    let b0 = box_of(cubes[0]);
    let b1 = box_of(cubes[1]);
    assert forall|c: Rgb| in_box(box_of(full_cube()), c) <==> (in_box(b0, c) || in_box(b1, c)) by {
        let cr = cell_r(c);
        let cg = cell_g(c);
        let cb = cell_b(c);
        assert(in_grid(cr, cg, cb));
        assert(cube_contains(cubes[vol[flat_idx(cr, cg, cb)] as int], cr, cg, cb));
    }
    assert forall|c: Rgb| !(in_box(b0, c) && in_box(b1, c)) by {
        let cr = cell_r(c);
        let cg = cell_g(c);
        let cb = cell_b(c);
        if in_box(b0, c) && in_box(b1, c) {
            assert(cube_contains(cubes[0], cr, cg, cb));
            assert(cube_contains(cubes[1], cr, cg, cb));
            assert(vol[flat_idx(cr, cg, cb)] == 0 && vol[flat_idx(cr, cg, cb)] == 1);
        }
    }
    lemma_box_agg_split(pal, box_of(full_cube()), b0, b1);
    lemma_pair_agg(a, b, box_of(full_cube()));
    assert(in_box(box_of(full_cube()), a) && in_box(box_of(full_cube()), b));
    assert(box_agg(pal, b0).count + box_agg(pal, b1).count == 2);
    assert(box_agg(pal, b0).count == 1 && box_agg(pal, b1).count == 1);
    let ca = (cell_r(a), cell_g(a), cell_b(a));
    let cb2 = (cell_r(b), cell_g(b), cell_b(b));
    let ka = vol[flat_idx(ca.0, ca.1, ca.2)] as int;
    let kb = vol[flat_idx(cb2.0, cb2.1, cb2.2)] as int;
    assert(in_grid(ca.0, ca.1, ca.2) && in_grid(cb2.0, cb2.1, cb2.2));
    assert(0 <= ka < 2 && cube_contains(cubes[ka], ca.0, ca.1, ca.2));
    assert(0 <= kb < 2 && cube_contains(cubes[kb], cb2.0, cb2.1, cb2.2));
    assert(in_box(box_of(cubes[ka]), a));
    assert(in_box(box_of(cubes[kb]), b));
    if ka == kb {
        lemma_pair_agg(a, b, box_of(cubes[ka]));
        assert(box_agg(pal, box_of(cubes[ka])).count == 2);
        assert(false);
    }
    assert forall|j: int|
        0 <= j < pal.len() && in_box(box_of(cubes[ka]), #[trigger] pal[j]) implies pal[j] == a by {
        if j == 1 && in_box(box_of(cubes[ka]), b) {
            assert(cube_contains(cubes[ka], cb2.0, cb2.1, cb2.2));
            assert(vol[flat_idx(cb2.0, cb2.1, cb2.2)] == ka);
        }
    }
    assert forall|j: int|
        0 <= j < pal.len() && in_box(box_of(cubes[kb]), #[trigger] pal[j]) implies pal[j] == b by {
        if j == 0 && in_box(box_of(cubes[kb]), a) {
            assert(cube_contains(cubes[kb], ca.0, ca.1, ca.2));
            assert(vol[flat_idx(ca.0, ca.1, ca.2)] == kb);
        }
    }
    lemma_uniform_region_mean(pal, cubes[ka], a);
    lemma_uniform_region_mean(pal, cubes[kb], b);
    assert(flat[ka] == a && flat[kb] == b);
}

/// Quotients of a dividend at least as large as its positive divisor are
/// at least one.
proof fn lemma_div_ge_one(x: int, c: int)
    requires
        1 <= c <= x,
    ensures
        x / c >= 1,
{
    assert(x / c >= 1) by (nonlinear_arith)
        requires
            1 <= c <= x,
    ;
}

/// A cube holding two pixels of different colours has a non-zero integer
/// variance floor: by Lagrange's identity the spread over all pixel pairs
/// is positive, so the variance cannot round down to zero.
proof fn lemma_multi_pixel_priority(pal: Seq<Rgb>, cube: ColourCube, j1: int, j2: int)
    requires
        0 <= j1 < j2 < pal.len(),
        in_box(box_of(cube), pal[j1]),
        in_box(box_of(cube), pal[j2]),
        !(pal[j1] == pal[j2]),
    ensures
        spec_priority(box_agg(pal, box_of(cube))) >= 1,
{
    let bx = box_of(cube);
    let e = box_agg(pal, bx);
    let a = pal[j1];
    let b = pal[j2];
    lemma_box_agg_two_pixels(pal, bx, j1, j2);
    lemma_box_pairsum_identity(pal, bx);
    lemma_box_pairsum_lower(pal, bx, j1, j2);
    assert(sqdist(a, b) >= 1) by {
        assert(a.r != b.r || a.g != b.g || a.b != b.b);
        assert((a.r != b.r ==> (a.r - b.r) * (a.r - b.r) >= 1) && (a.g != b.g ==> (a.g - b.g) * (
        a.g - b.g) >= 1) && (a.b != b.b ==> (a.b - b.b) * (a.b - b.b) >= 1)) by (nonlinear_arith);
        assert((a.r - b.r) * (a.r - b.r) >= 0 && (a.g - b.g) * (a.g - b.g) >= 0 && (a.b - b.b) * (
        a.b - b.b) >= 0) by (nonlinear_arith);
    }
    assert(e.count * e.m2 - em_msq(e) >= 1);
    let q = em_msq(e) / e.count;
    vstd::arithmetic::div_mod::lemma_fundamental_div_mod(em_msq(e), e.count);
    vstd::arithmetic::div_mod::lemma_mod_bound(em_msq(e), e.count);
    assert(e.count * (e.m2 - q) == e.count * e.m2 - e.count * q) by (nonlinear_arith);
    assert(e.count * (e.m2 - q) >= 1);
    assert(e.m2 - q >= 1) by {
        if e.m2 - q <= 0 {
            assert(e.count * (e.m2 - q) <= 0) by (nonlinear_arith)
                requires
                    e.count >= 2 && e.m2 - q <= 0,
            ;
        }
    }
}

/// A cube holding pixels in two different cells admits a cut with a
/// positive separation score: cutting between the two cells puts a pixel
/// on each side, and the upper side's channel values on the cut axis are
/// at least eight each, so its score term is at least one fixed-point
/// unit for any accepted palette.
proof fn lemma_multi_pixel_cut(pal: Seq<Rgb>, cube: ColourCube, d: int, j1: int, j2: int)
    requires
        cube_wf(cube),
        0 <= d < 3,
        0 <= j1 < pal.len(),
        0 <= j2 < pal.len(),
        in_box(box_of(cube), pal[j1]),
        in_box(box_of(cube), pal[j2]),
        cell_axis(pal[j1], d) < cell_axis(pal[j2], d),
    ensures
        !no_positive_cut(pal, cube),
{
    let low = pal[j1];
    let high = pal[j2];
    let i = cell_axis(low, d);
    let lob = box_of(lower_cube(cube, d, i));
    let hib = box_of(upper_cube(cube, d, i));
    assert(cut_in_range(cube, d, i)) by {
        assert(axis_start(cube, d) <= cell_axis(low, d));
        assert(cell_axis(high, d) <= axis_end(cube, d));
    }
    assert(in_box(lob, low));
    assert(!in_box(lob, high));
    assert(in_box(hib, high));
    assert forall|c: Rgb| in_box(box_of(cube), c) <==> (in_box(lob, c) || in_box(hib, c)) by {}
    assert forall|c: Rgb| !(in_box(lob, c) && in_box(hib, c)) by {}
    lemma_box_agg_split(pal, box_of(cube), lob, hib);
    lemma_box_agg_pixel(pal, lob, j1);
    lemma_box_agg_pixel(pal, hib, j2);
    lemma_box_agg_wf(pal, lob);
    lemma_box_agg_wf(pal, hib);
    let half = half_agg(pal, cube, d, i);
    let other = other_agg(pal, cube, d, i);
    assert(other == box_agg(pal, hib));
    assert(cut_valid(pal, cube, d, i));
    let msq_h = em_msq(half);
    let msq_o = em_msq(other);
    assert(msq_h >= 0 && msq_o >= 0) by {
        assert(half.m_r * half.m_r >= 0 && half.m_g * half.m_g >= 0 && half.m_b * half.m_b >= 0)
            by (nonlinear_arith)
            requires
                true,
        ;
        assert(other.m_r * other.m_r >= 0 && other.m_g * other.m_g >= 0 && other.m_b * other.m_b
            >= 0) by (nonlinear_arith)
            requires
                true,
        ;
    }
    // Above the cut, the cut axis's lower bound is at least one, so every
    // pixel on that side contributes at least eight to the axis moment.
    lemma_box_agg_channel_floor(pal, hib);
    let m_axis = if d == 0 {
        other.m_r
    } else if d == 1 {
        other.m_g
    } else {
        other.m_b
    };
    assert(m_axis >= other.count) by {
        if d == 0 {
            assert(hib.r0 == i + 1 >= 1);
        } else if d == 1 {
            assert(hib.g0 == i + 1 >= 1);
        } else {
            assert(hib.b0 == i + 1 >= 1);
        }
    }
    assert(msq_o >= other.count) by {
        lemma_sq_le(other.count, m_axis);
        assert(other.count * other.count >= other.count * 1) by (nonlinear_arith)
            requires
                other.count >= 1,
        ;
    }
    assert(score_term(other) >= 1) by {
        assert(msq_o * SCORE_SCALE >= msq_o);
        lemma_div_ge_one(msq_o * SCORE_SCALE, other.count);
    }
    lemma_div_le_num(msq_h * SCORE_SCALE, half.count);
    assert(cut_score(pal, cube, d, i) > 0);
    assert(!no_positive_cut(pal, cube)) by {
        assert(cut_valid(pal, cube, d, i) && cut_score(pal, cube, d, i) > 0);
    }
}

/// A well-formed cube holding pixels in two different cells is never
/// terminal, for any palette the engine accepts.
proof fn lemma_multi_pixel_not_terminal(pal: Seq<Rgb>, cube: ColourCube, j1: int, j2: int)
    requires
        cube_wf(cube),
        0 <= j1 < j2 < pal.len(),
        in_box(box_of(cube), pal[j1]),
        in_box(box_of(cube), pal[j2]),
        !(cell_r(pal[j1]) == cell_r(pal[j2]) && cell_g(pal[j1]) == cell_g(pal[j2]) && cell_b(
            pal[j1],
        ) == cell_b(pal[j2])),
    ensures
        !terminal_cube(pal, cube),
{
    let a = pal[j1];
    let b = pal[j2];
    assert(!(a == b));
    assert(!is_unit(cube));
    lemma_box_agg_two_pixels(pal, box_of(cube), j1, j2);
    lemma_multi_pixel_priority(pal, cube, j1, j2);
    if cell_r(a) != cell_r(b) {
        if cell_r(a) < cell_r(b) {
            lemma_multi_pixel_cut(pal, cube, 0, j1, j2);
        } else {
            lemma_multi_pixel_cut(pal, cube, 0, j2, j1);
        }
    } else if cell_g(a) != cell_g(b) {
        if cell_g(a) < cell_g(b) {
            lemma_multi_pixel_cut(pal, cube, 1, j1, j2);
        } else {
            lemma_multi_pixel_cut(pal, cube, 1, j2, j1);
        }
    } else {
        if cell_b(a) < cell_b(b) {
            lemma_multi_pixel_cut(pal, cube, 2, j1, j2);
        } else {
            lemma_multi_pixel_cut(pal, cube, 2, j2, j1);
        }
    }
}

/// Sum over a cube list of each cube's pixel count.
spec fn sum_counts(pal: Seq<Rgb>, cubes: Seq<ColourCube>) -> int
    decreases cubes.len(),
{
    if cubes.len() == 0 {
        0
    } else {
        sum_counts(pal, cubes.drop_last()) + box_agg(pal, box_of(cubes.last())).count
    }
}

/// How many cubes of the list contain the pixel's cell.
spec fn count_containing(cubes: Seq<ColourCube>, x: Rgb) -> int
    decreases cubes.len(),
{
    if cubes.len() == 0 {
        0
    } else {
        count_containing(cubes.drop_last(), x) + if in_box(box_of(cubes.last()), x) {
            1int
        } else {
            0int
        }
    }
}

proof fn lemma_count_containing_zero(cubes: Seq<ColourCube>, x: Rgb)
    requires
        forall|k: int| 0 <= k < cubes.len() ==> !in_box(box_of(#[trigger] cubes[k]), x),
    ensures
        count_containing(cubes, x) == 0,
    decreases cubes.len(),
{
    if cubes.len() > 0 {
        assert(!in_box(box_of(cubes[cubes.len() - 1]), x));
        assert forall|k: int| 0 <= k < cubes.drop_last().len() implies !in_box(
            box_of(#[trigger] cubes.drop_last()[k]),
            x,
        ) by {
            assert(cubes.drop_last()[k] == cubes[k]);
        }
        lemma_count_containing_zero(cubes.drop_last(), x);
    }
}

proof fn lemma_count_containing_one(cubes: Seq<ColourCube>, x: Rgb, k0: int)
    requires
        0 <= k0 < cubes.len(),
        in_box(box_of(cubes[k0]), x),
        forall|k: int| 0 <= k < cubes.len() && in_box(box_of(#[trigger] cubes[k]), x) ==> k == k0,
    ensures
        count_containing(cubes, x) == 1,
    decreases cubes.len(),
{
    if k0 == cubes.len() - 1 {
        assert forall|k: int| 0 <= k < cubes.drop_last().len() implies !in_box(
            box_of(#[trigger] cubes.drop_last()[k]),
            x,
        ) by {
            assert(cubes.drop_last()[k] == cubes[k]);
        }
        lemma_count_containing_zero(cubes.drop_last(), x);
        assert(in_box(box_of(cubes.last()), x));
    } else {
        assert(!in_box(box_of(cubes[cubes.len() - 1]), x));
        assert(cubes.drop_last()[k0] == cubes[k0]);
        assert forall|k: int|
            0 <= k < cubes.drop_last().len() && in_box(box_of(#[trigger] cubes.drop_last()[k]), x)
            implies k == k0 by {
            assert(cubes.drop_last()[k] == cubes[k]);
        }
        lemma_count_containing_one(cubes.drop_last(), x, k0);
    }
}

proof fn lemma_sum_counts_pal_step(pal: Seq<Rgb>, cubes: Seq<ColourCube>)
    requires
        pal.len() > 0,
    ensures
        sum_counts(pal, cubes) == sum_counts(pal.drop_last(), cubes) + count_containing(
            cubes,
            pal.last(),
        ),
    decreases cubes.len(),
{
    if cubes.len() > 0 {
        lemma_sum_counts_pal_step(pal, cubes.drop_last());
        assert(box_agg(pal, box_of(cubes.last())).count == box_agg(
            pal.drop_last(),
            box_of(cubes.last()),
        ).count + (if in_box(box_of(cubes.last()), pal.last()) {
            1int
        } else {
            0int
        }));
    }
}

proof fn lemma_sum_counts_empty(cubes: Seq<ColourCube>)
    ensures
        sum_counts(Seq::<Rgb>::empty(), cubes) == 0,
    decreases cubes.len(),
{
    if cubes.len() > 0 {
        lemma_sum_counts_empty(cubes.drop_last());
    }
}

/// Each palette pixel lands in exactly one cube of a partition, so the
/// cube counts sum to the palette length.
proof fn lemma_sum_counts_total(pal: Seq<Rgb>, cubes: Seq<ColourCube>, vol: Seq<u8>)
    requires
        forall|r: int, g: int, b: int|
            in_grid(r, g, b) ==> #[trigger] vol[flat_idx(r, g, b)] < cubes.len() && cube_contains(
                cubes[vol[flat_idx(r, g, b)] as int],
                r,
                g,
                b,
            ),
        forall|k: int, r: int, g: int, b: int|
            0 <= k < cubes.len() && in_grid(r, g, b) && #[trigger] cube_contains(cubes[k], r, g, b)
                ==> vol[flat_idx(r, g, b)] == k,
    ensures
        sum_counts(pal, cubes) == pal.len(),
    decreases pal.len(),
{
    if pal.len() == 0 {
        assert(pal =~= Seq::<Rgb>::empty());
        lemma_sum_counts_empty(cubes);
    } else {
        lemma_sum_counts_total(pal.drop_last(), cubes, vol);
        lemma_sum_counts_pal_step(pal, cubes);
        let x = pal.last();
        let cr = cell_r(x);
        let cg = cell_g(x);
        let cb = cell_b(x);
        assert(in_grid(cr, cg, cb));
        let k0 = vol[flat_idx(cr, cg, cb)] as int;
        assert(cube_contains(cubes[k0], cr, cg, cb));
        assert(in_box(box_of(cubes[k0]), x));
        assert forall|k: int| 0 <= k < cubes.len() && in_box(box_of(#[trigger] cubes[k]), x)
            implies k == k0 by {
            assert(cube_contains(cubes[k], cr, cg, cb));
        }
        lemma_count_containing_one(cubes, x, k0);
    }
}

proof fn lemma_sum_counts_lower(pal: Seq<Rgb>, cubes: Seq<ColourCube>)
    requires
        forall|k: int|
            0 <= k < cubes.len() ==> box_agg(pal, box_of(#[trigger] cubes[k])).count >= 1,
    ensures
        sum_counts(pal, cubes) >= cubes.len(),
    decreases cubes.len(),
{
    if cubes.len() > 0 {
        assert forall|k: int| 0 <= k < cubes.drop_last().len() implies box_agg(
            pal,
            box_of(#[trigger] cubes.drop_last()[k]),
        ).count >= 1 by {
            assert(cubes.drop_last()[k] == cubes[k]);
        }
        lemma_sum_counts_lower(pal, cubes.drop_last());
        assert(box_agg(pal, box_of(cubes[cubes.len() - 1])).count >= 1);
    }
}

/// When counts of at least one each sum to exactly the number of cubes,
/// every count is exactly one.
proof fn lemma_sum_counts_each_one(pal: Seq<Rgb>, cubes: Seq<ColourCube>, k: int)
    requires
        forall|k2: int|
            0 <= k2 < cubes.len() ==> box_agg(pal, box_of(#[trigger] cubes[k2])).count >= 1,
        sum_counts(pal, cubes) == cubes.len(),
        0 <= k < cubes.len(),
    ensures
        box_agg(pal, box_of(cubes[k])).count == 1,
    decreases cubes.len(),
{
    assert forall|k2: int| 0 <= k2 < cubes.drop_last().len() implies box_agg(
        pal,
        box_of(#[trigger] cubes.drop_last()[k2]),
    ).count >= 1 by {
        assert(cubes.drop_last()[k2] == cubes[k2]);
    }
    lemma_sum_counts_lower(pal, cubes.drop_last());
    assert(box_agg(pal, box_of(cubes[cubes.len() - 1])).count >= 1);
    if k == cubes.len() - 1 {
    } else {
        assert(sum_counts(pal, cubes.drop_last()) == cubes.drop_last().len());
        lemma_sum_counts_each_one(pal, cubes.drop_last(), k);
        assert(cubes.drop_last()[k] == cubes[k]);
    }
}

/// Lossless below capacity: a palette of pixels in pairwise-distinct grid
/// cells, no longer than the requested colour count, compresses without
/// loss.  The output holds exactly one entry per input pixel, the entries
/// are pairwise distinct, and every input pixel's lookup returns exactly
/// its own colour.
pub proof fn lemma_lossless_below_capacity(pal: Seq<Rgb>, n: int, flat: Seq<Rgb>, vol: Seq<u8>)
    requires
        compress_post(pal, n, flat, vol),
        pal.len() <= n,
        forall|j1: int, j2: int|
            0 <= j1 < j2 < pal.len() ==> !(cell_r(#[trigger] pal[j1]) == cell_r(#[trigger] pal[j2])
                && cell_g(pal[j1]) == cell_g(pal[j2]) && cell_b(pal[j1]) == cell_b(pal[j2])),
    ensures
        flat.len() == pal.len(),
        forall|j: int|
            0 <= j < pal.len() ==> flat[spec_lookup(vol, #[trigger] pal[j]) as int] == pal[j],
        forall|k1: int, k2: int| 0 <= k1 < k2 < flat.len() ==> flat[k1] != flat[k2],
{
    let cubes = choose|cubes: Seq<ColourCube>| quantisation_ok(pal, n, flat, vol, cubes);
    lemma_sum_counts_total(pal, cubes, vol);
    // Every final cube holds exactly one pixel: below the requested count
    // a cube with two pixels would not be terminal, and at the requested
    // count the counts of one pixel or more must sum to the cube count.
    assert forall|k: int| 0 <= k < cubes.len() implies box_agg(
        pal,
        box_of(#[trigger] cubes[k]),
    ).count == 1 by {
        if flat.len() < n {
            if box_agg(pal, box_of(cubes[k])).count >= 2 {
                lemma_box_agg_two_witnesses(pal, box_of(cubes[k]));
                let (j1, j2) = choose|j1: int, j2: int|
                    0 <= j1 < j2 < pal.len() && in_box(box_of(cubes[k]), #[trigger] pal[j1])
                        && in_box(box_of(cubes[k]), #[trigger] pal[j2]);
                assert(!(cell_r(pal[j1]) == cell_r(pal[j2]) && cell_g(pal[j1]) == cell_g(pal[j2])
                    && cell_b(pal[j1]) == cell_b(pal[j2])));
                lemma_multi_pixel_not_terminal(pal, cubes[k], j1, j2);
                assert(terminal_cube(pal, cubes[k]));
                assert(false);
            }
        } else {
            lemma_sum_counts_lower(pal, cubes);
            lemma_sum_counts_each_one(pal, cubes, k);
        }
    }
    // With one pixel per cube the counts sum both to the palette length
    // and to the cube count.
    lemma_sum_counts_lower(pal, cubes);
    assert(sum_counts(pal, cubes) <= cubes.len()) by {
        lemma_sum_counts_upper_ones(pal, cubes);
    }
    assert(flat.len() == pal.len());
    assert forall|j: int| 0 <= j < pal.len() implies flat[spec_lookup(vol, #[trigger] pal[j]) as int]
        == pal[j] by {
        let c = pal[j];
        let cr = cell_r(c);
        let cg = cell_g(c);
        let cb = cell_b(c);
        assert(in_grid(cr, cg, cb));
        let k = vol[flat_idx(cr, cg, cb)] as int;
        assert(0 <= k < cubes.len() && cube_contains(cubes[k], cr, cg, cb));
        assert(in_box(box_of(cubes[k]), c));
        assert forall|j2: int|
            0 <= j2 < pal.len() && in_box(box_of(cubes[k]), #[trigger] pal[j2]) implies pal[j2]
            == c by {
            if j2 != j {
                if j < j2 {
                    lemma_box_agg_two_pixels(pal, box_of(cubes[k]), j, j2);
                } else {
                    lemma_box_agg_two_pixels(pal, box_of(cubes[k]), j2, j);
                }
                assert(false);
            }
        }
        lemma_box_agg_pixel(pal, box_of(cubes[k]), j);
        lemma_uniform_region_mean(pal, cubes[k], c);
    }
    assert forall|k1: int, k2: int| 0 <= k1 < k2 < flat.len() implies flat[k1] != flat[k2] by {
        lemma_box_agg_witness(pal, box_of(cubes[k1]));
        lemma_box_agg_witness(pal, box_of(cubes[k2]));
        let w1 = choose|j: int| 0 <= j < pal.len() && in_box(box_of(cubes[k1]), #[trigger] pal[j]);
        let w2 = choose|j: int| 0 <= j < pal.len() && in_box(box_of(cubes[k2]), #[trigger] pal[j]);
        assert(flat[spec_lookup(vol, pal[w1]) as int] == pal[w1]);
        assert(flat[spec_lookup(vol, pal[w2]) as int] == pal[w2]);
        assert(cube_contains(cubes[k1], cell_r(pal[w1]), cell_g(pal[w1]), cell_b(pal[w1])));
        assert(cube_contains(cubes[k2], cell_r(pal[w2]), cell_g(pal[w2]), cell_b(pal[w2])));
        assert(in_grid(cell_r(pal[w1]), cell_g(pal[w1]), cell_b(pal[w1])));
        assert(in_grid(cell_r(pal[w2]), cell_g(pal[w2]), cell_b(pal[w2])));
        assert(vol[flat_idx(cell_r(pal[w1]), cell_g(pal[w1]), cell_b(pal[w1]))] == k1);
        assert(vol[flat_idx(cell_r(pal[w2]), cell_g(pal[w2]), cell_b(pal[w2]))] == k2);
        assert(flat[k1] == pal[w1] && flat[k2] == pal[w2]);
        if flat[k1] == flat[k2] {
            assert(pal[w1] == pal[w2]);
            if w1 != w2 {
                if w1 < w2 {
                    assert(!(cell_r(pal[w1]) == cell_r(pal[w2]) && cell_g(pal[w1]) == cell_g(
                        pal[w2],
                    ) && cell_b(pal[w1]) == cell_b(pal[w2])));
                } else {
                    assert(!(cell_r(pal[w2]) == cell_r(pal[w1]) && cell_g(pal[w2]) == cell_g(
                        pal[w1],
                    ) && cell_b(pal[w2]) == cell_b(pal[w1])));
                }
                assert(false);
            }
            assert(false);
        }
    }
}

proof fn lemma_sum_counts_upper_ones(pal: Seq<Rgb>, cubes: Seq<ColourCube>)
    requires
        forall|k: int|
            0 <= k < cubes.len() ==> box_agg(pal, box_of(#[trigger] cubes[k])).count <= 1,
    ensures
        sum_counts(pal, cubes) <= cubes.len(),
    decreases cubes.len(),
{
    if cubes.len() > 0 {
        assert forall|k: int| 0 <= k < cubes.drop_last().len() implies box_agg(
            pal,
            box_of(#[trigger] cubes.drop_last()[k]),
        ).count <= 1 by {
            assert(cubes.drop_last()[k] == cubes[k]);
        }
        lemma_sum_counts_upper_ones(pal, cubes.drop_last());
        assert(box_agg(pal, box_of(cubes[cubes.len() - 1])).count <= 1);
    }
}

/// Grid coordinates of the cell with flattened index `m`.
pub open spec fn idx_r(m: int) -> int {
    m / 1024
}

pub open spec fn idx_g(m: int) -> int {
    (m % 1024) / 32
}

pub open spec fn idx_b(m: int) -> int {
    m % 32
}

/// The cell with flattened index `m` holds at least one palette pixel.
pub open spec fn cell_occupied(pal: Seq<Rgb>, m: int) -> bool {
    box_agg(pal, cell_box(idx_r(m), idx_g(m), idx_b(m))).count > 0
}

/// The cube contains the cell with flattened index `m`.
pub open spec fn cube_has_index(cube: ColourCube, m: int) -> bool {
    cube_contains(cube, idx_r(m), idx_g(m), idx_b(m))
}

/// Number of occupied cells of the cube among flattened indices below `m`.
pub open spec fn occ_in(pal: Seq<Rgb>, cube: ColourCube, m: int) -> int
    decreases m,
{
    if m <= 0 {
        0
    } else {
        occ_in(pal, cube, m - 1) + if cell_occupied(pal, m - 1) && cube_has_index(cube, m - 1) {
            1int
        } else {
            0int
        }
    }
}

/// The number of distinct reduced colours of a palette: its occupied
/// cells over the whole grid.
pub open spec fn distinct_cell_count(pal: Seq<Rgb>) -> int {
    occ_in(pal, full_cube(), SPACE_CELLS as int)
}

/// Decomposing a flattened index recovers a grid cell, and flattening a
/// grid cell recovers its index.
proof fn lemma_idx_roundtrip(m: int)
    requires
        0 <= m < SPACE_CELLS,
    ensures
        in_grid(idx_r(m), idx_g(m), idx_b(m)),
        flat_idx(idx_r(m), idx_g(m), idx_b(m)) == m,
{
    vstd::arithmetic::div_mod::lemma_fundamental_div_mod(m, 1024);
    vstd::arithmetic::div_mod::lemma_mod_bound(m, 1024);
    vstd::arithmetic::div_mod::lemma_fundamental_div_mod(m % 1024, 32);
    vstd::arithmetic::div_mod::lemma_mod_bound(m % 1024, 32);
    assert(m % 32 == (m % 1024) % 32) by {
        vstd::arithmetic::div_mod::lemma_mod_mod(m, 32, 32);
        assert(32 * 32 == 1024);
    }
}

/// A pixel's cell lies at its own flattened index and is occupied.
proof fn lemma_pixel_cell_index(pal: Seq<Rgb>, j: int)
    requires
        0 <= j < pal.len(),
    ensures
        ({
            let m = flat_idx(cell_r(pal[j]), cell_g(pal[j]), cell_b(pal[j]));
            &&& 0 <= m < SPACE_CELLS
            &&& idx_r(m) == cell_r(pal[j])
            &&& idx_g(m) == cell_g(pal[j])
            &&& idx_b(m) == cell_b(pal[j])
            &&& cell_occupied(pal, m)
        }),
{
    let x = pal[j];
    let r = cell_r(x);
    let g = cell_g(x);
    let b = cell_b(x);
    assert(in_grid(r, g, b));
    let m = flat_idx(r, g, b);
    lemma_idx_roundtrip(m);
    lemma_flat_idx_injective(idx_r(m), idx_g(m), idx_b(m), r, g, b);
    assert(in_box(cell_box(r, g, b), x));
    lemma_box_agg_pixel(pal, cell_box(r, g, b), j);
}

/// Occupied-cell counts never decrease as the index range grows.
proof fn lemma_occ_in_mono(pal: Seq<Rgb>, cube: ColourCube, m1: int, m2: int)
    requires
        m1 <= m2,
    ensures
        occ_in(pal, cube, m1) <= occ_in(pal, cube, m2),
    decreases m2 - m1,
{
    if m1 < m2 {
        lemma_occ_in_mono(pal, cube, m1, m2 - 1);
    }
}

/// An occupied cell of the cube below the bound counts at least once.
proof fn lemma_occ_in_ge_one(pal: Seq<Rgb>, cube: ColourCube, m: int, m0: int)
    requires
        0 <= m0 < m,
        cell_occupied(pal, m0),
        cube_has_index(cube, m0),
    ensures
        occ_in(pal, cube, m) >= 1,
{
    lemma_occ_in_mono(pal, cube, 0, m0);
    assert(occ_in(pal, cube, m0 + 1) == occ_in(pal, cube, m0) + 1);
    lemma_occ_in_mono(pal, cube, m0 + 1, m);
}

/// Two distinct occupied cells of the cube count at least twice.
proof fn lemma_occ_in_two(pal: Seq<Rgb>, cube: ColourCube, m: int, ma: int, mb: int)
    requires
        0 <= ma < mb < m,
        cell_occupied(pal, ma) && cube_has_index(cube, ma),
        cell_occupied(pal, mb) && cube_has_index(cube, mb),
    ensures
        occ_in(pal, cube, m) >= 2,
{
    lemma_occ_in_ge_one(pal, cube, mb, ma);
    assert(occ_in(pal, cube, mb + 1) == occ_in(pal, cube, mb) + 1);
    lemma_occ_in_mono(pal, cube, mb + 1, m);
}

/// Number of cubes of the list containing the cell at flattened index `m`.
pub open spec fn cubes_with_index(cubes: Seq<ColourCube>, m: int) -> int
    decreases cubes.len(),
{
    if cubes.len() == 0 {
        0
    } else {
        cubes_with_index(cubes.drop_last(), m) + if cube_has_index(cubes.last(), m) {
            1int
        } else {
            0int
        }
    }
}

proof fn lemma_cwi_zero(cubes: Seq<ColourCube>, m: int)
    requires
        forall|k: int| 0 <= k < cubes.len() ==> !cube_has_index(#[trigger] cubes[k], m),
    ensures
        cubes_with_index(cubes, m) == 0,
    decreases cubes.len(),
{
    if cubes.len() > 0 {
        assert(!cube_has_index(cubes[cubes.len() - 1], m));
        assert forall|k: int| 0 <= k < cubes.drop_last().len() implies !cube_has_index(
            #[trigger] cubes.drop_last()[k],
            m,
        ) by {
            assert(cubes.drop_last()[k] == cubes[k]);
        }
        lemma_cwi_zero(cubes.drop_last(), m);
    }
}

proof fn lemma_cwi_one(cubes: Seq<ColourCube>, m: int, k0: int)
    requires
        0 <= k0 < cubes.len(),
        cube_has_index(cubes[k0], m),
        forall|k: int| 0 <= k < cubes.len() && cube_has_index(#[trigger] cubes[k], m) ==> k == k0,
    ensures
        cubes_with_index(cubes, m) == 1,
    decreases cubes.len(),
{
    if k0 == cubes.len() - 1 {
        assert forall|k: int| 0 <= k < cubes.drop_last().len() implies !cube_has_index(
            #[trigger] cubes.drop_last()[k],
            m,
        ) by {
            assert(cubes.drop_last()[k] == cubes[k]);
        }
        lemma_cwi_zero(cubes.drop_last(), m);
        assert(cube_has_index(cubes.last(), m));
    } else {
        assert(!cube_has_index(cubes[cubes.len() - 1], m));
        assert(cubes.drop_last()[k0] == cubes[k0]);
        assert forall|k: int|
            0 <= k < cubes.drop_last().len() && cube_has_index(#[trigger] cubes.drop_last()[k], m)
            implies k == k0 by {
            assert(cubes.drop_last()[k] == cubes[k]);
        }
        lemma_cwi_one(cubes.drop_last(), m, k0);
    }
}

/// Sum over a cube list of each cube's occupied-cell count below `m`.
pub open spec fn sum_occ(pal: Seq<Rgb>, cubes: Seq<ColourCube>, m: int) -> int
    decreases cubes.len(),
{
    if cubes.len() == 0 {
        0
    } else {
        sum_occ(pal, cubes.drop_last(), m) + occ_in(pal, cubes.last(), m)
    }
}

proof fn lemma_sum_occ_step(pal: Seq<Rgb>, cubes: Seq<ColourCube>, m: int)
    requires
        m >= 1,
    ensures
        sum_occ(pal, cubes, m) == sum_occ(pal, cubes, m - 1) + (if cell_occupied(pal, m - 1) {
            cubes_with_index(cubes, m - 1)
        } else {
            0int
        }),
    decreases cubes.len(),
{
    if cubes.len() > 0 {
        lemma_sum_occ_step(pal, cubes.drop_last(), m);
    }
}

/// Each occupied cell lies in exactly one cube of a partition, so the
/// per-cube occupied-cell counts sum to the total occupied-cell count.
proof fn lemma_sum_occ_total(pal: Seq<Rgb>, cubes: Seq<ColourCube>, vol: Seq<u8>, m: int)
    requires
        0 <= m <= SPACE_CELLS,
        forall|r: int, g: int, b: int|
            in_grid(r, g, b) ==> #[trigger] vol[flat_idx(r, g, b)] < cubes.len() && cube_contains(
                cubes[vol[flat_idx(r, g, b)] as int],
                r,
                g,
                b,
            ),
        forall|k: int, r: int, g: int, b: int|
            0 <= k < cubes.len() && in_grid(r, g, b) && #[trigger] cube_contains(cubes[k], r, g, b)
                ==> vol[flat_idx(r, g, b)] == k,
    ensures
        sum_occ(pal, cubes, m) == occ_in(pal, full_cube(), m),
    decreases m,
{
    if m == 0 {
        assert forall|k: int| 0 <= k < cubes.len() implies occ_in(pal, #[trigger] cubes[k], 0)
            == 0 by {}
        assert(sum_occ(pal, cubes, 0) == 0) by {
            lemma_sum_occ_zero(pal, cubes);
        }
    } else {
        lemma_sum_occ_total(pal, cubes, vol, m - 1);
        lemma_sum_occ_step(pal, cubes, m);
        lemma_idx_roundtrip(m - 1);
        let r = idx_r(m - 1);
        let g = idx_g(m - 1);
        let b = idx_b(m - 1);
        assert(cube_has_index(full_cube(), m - 1));
        if cell_occupied(pal, m - 1) {
            let k0 = vol[flat_idx(r, g, b)] as int;
            assert(cube_contains(cubes[k0], r, g, b));
            assert(cube_has_index(cubes[k0], m - 1));
            assert forall|k: int|
                0 <= k < cubes.len() && cube_has_index(#[trigger] cubes[k], m - 1) implies k
                == k0 by {
                assert(cube_contains(cubes[k], r, g, b));
            }
            lemma_cwi_one(cubes, m - 1, k0);
        }
    }
}

proof fn lemma_sum_occ_zero(pal: Seq<Rgb>, cubes: Seq<ColourCube>)
    ensures
        sum_occ(pal, cubes, 0) == 0,
    decreases cubes.len(),
{
    if cubes.len() > 0 {
        lemma_sum_occ_zero(pal, cubes.drop_last());
    }
}

proof fn lemma_sum_occ_lower(pal: Seq<Rgb>, cubes: Seq<ColourCube>, m: int)
    requires
        forall|k: int| 0 <= k < cubes.len() ==> occ_in(pal, #[trigger] cubes[k], m) >= 1,
    ensures
        sum_occ(pal, cubes, m) >= cubes.len(),
    decreases cubes.len(),
{
    if cubes.len() > 0 {
        assert forall|k: int| 0 <= k < cubes.drop_last().len() implies occ_in(
            pal,
            #[trigger] cubes.drop_last()[k],
            m,
        ) >= 1 by {
            assert(cubes.drop_last()[k] == cubes[k]);
        }
        lemma_sum_occ_lower(pal, cubes.drop_last(), m);
        assert(occ_in(pal, cubes[cubes.len() - 1], m) >= 1);
    }
}

/// When occupied-cell counts of at least one each sum to exactly the
/// number of cubes, every count is exactly one.
proof fn lemma_sum_occ_each_one(pal: Seq<Rgb>, cubes: Seq<ColourCube>, m: int, k: int)
    requires
        forall|k2: int| 0 <= k2 < cubes.len() ==> occ_in(pal, #[trigger] cubes[k2], m) >= 1,
        sum_occ(pal, cubes, m) == cubes.len(),
        0 <= k < cubes.len(),
    ensures
        occ_in(pal, cubes[k], m) == 1,
    decreases cubes.len(),
{
    assert forall|k2: int| 0 <= k2 < cubes.drop_last().len() implies occ_in(
        pal,
        #[trigger] cubes.drop_last()[k2],
        m,
    ) >= 1 by {
        assert(cubes.drop_last()[k2] == cubes[k2]);
    }
    lemma_sum_occ_lower(pal, cubes.drop_last(), m);
    assert(occ_in(pal, cubes[cubes.len() - 1], m) >= 1);
    if k == cubes.len() - 1 {
    } else {
        assert(sum_occ(pal, cubes.drop_last(), m) == cubes.drop_last().len());
        lemma_sum_occ_each_one(pal, cubes.drop_last(), m, k);
        assert(cubes.drop_last()[k] == cubes[k]);
    }
}

/// Channel moments of one grid cell's pixels stay within the cell's
/// eight-value channel range, scaled by the pixel count.
proof fn lemma_cell_agg_bounds(pal: Seq<Rgb>, r: int, g: int, b: int)
    ensures
        ({
            let e = box_agg(pal, cell_box(r, g, b));
            &&& 8 * r * e.count <= e.m_r <= 8 * r * e.count + 7 * e.count
            &&& 8 * g * e.count <= e.m_g <= 8 * g * e.count + 7 * e.count
            &&& 8 * b * e.count <= e.m_b <= 8 * b * e.count + 7 * e.count
        }),
    decreases pal.len(),
{
    if pal.len() > 0 {
        lemma_cell_agg_bounds(pal.drop_last(), r, g, b);
        let x = pal.last();
        if in_box(cell_box(r, g, b), x) {
            vstd::arithmetic::div_mod::lemma_fundamental_div_mod(x.r as int, 8);
            vstd::arithmetic::div_mod::lemma_mod_bound(x.r as int, 8);
            vstd::arithmetic::div_mod::lemma_fundamental_div_mod(x.g as int, 8);
            vstd::arithmetic::div_mod::lemma_mod_bound(x.g as int, 8);
            vstd::arithmetic::div_mod::lemma_fundamental_div_mod(x.b as int, 8);
            vstd::arithmetic::div_mod::lemma_mod_bound(x.b as int, 8);
            assert(8 * r <= x.r <= 8 * r + 7);
            assert(8 * g <= x.g <= 8 * g + 7);
            assert(8 * b <= x.b <= 8 * b + 7);
            let c = box_agg(pal.drop_last(), cell_box(r, g, b)).count;
            assert(8 * r * (c + 1) == 8 * r * c + 8 * r) by (nonlinear_arith);
            assert(8 * g * (c + 1) == 8 * g * c + 8 * g) by (nonlinear_arith);
            assert(8 * b * (c + 1) == 8 * b * c + 8 * b) by (nonlinear_arith);
        }
    }
}

proof fn lemma_div_in_range(m: int, c: int, lo: int)
    requires
        1 <= c,
        0 <= lo,
        lo * c <= m <= lo * c + 7 * c,
    ensures
        lo <= m / c <= lo + 7,
{
    assert(lo <= m / c <= lo + 7) by (nonlinear_arith)
        requires
            1 <= c && 0 <= lo && lo * c <= m <= lo * c + 7 * c,
    ;
}

/// The mean colour of one grid cell's pixels lies in that cell.
proof fn lemma_cell_mean_in_cell(pal: Seq<Rgb>, r: int, g: int, b: int)
    requires
        in_grid(r, g, b),
        box_agg(pal, cell_box(r, g, b)).count >= 1,
    ensures
        ({
            let mean = mean_colour(box_agg(pal, cell_box(r, g, b)));
            cell_r(mean) == r && cell_g(mean) == g && cell_b(mean) == b
        }),
{
    let e = box_agg(pal, cell_box(r, g, b));
    lemma_cell_agg_bounds(pal, r, g, b);
    lemma_div_in_range(e.m_r, e.count, 8 * r);
    lemma_div_in_range(e.m_g, e.count, 8 * g);
    lemma_div_in_range(e.m_b, e.count, 8 * b);
    let mean = mean_colour(e);
    assert(8 * r <= mean.r <= 8 * r + 7 && 8 * g <= mean.g <= 8 * g + 7 && 8 * b <= mean.b <= 8
        * b + 7);
    assert(mean.r as int / 8 == r && mean.g as int / 8 == g && mean.b as int / 8 == b) by (
    nonlinear_arith)
        requires
            8 * r <= mean.r <= 8 * r + 7 && 8 * g <= mean.g <= 8 * g + 7 && 8 * b <= mean.b <= 8
                * b + 7 && 0 <= r && 0 <= g && 0 <= b,
    ;
}

proof fn lemma_occ_in_two_witnesses(pal: Seq<Rgb>, cube: ColourCube, m: int)
    requires
        occ_in(pal, cube, m) >= 2,
    ensures
        exists|ma: int, mb: int|
            #![trigger cell_occupied(pal, ma), cell_occupied(pal, mb)]
            0 <= ma < mb < m && (cell_occupied(pal, ma) && cube_has_index(cube, ma)) && (
            cell_occupied(pal, mb) && cube_has_index(cube, mb)),
    decreases m,
{
    if m > 0 {
        if cell_occupied(pal, m - 1) && cube_has_index(cube, m - 1) {
            if occ_in(pal, cube, m - 1) >= 1 {
                lemma_occ_in_one_witness(pal, cube, m - 1);
                let ma = choose|ma: int|
                    0 <= ma < m - 1 && #[trigger] cell_occupied(pal, ma) && cube_has_index(
                        cube,
                        ma,
                    );
                assert(0 <= ma < m - 1 < m && cell_occupied(pal, ma) && cube_has_index(cube, ma)
                    && cell_occupied(pal, m - 1) && cube_has_index(cube, m - 1));
            }
        } else {
            lemma_occ_in_two_witnesses(pal, cube, m - 1);
        }
    }
}

proof fn lemma_occ_in_one_witness(pal: Seq<Rgb>, cube: ColourCube, m: int)
    requires
        occ_in(pal, cube, m) >= 1,
    ensures
        exists|ma: int|
            0 <= ma < m && #[trigger] cell_occupied(pal, ma) && cube_has_index(cube, ma),
    decreases m,
{
    if m > 0 {
        if cell_occupied(pal, m - 1) && cube_has_index(cube, m - 1) {
            assert(0 <= m - 1 < m && cell_occupied(pal, m - 1) && cube_has_index(cube, m - 1));
        } else {
            lemma_occ_in_one_witness(pal, cube, m - 1);
        }
    }
}

proof fn lemma_sum_occ_upper_ones(pal: Seq<Rgb>, cubes: Seq<ColourCube>, m: int)
    requires
        forall|k: int| 0 <= k < cubes.len() ==> occ_in(pal, #[trigger] cubes[k], m) <= 1,
    ensures
        sum_occ(pal, cubes, m) <= cubes.len(),
    decreases cubes.len(),
{
    if cubes.len() > 0 {
        assert forall|k: int| 0 <= k < cubes.drop_last().len() implies occ_in(
            pal,
            #[trigger] cubes.drop_last()[k],
            m,
        ) <= 1 by {
            assert(cubes.drop_last()[k] == cubes[k]);
        }
        lemma_sum_occ_upper_ones(pal, cubes.drop_last(), m);
        assert(occ_in(pal, cubes[cubes.len() - 1], m) <= 1);
    }
}

/// An occupied cell holds a palette pixel whose cell it is.
proof fn lemma_occupied_cell_pixel(pal: Seq<Rgb>, m: int)
    requires
        0 <= m < SPACE_CELLS,
        cell_occupied(pal, m),
    ensures
        exists|j: int|
            0 <= j < pal.len() && cell_r(#[trigger] pal[j]) == idx_r(m) && cell_g(pal[j]) == idx_g(
                m,
            ) && cell_b(pal[j]) == idx_b(m),
{
    lemma_box_agg_witness(pal, cell_box(idx_r(m), idx_g(m), idx_b(m)));
    let j = choose|j: int|
        0 <= j < pal.len() && in_box(cell_box(idx_r(m), idx_g(m), idx_b(m)), #[trigger] pal[j]);
    assert(cell_r(pal[j]) == idx_r(m) && cell_g(pal[j]) == idx_g(m) && cell_b(pal[j]) == idx_b(m));
}

/// Lossless below capacity, for any palette: when the pixels occupy at
/// most `n` grid cells, every final cube holds exactly one occupied cell,
/// the output has exactly one entry per occupied cell, the entries are
/// pairwise distinct, and each input colour's lookup returns the mean of
/// its own cell's pixels — a colour with the input's own reduced value.
pub proof fn lemma_lossless_any_palette(pal: Seq<Rgb>, n: int, flat: Seq<Rgb>, vol: Seq<u8>)
    requires
        compress_post(pal, n, flat, vol),
        distinct_cell_count(pal) <= n,
    ensures
        flat.len() == distinct_cell_count(pal),
        forall|j: int|
            0 <= j < pal.len() ==> ({
                let k = spec_lookup(vol, #[trigger] pal[j]) as int;
                &&& flat[k] == mean_colour(
                    box_agg(pal, cell_box(cell_r(pal[j]), cell_g(pal[j]), cell_b(pal[j]))),
                )
                &&& cell_r(flat[k]) == cell_r(pal[j])
                &&& cell_g(flat[k]) == cell_g(pal[j])
                &&& cell_b(flat[k]) == cell_b(pal[j])
            }),
        forall|k1: int, k2: int|
            0 <= k1 < k2 < flat.len() ==> !(cell_r(#[trigger] flat[k1]) == cell_r(
                #[trigger] flat[k2],
            ) && cell_g(flat[k1]) == cell_g(flat[k2]) && cell_b(flat[k1]) == cell_b(flat[k2])),
        forall|k1: int, k2: int| 0 <= k1 < k2 < flat.len() ==> flat[k1] != flat[k2],
{
    let cubes = choose|cubes: Seq<ColourCube>| quantisation_ok(pal, n, flat, vol, cubes);
    let total = SPACE_CELLS as int;
    assert forall|k: int| 0 <= k < cubes.len() implies occ_in(pal, #[trigger] cubes[k], total)
        >= 1 by {
        lemma_box_agg_witness(pal, box_of(cubes[k]));
        let j = choose|j: int| 0 <= j < pal.len() && in_box(box_of(cubes[k]), #[trigger] pal[j]);
        lemma_pixel_cell_index(pal, j);
        let m = flat_idx(cell_r(pal[j]), cell_g(pal[j]), cell_b(pal[j]));
        assert(cube_contains(cubes[k], cell_r(pal[j]), cell_g(pal[j]), cell_b(pal[j])));
        assert(cube_has_index(cubes[k], m));
        lemma_occ_in_ge_one(pal, cubes[k], total, m);
    }
    assert forall|k: int| 0 <= k < cubes.len() implies occ_in(pal, #[trigger] cubes[k], total)
        == 1 by {
        if occ_in(pal, cubes[k], total) >= 2 {
            if flat.len() < n {
                assert(terminal_cube(pal, cubes[k]));
                lemma_occ_in_two_witnesses(pal, cubes[k], total);
                let (ma, mb) = choose|ma: int, mb: int|
                    #![trigger cell_occupied(pal, ma), cell_occupied(pal, mb)]
                    0 <= ma < mb < total && (cell_occupied(pal, ma) && cube_has_index(
                        cubes[k],
                        ma,
                    )) && (cell_occupied(pal, mb) && cube_has_index(cubes[k], mb));
                lemma_occupied_cell_pixel(pal, ma);
                lemma_occupied_cell_pixel(pal, mb);
                let ja = choose|j: int|
                    0 <= j < pal.len() && cell_r(#[trigger] pal[j]) == idx_r(ma) && cell_g(pal[j])
                        == idx_g(ma) && cell_b(pal[j]) == idx_b(ma);
                let jb = choose|j: int|
                    0 <= j < pal.len() && cell_r(#[trigger] pal[j]) == idx_r(mb) && cell_g(pal[j])
                        == idx_g(mb) && cell_b(pal[j]) == idx_b(mb);
                lemma_idx_roundtrip(ma);
                lemma_idx_roundtrip(mb);
                assert(!(cell_r(pal[ja]) == cell_r(pal[jb]) && cell_g(pal[ja]) == cell_g(pal[jb])
                    && cell_b(pal[ja]) == cell_b(pal[jb])));
                assert(ja != jb);
                assert(in_box(box_of(cubes[k]), pal[ja]));
                assert(in_box(box_of(cubes[k]), pal[jb]));
                if ja < jb {
                    lemma_multi_pixel_not_terminal(pal, cubes[k], ja, jb);
                } else {
                    lemma_multi_pixel_not_terminal(pal, cubes[k], jb, ja);
                }
                assert(false);
            } else {
                lemma_sum_occ_total(pal, cubes, vol, total);
                lemma_sum_occ_lower(pal, cubes, total);
                lemma_sum_occ_each_one(pal, cubes, total, k);
                assert(false);
            }
        }
    }
    lemma_sum_occ_total(pal, cubes, vol, total);
    lemma_sum_occ_lower(pal, cubes, total);
    lemma_sum_occ_upper_ones(pal, cubes, total);
    assert(flat.len() == distinct_cell_count(pal));
    assert forall|j: int| 0 <= j < pal.len() implies ({
        let k = spec_lookup(vol, #[trigger] pal[j]) as int;
        &&& flat[k] == mean_colour(
            box_agg(pal, cell_box(cell_r(pal[j]), cell_g(pal[j]), cell_b(pal[j]))),
        )
        &&& cell_r(flat[k]) == cell_r(pal[j])
        &&& cell_g(flat[k]) == cell_g(pal[j])
        &&& cell_b(flat[k]) == cell_b(pal[j])
    }) by {
        let c = pal[j];
        let cr = cell_r(c);
        let cg = cell_g(c);
        let cb = cell_b(c);
        lemma_pixel_cell_index(pal, j);
        let mc = flat_idx(cr, cg, cb);
        assert(in_grid(cr, cg, cb));
        let k = vol[flat_idx(cr, cg, cb)] as int;
        assert(0 <= k < cubes.len() && cube_contains(cubes[k], cr, cg, cb));
        assert(cube_has_index(cubes[k], mc));
        assert forall|j2: int| 0 <= j2 < pal.len() implies (in_box(
            box_of(cubes[k]),
            #[trigger] pal[j2],
        ) <==> in_box(cell_box(cr, cg, cb), pal[j2])) by {
            if in_box(box_of(cubes[k]), pal[j2]) {
                lemma_pixel_cell_index(pal, j2);
                let m2 = flat_idx(cell_r(pal[j2]), cell_g(pal[j2]), cell_b(pal[j2]));
                assert(cube_contains(
                    cubes[k],
                    cell_r(pal[j2]),
                    cell_g(pal[j2]),
                    cell_b(pal[j2]),
                ));
                assert(cube_has_index(cubes[k], m2));
                if m2 != mc {
                    if m2 < mc {
                        lemma_occ_in_two(pal, cubes[k], total, m2, mc);
                    } else {
                        lemma_occ_in_two(pal, cubes[k], total, mc, m2);
                    }
                    assert(false);
                }
                lemma_flat_idx_injective(
                    cell_r(pal[j2]),
                    cell_g(pal[j2]),
                    cell_b(pal[j2]),
                    cr,
                    cg,
                    cb,
                );
                assert(in_box(cell_box(cr, cg, cb), pal[j2]));
            }
            if in_box(cell_box(cr, cg, cb), pal[j2]) {
                assert(cell_r(pal[j2]) == cr && cell_g(pal[j2]) == cg && cell_b(pal[j2]) == cb);
                assert(in_box(box_of(cubes[k]), pal[j2]));
            }
        }
        lemma_box_agg_equiv_on(pal, box_of(cubes[k]), cell_box(cr, cg, cb));
        assert(flat[k] == mean_colour(box_agg(pal, cell_box(cr, cg, cb))));
        lemma_cell_mean_in_cell(pal, cr, cg, cb);
    }
    assert forall|k1: int, k2: int| 0 <= k1 < k2 < flat.len() implies !(cell_r(
        #[trigger] flat[k1],
    ) == cell_r(#[trigger] flat[k2]) && cell_g(flat[k1]) == cell_g(flat[k2]) && cell_b(flat[k1])
        == cell_b(flat[k2])) by {
        lemma_box_agg_witness(pal, box_of(cubes[k1]));
        lemma_box_agg_witness(pal, box_of(cubes[k2]));
        let j1 = choose|j: int| 0 <= j < pal.len() && in_box(box_of(cubes[k1]), #[trigger] pal[j]);
        let j2 = choose|j: int| 0 <= j < pal.len() && in_box(box_of(cubes[k2]), #[trigger] pal[j]);
        assert(in_grid(cell_r(pal[j1]), cell_g(pal[j1]), cell_b(pal[j1])));
        assert(in_grid(cell_r(pal[j2]), cell_g(pal[j2]), cell_b(pal[j2])));
        assert(cube_contains(cubes[k1], cell_r(pal[j1]), cell_g(pal[j1]), cell_b(pal[j1])));
        assert(cube_contains(cubes[k2], cell_r(pal[j2]), cell_g(pal[j2]), cell_b(pal[j2])));
        assert(vol[flat_idx(cell_r(pal[j1]), cell_g(pal[j1]), cell_b(pal[j1]))] == k1);
        assert(vol[flat_idx(cell_r(pal[j2]), cell_g(pal[j2]), cell_b(pal[j2]))] == k2);
        if cell_r(flat[k1]) == cell_r(flat[k2]) && cell_g(flat[k1]) == cell_g(flat[k2]) && cell_b(
            flat[k1],
        ) == cell_b(flat[k2]) {
            assert(cell_r(flat[k1]) == cell_r(pal[j1]) && cell_g(flat[k1]) == cell_g(pal[j1])
                && cell_b(flat[k1]) == cell_b(pal[j1]));
            assert(cell_r(flat[k2]) == cell_r(pal[j2]) && cell_g(flat[k2]) == cell_g(pal[j2])
                && cell_b(flat[k2]) == cell_b(pal[j2]));
            assert(vol[flat_idx(cell_r(pal[j1]), cell_g(pal[j1]), cell_b(pal[j1]))] == k2);
            assert(false);
        }
    }
}

/// Well-separated colours never collapse: two palette pixels from
/// different grid cells keep distinct lookup indices whenever the palette
/// fits the requested count.  In particular the eight corner colours of
/// the RGB cube, present in such a palette, keep eight distinct entries.
pub proof fn lemma_separated_colours_distinct(
    pal: Seq<Rgb>,
    n: int,
    flat: Seq<Rgb>,
    vol: Seq<u8>,
    j1: int,
    j2: int,
)
    requires
        compress_post(pal, n, flat, vol),
        distinct_cell_count(pal) <= n,
        0 <= j1 < pal.len(),
        0 <= j2 < pal.len(),
        !(cell_r(pal[j1]) == cell_r(pal[j2]) && cell_g(pal[j1]) == cell_g(pal[j2]) && cell_b(
            pal[j1],
        ) == cell_b(pal[j2])),
    ensures
        spec_lookup(vol, pal[j1]) != spec_lookup(vol, pal[j2]),
{
    lemma_lossless_any_palette(pal, n, flat, vol);
    if spec_lookup(vol, pal[j1]) == spec_lookup(vol, pal[j2]) {
        let k = spec_lookup(vol, pal[j1]) as int;
        assert(cell_r(flat[k]) == cell_r(pal[j1]) && cell_g(flat[k]) == cell_g(pal[j1])
            && cell_b(flat[k]) == cell_b(pal[j1]));
        assert(cell_r(flat[k]) == cell_r(pal[j2]) && cell_g(flat[k]) == cell_g(pal[j2])
            && cell_b(flat[k]) == cell_b(pal[j2]));
    }
}

/// Re-running the quantiser on any lossless output returns the same
/// colours unchanged, up to order: a palette that fits the requested
/// count compresses to entries in pairwise-distinct cells, and a second
/// run with the same count reproduces exactly those entries.
pub proof fn lemma_recompress_unchanged(
    pal: Seq<Rgb>,
    n: int,
    flat1: Seq<Rgb>,
    vol1: Seq<u8>,
    flat2: Seq<Rgb>,
    vol2: Seq<u8>,
)
    requires
        compress_post(pal, n, flat1, vol1),
        distinct_cell_count(pal) <= n,
        compress_post(flat1, n, flat2, vol2),
    ensures
        flat2.len() == flat1.len(),
        forall|k: int| 0 <= k < flat1.len() ==> flat2.contains(#[trigger] flat1[k]),
        forall|k: int| 0 <= k < flat2.len() ==> flat1.contains(#[trigger] flat2[k]),
{
    lemma_lossless_any_palette(pal, n, flat1, vol1);
    lemma_lossless_below_capacity(flat1, n, flat2, vol2);
    assert forall|k: int| 0 <= k < flat1.len() implies flat2.contains(#[trigger] flat1[k]) by {
        lemma_lookup_in_palette(flat1, n, flat2, vol2, flat1[k]);
        assert(flat2[spec_lookup(vol2, flat1[k]) as int] == flat1[k]);
    }
    let cubes2 = choose|cubes: Seq<ColourCube>| quantisation_ok(flat1, n, flat2, vol2, cubes);
    assert forall|k: int| 0 <= k < flat2.len() implies flat1.contains(#[trigger] flat2[k]) by {
        lemma_box_agg_witness(flat1, box_of(cubes2[k]));
        let j = choose|j: int| 0 <= j < flat1.len() && in_box(box_of(cubes2[k]), #[trigger] flat1[j]);
        assert(in_grid(cell_r(flat1[j]), cell_g(flat1[j]), cell_b(flat1[j])));
        assert(cube_contains(cubes2[k], cell_r(flat1[j]), cell_g(flat1[j]), cell_b(flat1[j])));
        assert(vol2[flat_idx(cell_r(flat1[j]), cell_g(flat1[j]), cell_b(flat1[j]))] == k);
        assert(flat2[spec_lookup(vol2, flat1[j]) as int] == flat1[j]);
        assert(flat2[k] == flat1[j]);
    }
}

/// Re-running the quantiser on the output of a one-colour compression
/// returns that palette unchanged.
pub proof fn lemma_recompress_single_colour(
    pal: Seq<Rgb>,
    n: int,
    flat1: Seq<Rgb>,
    vol1: Seq<u8>,
    flat2: Seq<Rgb>,
    vol2: Seq<u8>,
    c: Rgb,
)
    requires
        compress_post(pal, n, flat1, vol1),
        pal.len() >= 1,
        forall|j: int| 0 <= j < pal.len() ==> #[trigger] pal[j] == c,
        compress_post(flat1, n, flat2, vol2),
    ensures
        flat2 == flat1,
{
    lemma_single_colour_palette(pal, n, flat1, vol1, c);
    lemma_single_colour_palette(flat1, n, flat2, vol2, c);
    assert(flat2 =~= flat1);
}

/// Re-running the quantiser on the output of a two-colour compression
/// returns the same two colours, possibly swapped in order.
pub proof fn lemma_recompress_two_colours(
    pal: Seq<Rgb>,
    flat1: Seq<Rgb>,
    vol1: Seq<u8>,
    flat2: Seq<Rgb>,
    vol2: Seq<u8>,
    a: Rgb,
    b: Rgb,
)
    requires
        compress_post(pal, 2, flat1, vol1),
        pal == seq![a, b],
        !(cell_r(a) == cell_r(b) && cell_g(a) == cell_g(b) && cell_b(a) == cell_b(b)),
        compress_post(flat1, 2, flat2, vol2),
    ensures
        flat2.len() == 2,
        flat2 == flat1 || flat2 == seq![flat1[1], flat1[0]],
{
    lemma_two_colours_preserved(pal, flat1, vol1, a, b);
    let x = flat1[0];
    let y = flat1[1];
    assert((x == a && y == b) || (x == b && y == a));
    assert(flat1 =~= seq![x, y]);
    lemma_two_colours_preserved(flat1, flat2, vol2, x, y);
    let kx = spec_lookup(vol2, x) as int;
    let ky = spec_lookup(vol2, y) as int;
    assert(flat2[kx] == x && flat2[ky] == y && kx != ky);
    assert(0 <= kx < 2 && 0 <= ky < 2) by {
        let cubes = choose|cubes: Seq<ColourCube>| quantisation_ok(flat1, 2, flat2, vol2, cubes);
        assert(in_grid(cell_r(x), cell_g(x), cell_b(x)));
        assert(in_grid(cell_r(y), cell_g(y), cell_b(y)));
        assert(vol2[flat_idx(cell_r(x), cell_g(x), cell_b(x))] < cubes.len());
        assert(vol2[flat_idx(cell_r(y), cell_g(y), cell_b(y))] < cubes.len());
    }
    if kx == 0 {
        assert(flat2 =~= seq![x, y]);
        assert(flat2 == flat1);
    } else {
        assert(flat2 =~= seq![y, x]);
        assert(flat2 == seq![flat1[1], flat1[0]]);
    }
}

/// With a single requested colour the palette is exactly the global mean:
/// one cube covers the whole grid, and its mean is the palette's only
/// entry, to which every colour maps.
pub proof fn lemma_single_colour_mean(pal: Seq<Rgb>, flat: Seq<Rgb>, vol: Seq<u8>)
    requires
        compress_post(pal, 1, flat, vol),
    ensures
        flat.len() == 1,
        flat[0] == global_mean_colour(pal),
        forall|c: Rgb| spec_lookup(vol, c) == 0,
{
    let cubes = choose|cubes: Seq<ColourCube>| quantisation_ok(pal, 1, flat, vol, cubes);
    assert(cubes.len() == 1);
    assert forall|r: int, g: int, b: int| in_grid(r, g, b) implies cube_contains(
        cubes[0],
        r,
        g,
        b,
    ) && vol[flat_idx(r, g, b)] == 0 by {
        assert(vol[flat_idx(r, g, b)] < 1);
        assert(cube_contains(cubes[vol[flat_idx(r, g, b)] as int], r, g, b));
    }
    assert forall|c: Rgb| in_box(box_of(cubes[0]), c) <==> in_box(box_of(full_cube()), c) by {
        assert(in_grid(cell_r(c), cell_g(c), cell_b(c)));
        assert(cube_contains(cubes[0], cell_r(c), cell_g(c), cell_b(c)));
    }
    lemma_box_agg_equiv(pal, box_of(cubes[0]), box_of(full_cube()));
    assert(flat[0] == mean_colour(box_agg(pal, box_of(cubes[0]))));
    assert forall|c: Rgb| spec_lookup(vol, c) == 0 by {
        assert(in_grid(cell_r(c), cell_g(c), cell_b(c)));
    }
}

} // verus!
