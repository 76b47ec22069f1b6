//! The dense grid over reduced colour coordinates: histogram accumulation
//! and the in-place cumulative-moment transform.

use vstd::prelude::*;
use vstd::pervasive::VecAdditionalExecFns;
use crate::agg::{box_agg, cell_box, in_box, lemma_box_agg_empty, lemma_box_agg_split, lemma_box_agg_wf,
    lemma_box_incl_excl,
    pos_corner_sum, prefix_box, Box3};
use crate::colour::{cell_b, cell_g, cell_r, reduce_channel, Rgb, SPACE_SIZE};
use crate::cube::{box_of, cube_wf, ColourCube};
use crate::entry::{em_add, em_fits, em_of_colour, em_zero, lemma_sq_le, ColourEntry,
    MAX_PIXELS};

verus! {

/// Number of cells in the grid: SPACE_SIZE^3.
pub const SPACE_CELLS: usize = 32768;

/// A dense cube of values addressed by reduced colour coordinate; holds the
/// moment statistics during quantisation and the palette indices in the
/// final lookup volume.
pub struct ColourSpace<T> {
    s: Vec<T>,
}

/// Position of grid cell `(r, g, b)` in the flattened backing vector.
pub open spec fn flat_idx(r: int, g: int, b: int) -> int {
    1024 * r + 32 * g + b
}

/// Is `(r, g, b)` a grid cell coordinate?
pub open spec fn in_grid(r: int, g: int, b: int) -> bool {
    0 <= r < 32 && 0 <= g < 32 && 0 <= b < 32
}

/// Distinct grid cells flatten to distinct positions.
pub proof fn lemma_flat_idx_injective(r: int, g: int, b: int, r2: int, g2: int, b2: int)
    requires
        in_grid(r, g, b),
        in_grid(r2, g2, b2),
        flat_idx(r, g, b) == flat_idx(r2, g2, b2),
    ensures
        r == r2 && g == g2 && b == b2,
{
}

impl<T> View for ColourSpace<T> {
    type V = Seq<T>;

    closed spec fn view(&self) -> Seq<T> {
        self.s@
    }
}

impl<T> ColourSpace<T> {
    /// The backing vector covers the whole grid.
    pub open spec fn wf(self) -> bool {
        self@.len() == SPACE_CELLS
    }

    /// Read the value stored for an (already reduced) colour coordinate.
    pub fn index(&self, rgb: Rgb) -> (t: &T)
        requires
            self.wf(),
            rgb.r < SPACE_SIZE,
            rgb.g < SPACE_SIZE,
            rgb.b < SPACE_SIZE,
        ensures
            *t == self@[flat_idx(rgb.r as int, rgb.g as int, rgb.b as int)],
    {
        &self.s[(rgb.r as usize) * 1024 + (rgb.g as usize) * 32 + (rgb.b as usize)]
    }

    /// A grid built from a prepared backing vector of one value per cell.
    pub(crate) fn from_cells(s: Vec<T>) -> (out: ColourSpace<T>)
        requires
            s.len() == SPACE_CELLS,
        ensures
            out.wf(),
            out@ == s@,
    {
        ColourSpace { s }
    }

    /// Store a value for an (already reduced) colour coordinate.
    pub(crate) fn set_cell(&mut self, rgb: Rgb, t: T)
        requires
            old(self).wf(),
            rgb.r < SPACE_SIZE,
            rgb.g < SPACE_SIZE,
            rgb.b < SPACE_SIZE,
        ensures
            final(self).wf(),
            final(self)@ == old(self)@.update(
                flat_idx(rgb.r as int, rgb.g as int, rgb.b as int),
                t,
            ),
    {
        self.s.set((rgb.r as usize) * 1024 + (rgb.g as usize) * 32 + (rgb.b as usize), t);
    }
}

/// Every cell of the grid holds the raw per-bucket histogram of `pal`.
pub open spec fn histogrammed(s: Seq<ColourEntry>, pal: Seq<Rgb>) -> bool {
    forall|r: int, g: int, b: int|
        in_grid(r, g, b) ==> #[trigger] s[flat_idx(r, g, b)]@ == box_agg(pal, cell_box(r, g, b))
}

/// Every cell of the grid holds the cumulative (summed-volume) statistics
/// of `pal`: the aggregate over all cells componentwise at most its own
/// coordinate.
pub open spec fn cumulated(s: Seq<ColourEntry>, pal: Seq<Rgb>) -> bool {
    forall|r: int, g: int, b: int|
        in_grid(r, g, b) ==> #[trigger] s[flat_idx(r, g, b)]@ == box_agg(pal, prefix_box(r, g, b))
}

impl ColourSpace<ColourEntry> {
    /// A grid of zeroed statistics.
    pub fn new() -> (out: ColourSpace<ColourEntry>)
        ensures
            out.wf(),
            forall|i: int| 0 <= i < SPACE_CELLS ==> #[trigger] out@[i]@ == em_zero(),
    {
        let mut s: Vec<ColourEntry> = Vec::new();
        while s.len() < SPACE_CELLS
            invariant
                s.len() <= SPACE_CELLS,
                forall|i: int| 0 <= i < s.len() ==> #[trigger] s@[i]@ == em_zero(),
            decreases SPACE_CELLS - s.len(),
        {
            s.push(ColourEntry::new());
        }
        ColourSpace { s }
    }

    /// Accumulate the histogram of a palette: each pixel adds its raw
    /// channel values, a count of one and its squared magnitude to the
    /// bucket its reduced coordinate selects.
    pub fn histogram(&mut self, palette: &Vec<Rgb>)
        requires
            old(self).wf(),
            palette@.len() <= MAX_PIXELS,
            forall|i: int| 0 <= i < SPACE_CELLS ==> #[trigger] old(self)@[i]@ == em_zero(),
        ensures
            final(self).wf(),
            histogrammed(final(self)@, palette@),
    {
        let ghost pal = palette@;
        proof {
            assert forall|r: int, g: int, b: int| in_grid(r, g, b) implies #[trigger] self@[
                flat_idx(r, g, b)
            ]@ == box_agg(pal.take(0), cell_box(r, g, b)) by {
                assert(pal.take(0).len() == 0);
            }
        }
        let mut i: usize = 0;
        while i < palette.len()
            invariant
                self.wf(),
                i <= pal.len(),
                pal.len() <= MAX_PIXELS,
                palette@ == pal,
                histogrammed(self@, pal.take(i as int)),
            decreases pal.len() - i,
        {
            let c = palette[i];
            let rgb = Rgb {
                r: reduce_channel(c.r),
                g: reduce_channel(c.g),
                b: reduce_channel(c.b),
            };
            let ghost cr = cell_r(c);
            let ghost cg = cell_g(c);
            let ghost cb = cell_b(c);
            let mut e = *self.index(rgb);
            let one = ColourEntry::from_colour(c);
            proof {
                lemma_box_agg_wf(pal.take(i as int), cell_box(cr, cg, cb));
                lemma_sq_le(c.r as int, 255);
                lemma_sq_le(c.g as int, 255);
                lemma_sq_le(c.b as int, 255);
                assert(em_fits(em_add(e@, one@)));
            }
            e.add_inplace(&one);
            let ghost before = self@;
            self.set_cell(rgb, e);
            proof {
                assert(pal.take(i + 1).drop_last() =~= pal.take(i as int));
                assert(pal.take(i + 1).last() == c);
                assert forall|r: int, g: int, b: int| in_grid(r, g, b) implies #[trigger] self@[
                    flat_idx(r, g, b)
                ]@ == box_agg(pal.take(i + 1), cell_box(r, g, b)) by {
                    if r == cr && g == cg && b == cb {
                        assert(in_box(cell_box(r, g, b), c));
                        assert(self@[flat_idx(r, g, b)]@ == em_add(
                            box_agg(pal.take(i as int), cell_box(r, g, b)),
                            em_of_colour(c),
                        ));
                    } else {
                        assert(!in_box(cell_box(r, g, b), c));
                        assert(flat_idx(r, g, b) != flat_idx(cr, cg, cb)) by {
                            if flat_idx(r, g, b) == flat_idx(cr, cg, cb) {
                                lemma_flat_idx_injective(r, g, b, cr, cg, cb);
                            }
                        }
                        assert(self@[flat_idx(r, g, b)] == before[flat_idx(r, g, b)]);
                    }
                }
            }
            i = i + 1;
        }
        proof {
            assert(pal.take(pal.len() as int) =~= pal);
        }
    }

    /// Transform the raw histogram in place into a summed-volume table:
    /// afterwards cell `(r, g, b)` holds the aggregate over all cells
    /// componentwise at most `(r, g, b)`.  Runs a line sum over blue, an
    /// area sum over green, then folds in the previous red slice.
    pub fn cummulate_vals(&mut self, Ghost(pal): Ghost<Seq<Rgb>>)
        requires
            old(self).wf(),
            pal.len() <= MAX_PIXELS,
            histogrammed(old(self)@, pal),
        ensures
            final(self).wf(),
            cumulated(final(self)@, pal),
    {
        let mut r: usize = 0;
        while r < SPACE_SIZE
            invariant
                self.wf(),
                r <= SPACE_SIZE,
                pal.len() <= MAX_PIXELS,
                forall|r2: int, g2: int, b2: int|
                    in_grid(r2, g2, b2) && r2 < r ==> #[trigger] self@[flat_idx(r2, g2, b2)]@
                        == box_agg(pal, prefix_box(r2, g2, b2)),
                forall|r2: int, g2: int, b2: int|
                    in_grid(r2, g2, b2) && r2 >= r ==> #[trigger] self@[flat_idx(r2, g2, b2)]@
                        == box_agg(pal, cell_box(r2, g2, b2)),
            decreases SPACE_SIZE - r,
        {
            let mut areas: Vec<ColourEntry> = Vec::new();
            while areas.len() < SPACE_SIZE
                invariant
                    areas.len() <= SPACE_SIZE,
                    forall|b2: int|
                        0 <= b2 < areas.len() ==> #[trigger] areas@[b2]@ == em_zero(),
                decreases SPACE_SIZE - areas.len(),
            {
                areas.push(ColourEntry::new());
            }
            proof {
                assert forall|b2: int| 0 <= b2 < 32 implies #[trigger] areas@[b2]@ == box_agg(
                    pal,
                    (Box3 { r0: r as int, r1: r as int, g0: 0, g1: -1, b0: 0, b1: b2 }),
                ) by {
                    lemma_box_agg_empty(
                        pal,
                        Box3 { r0: r as int, r1: r as int, g0: 0, g1: -1, b0: 0, b1: b2 },
                    );
                }
            }
            let mut g: usize = 0;
            while g < SPACE_SIZE
                invariant
                    self.wf(),
                    r < SPACE_SIZE,
                    g <= SPACE_SIZE,
                    pal.len() <= MAX_PIXELS,
                    areas.len() == SPACE_SIZE,
                    forall|r2: int, g2: int, b2: int|
                        in_grid(r2, g2, b2) && (r2 < r || (r2 == r && g2 < g)) ==> #[trigger] self@[
                            flat_idx(r2, g2, b2)
                        ]@ == box_agg(pal, prefix_box(r2, g2, b2)),
                    forall|r2: int, g2: int, b2: int|
                        in_grid(r2, g2, b2) && (r2 > r || (r2 == r && g2 >= g)) ==> #[trigger] self@[
                            flat_idx(r2, g2, b2)
                        ]@ == box_agg(pal, cell_box(r2, g2, b2)),
                    forall|b2: int|
                        0 <= b2 < 32 ==> #[trigger] areas@[b2]@ == box_agg(
                            pal,
                            (Box3 {
                                r0: r as int,
                                r1: r as int,
                                g0: 0,
                                g1: g - 1,
                                b0: 0,
                                b1: b2,
                            }),
                        ),
                decreases SPACE_SIZE - g,
            {
                let mut line = ColourEntry::new();
                proof {
                    lemma_box_agg_empty(
                        pal,
                        Box3 { r0: r as int, r1: r as int, g0: g as int, g1: g as int, b0: 0, b1: -1 },
                    );
                }
                let mut b: usize = 0;
                while b < SPACE_SIZE
                    invariant
                        self.wf(),
                        r < SPACE_SIZE,
                        g < SPACE_SIZE,
                        b <= SPACE_SIZE,
                        pal.len() <= MAX_PIXELS,
                        areas.len() == SPACE_SIZE,
                        forall|r2: int, g2: int, b2: int|
                            in_grid(r2, g2, b2) && (r2 < r || (r2 == r && g2 < g) || (r2 == r && g2
                                == g && b2 < b)) ==> #[trigger] self@[flat_idx(r2, g2, b2)]@
                                == box_agg(pal, prefix_box(r2, g2, b2)),
                        forall|r2: int, g2: int, b2: int|
                            in_grid(r2, g2, b2) && (r2 > r || (r2 == r && g2 > g) || (r2 == r && g2
                                == g && b2 >= b)) ==> #[trigger] self@[flat_idx(r2, g2, b2)]@
                                == box_agg(pal, cell_box(r2, g2, b2)),
                        forall|b2: int|
                            0 <= b2 < b ==> #[trigger] areas@[b2]@ == box_agg(
                                pal,
                                (Box3 {
                                    r0: r as int,
                                    r1: r as int,
                                    g0: 0,
                                    g1: g as int,
                                    b0: 0,
                                    b1: b2,
                                }),
                            ),
                        forall|b2: int|
                            b <= b2 < 32 ==> #[trigger] areas@[b2]@ == box_agg(
                                pal,
                                (Box3 {
                                    r0: r as int,
                                    r1: r as int,
                                    g0: 0,
                                    g1: g - 1,
                                    b0: 0,
                                    b1: b2,
                                }),
                            ),
                        line@ == box_agg(
                            pal,
                            (Box3 {
                                r0: r as int,
                                r1: r as int,
                                g0: g as int,
                                g1: g as int,
                                b0: 0,
                                b1: b - 1,
                            }),
                        ),
                    decreases SPACE_SIZE - b,
                {
                    let ghost ri = r as int;
                    let ghost gi = g as int;
                    let ghost bi = b as int;
                    let ghost row_prev = Box3 { r0: ri, r1: ri, g0: gi, g1: gi, b0: 0, b1: bi - 1 };
                    let ghost row_cur = Box3 { r0: ri, r1: ri, g0: gi, g1: gi, b0: 0, b1: bi };
                    let ghost slab_prev = Box3 { r0: ri, r1: ri, g0: 0, g1: gi - 1, b0: 0, b1: bi };
                    let ghost slab_cur = Box3 { r0: ri, r1: ri, g0: 0, g1: gi, b0: 0, b1: bi };
                    let cell = Rgb { r: r as u8, g: g as u8, b: b as u8 };
                    let point = *self.index(cell);
                    proof {
                        lemma_box_agg_wf(pal, row_prev);
                        lemma_box_agg_wf(pal, cell_box(ri, gi, bi));
                        lemma_box_agg_split(pal, row_cur, row_prev, cell_box(ri, gi, bi));
                    }
                    line.add_inplace(&point);
                    let mut area = areas[b];
                    proof {
                        lemma_box_agg_wf(pal, slab_prev);
                        lemma_box_agg_wf(pal, row_cur);
                        lemma_box_agg_split(pal, slab_cur, slab_prev, row_cur);
                    }
                    area.add_inplace(&line);
                    areas.set(b, area);
                    let mut value = area;
                    if r > 0 {
                        let prev_cell = Rgb { r: (r - 1) as u8, g: g as u8, b: b as u8 };
                        let prev = *self.index(prev_cell);
                        proof {
                            lemma_box_agg_wf(pal, prefix_box(ri - 1, gi, bi));
                            lemma_box_agg_wf(pal, slab_cur);
                            lemma_box_agg_split(
                                pal,
                                prefix_box(ri, gi, bi),
                                prefix_box(ri - 1, gi, bi),
                                slab_cur,
                            );
                        }
                        value.add_inplace(&prev);
                    } else {
                        proof {
                            assert(slab_cur == prefix_box(ri, gi, bi));
                        }
                    }
                    let ghost before = self@;
                    self.set_cell(cell, value);
                    proof {
                        assert(self@[flat_idx(ri, gi, bi)]@ == box_agg(pal, prefix_box(ri, gi, bi)));
                        assert forall|r2: int, g2: int, b2: int|
                            in_grid(r2, g2, b2) && !(r2 == ri && g2 == gi && b2 == bi) implies
                            #[trigger] self@[flat_idx(r2, g2, b2)] == before[flat_idx(r2, g2, b2)] by {
                            if flat_idx(r2, g2, b2) == flat_idx(ri, gi, bi) {
                                lemma_flat_idx_injective(r2, g2, b2, ri, gi, bi);
                            }
                        }
                    }
                    b = b + 1;
                }
                g = g + 1;
            }
            r = r + 1;
        }
    }

    /// Cumulative value at a corner, with every coordinate passed shifted
    /// up by one so that zero means "no cells below this bound" and the
    /// corner contributes nothing.
    fn prefix_cell(&self, rp: usize, gp: usize, bp: usize, Ghost(pal): Ghost<Seq<Rgb>>) -> (e:
        ColourEntry)
        requires
            self.wf(),
            cumulated(self@, pal),
            rp <= 32,
            gp <= 32,
            bp <= 32,
        ensures
            e@ == box_agg(pal, prefix_box(rp - 1, gp - 1, bp - 1)),
    {
        if rp == 0 || gp == 0 || bp == 0 {
            proof {
                lemma_box_agg_empty(pal, prefix_box(rp - 1, gp - 1, bp - 1));
            }
            ColourEntry::new()
        } else {
            *self.index(Rgb { r: (rp - 1) as u8, g: (gp - 1) as u8, b: (bp - 1) as u8 })
        }
    }

    /// Aggregate statistics over the cells of a cube, from eight corner
    /// lookups of the summed-volume table: four added, four subtracted.
    /// One query serves every caller — the full record comes back and each
    /// caller extracts the fields it needs.
    pub(crate) fn query(&self, cube: &ColourCube, Ghost(pal): Ghost<Seq<Rgb>>) -> (e: ColourEntry)
        requires
            self.wf(),
            cumulated(self@, pal),
            cube_wf(*cube),
            pal.len() <= MAX_PIXELS,
        ensures
            e@ == box_agg(pal, box_of(*cube)),
    {
        let ghost bx = box_of(*cube);
        let sr = cube.start.r as usize;
        let sg = cube.start.g as usize;
        let sb = cube.start.b as usize;
        let er = cube.end.r as usize;
        let eg = cube.end.g as usize;
        let eb = cube.end.b as usize;
        let p1 = self.prefix_cell(er + 1, eg + 1, eb + 1, Ghost(pal));
        let p2 = self.prefix_cell(er + 1, sg, sb, Ghost(pal));
        let p3 = self.prefix_cell(sr, eg + 1, sb, Ghost(pal));
        let p4 = self.prefix_cell(sr, sg, eb + 1, Ghost(pal));
        let n1 = self.prefix_cell(sr, sg, sb, Ghost(pal));
        let n2 = self.prefix_cell(sr, eg + 1, eb + 1, Ghost(pal));
        let n3 = self.prefix_cell(er + 1, sg, eb + 1, Ghost(pal));
        let n4 = self.prefix_cell(er + 1, eg + 1, sb, Ghost(pal));
        proof {
            lemma_box_agg_wf(pal, prefix_box(er as int, eg as int, eb as int));
            lemma_box_agg_wf(pal, prefix_box(er as int, sg - 1, sb - 1));
            lemma_box_agg_wf(pal, prefix_box(sr - 1, eg as int, sb - 1));
            lemma_box_agg_wf(pal, prefix_box(sr - 1, sg - 1, eb as int));
            lemma_box_agg_wf(pal, prefix_box(sr - 1, sg - 1, sb - 1));
            lemma_box_agg_wf(pal, prefix_box(sr - 1, eg as int, eb as int));
            lemma_box_agg_wf(pal, prefix_box(er as int, sg - 1, eb as int));
            lemma_box_agg_wf(pal, prefix_box(er as int, eg as int, sb - 1));
            lemma_box_agg_wf(pal, bx);
            lemma_box_incl_excl(pal, bx);
        }
        let mut acc = p1;
        acc.add_inplace(&p2);
        acc.add_inplace(&p3);
        acc.add_inplace(&p4);
        proof {
            assert(acc@ == pos_corner_sum(pal, bx));
        }
        acc.sub_inplace(&n1);
        acc.sub_inplace(&n2);
        acc.sub_inplace(&n3);
        acc.sub_inplace(&n4);
        acc
    }
}

} // verus!
