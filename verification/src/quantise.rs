//! The quantisation driver: the variance-ordered cube worklist, the
//! palette/index materialiser and the public `compress` entry point.

use vstd::prelude::*;
use vstd::pervasive::VecAdditionalExecFns;
use crate::agg::{box_agg, in_box, lemma_box_agg_all, lemma_box_agg_wf};
use crate::colour::{cell_b, cell_g, cell_r, reduce_channel, Rgb};
use crate::cube::{box_of, cube_contains, cube_wf, full_cube, is_unit, lower_cube, upper_cube,
    ColourCube};
use crate::entry::{ColourEntry, EntryModel, MAX_PIXELS};
use crate::space::{cumulated, flat_idx, in_grid, lemma_flat_idx_injective, ColourSpace,
    SPACE_CELLS};
use crate::split::{best_cut, cut_valid, has_best_cut, is_best_cut, lemma_best_cut_unique,
    no_positive_cut, spec_priority, split_at, split_success};

verus! {

/// The colour compression a client asks the pipeline for: Wu quantisation
/// down to the given number of colours, or none.
#[derive(Clone, Copy, Debug)]
pub enum ColourCompression {
    Wu(u8),
    Uncompressed,
}

impl Default for ColourCompression {
    /// By default no compression is applied.
    fn default() -> (d: Self)
        ensures
            d is Uncompressed,
    {
        Self::Uncompressed
    }
}

/// Why `compress` rejected its input.
#[derive(Clone, Copy, PartialEq, Eq, Structural, Debug)]
pub enum CompressError {
    /// The palette held no colours at all.
    EmptyPalette,
    /// Zero output colours were requested.
    NoColours,
}

/// The palette index the lookup volume assigns to a full-precision colour.
pub open spec fn spec_lookup(vol: Seq<u8>, c: Rgb) -> u8 {
    vol[flat_idx(cell_r(c), cell_g(c), cell_b(c))]
}

/// The mean colour of an aggregate: each moment divided by the count,
/// truncated to eight bits.
pub open spec fn mean_colour(e: EntryModel) -> Rgb {
    Rgb {
        r: (e.m_r / e.count) as u8,
        g: (e.m_g / e.count) as u8,
        b: (e.m_b / e.count) as u8,
    }
}

/// A cube the main loop will never refine further: a unit cube, a cube
/// with fewer than two pixels, one whose integer variance floor is zero,
/// or one where no valid cut separates anything.
pub open spec fn terminal_cube(pal: Seq<Rgb>, cube: ColourCube) -> bool {
    ||| is_unit(cube)
    ||| box_agg(pal, box_of(cube)).count <= 1
    ||| spec_priority(box_agg(pal, box_of(cube))) == 0
    ||| no_positive_cut(pal, cube)
}

/// No grid cell lies in both cubes.
pub open spec fn cubes_disjoint(a: ColourCube, b: ColourCube) -> bool {
    forall|r: int, g: int, b2: int|
        !(#[trigger] cube_contains(a, r, g, b2) && cube_contains(b, r, g, b2))
}

/// Some cube of the queue contains the cell.
pub open spec fn queue_covers_cell(q: Seq<(ColourCube, u64)>, r: int, g: int, b: int) -> bool {
    exists|k: int| 0 <= k < q.len() && cube_contains((#[trigger] q[k]).0, r, g, b)
}

/// The queue's cubes are pairwise disjoint.
pub open spec fn queue_disjoint(q: Seq<(ColourCube, u64)>) -> bool {
    forall|j: int, k: int|
        0 <= j < k < q.len() ==> cubes_disjoint((#[trigger] q[j]).0, (#[trigger] q[k]).0)
}

/// The cube shares no cell with any cube of the queue.
pub open spec fn cube_outside_queue(q: Seq<(ColourCube, u64)>, c: ColourCube) -> bool {
    forall|k: int| 0 <= k < q.len() ==> cubes_disjoint((#[trigger] q[k]).0, c)
}

/// The queue's cubes partition the whole grid: every cell is covered, and
/// no two cubes overlap.
pub open spec fn queue_partitions(q: Seq<(ColourCube, u64)>) -> bool {
    &&& forall|r: int, g: int, b: int| in_grid(r, g, b) ==> queue_covers_cell(q, r, g, b)
    &&& queue_disjoint(q)
}

/// Entries are sorted ascending by priority, so the tail holds the cube
/// with the highest variance.
pub open spec fn queue_sorted(q: Seq<(ColourCube, u64)>) -> bool {
    forall|j: int, k: int| 0 <= j < k < q.len() ==> (#[trigger] q[j]).1 <= (#[trigger] q[k]).1
}

/// Per-entry facts the worklist maintains: well-formed non-empty cubes,
/// sorted priorities, and priority zero only on cubes the loop is done
/// with.
pub open spec fn queue_inv(q: Seq<(ColourCube, u64)>, pal: Seq<Rgb>) -> bool {
    &&& queue_sorted(q)
    &&& forall|k: int| 0 <= k < q.len() ==> cube_wf((#[trigger] q[k]).0)
    &&& forall|k: int| 0 <= k < q.len() ==> box_agg(pal, box_of((#[trigger] q[k]).0)).count >= 1
    &&& forall|k: int|
        0 <= k < q.len() ==> ((#[trigger] q[k]).1 == 0 ==> terminal_cube(pal, q[k].0))
}

/// Number of entries with a non-zero priority; part of the main loop's
/// termination measure.
pub open spec fn count_nonzero(q: Seq<(ColourCube, u64)>) -> nat
    decreases q.len(),
{
    if q.len() == 0 {
        0
    } else {
        count_nonzero(q.drop_last()) + if q.last().1 > 0 {
            1nat
        } else {
            0nat
        }
    }
}

/// Inserting a zero-priority entry at the front leaves the non-zero count
/// unchanged.
pub proof fn lemma_count_nonzero_insert_front_zero(q: Seq<(ColourCube, u64)>, e: (ColourCube, u64))
    requires
        e.1 == 0,
    ensures
        count_nonzero(q.insert(0, e)) == count_nonzero(q),
    decreases q.len(),
{
    if q.len() == 0 {
        assert(q.insert(0, e).len() == 1);
        assert(q.insert(0, e).last() == e);
        assert(q.insert(0, e).drop_last() =~= q);
    } else {
        assert(q.insert(0, e).last() == q.last());
        assert(q.insert(0, e).drop_last() =~= q.drop_last().insert(0, e));
        lemma_count_nonzero_insert_front_zero(q.drop_last(), e);
    }
}

/// How coverage and disjointness move across an insertion into the queue.
pub proof fn lemma_queue_insert(q: Seq<(ColourCube, u64)>, idx: int, e: (ColourCube, u64))
    requires
        0 <= idx <= q.len(),
    ensures
        forall|r: int, g: int, b: int|
            #[trigger] queue_covers_cell(q.insert(idx, e), r, g, b) <==> (queue_covers_cell(
                q,
                r,
                g,
                b,
            ) || cube_contains(e.0, r, g, b)),
        (queue_disjoint(q) && cube_outside_queue(q, e.0)) ==> queue_disjoint(q.insert(idx, e)),
        forall|c2: ColourCube|
            cube_outside_queue(q, c2) && cubes_disjoint(e.0, c2) ==> #[trigger] cube_outside_queue(
                q.insert(idx, e),
                c2,
            ),
{
    let q2 = q.insert(idx, e);
    q.insert_ensures(idx, e);
    assert forall|r: int, g: int, b: int| #[trigger] queue_covers_cell(q2, r, g, b) implies (
    queue_covers_cell(q, r, g, b) || cube_contains(e.0, r, g, b)) by {
        let k = choose|k: int| 0 <= k < q2.len() && cube_contains((#[trigger] q2[k]).0, r, g, b);
        if k < idx {
            assert(cube_contains(q[k].0, r, g, b));
        } else if k == idx {
        } else {
            assert(q2[k] == q[k - 1]);
            assert(cube_contains(q[k - 1].0, r, g, b));
        }
    }
    assert forall|r: int, g: int, b: int| (queue_covers_cell(q, r, g, b) || cube_contains(
        e.0,
        r,
        g,
        b,
    )) implies #[trigger] queue_covers_cell(q2, r, g, b) by {
        if queue_covers_cell(q, r, g, b) {
            let k = choose|k: int| 0 <= k < q.len() && cube_contains((#[trigger] q[k]).0, r, g, b);
            if k < idx {
                assert(cube_contains(q2[k].0, r, g, b));
            } else {
                assert(q2[k + 1] == q[k]);
                assert(cube_contains(q2[k + 1].0, r, g, b));
            }
        } else {
            assert(cube_contains(q2[idx].0, r, g, b));
        }
    }
    if queue_disjoint(q) && cube_outside_queue(q, e.0) {
        assert forall|j: int, k: int| 0 <= j < k < q2.len() implies cubes_disjoint(
            (#[trigger] q2[j]).0,
            (#[trigger] q2[k]).0,
        ) by {
            if j < idx && k < idx {
                assert(q2[j] == q[j] && q2[k] == q[k]);
            } else if j < idx && k == idx {
                assert(q2[j] == q[j]);
                assert(cubes_disjoint(q[j].0, e.0));
                assert forall|r: int, g: int, b2: int|
                    !(#[trigger] cube_contains(q2[j].0, r, g, b2) && cube_contains(
                        q2[k].0,
                        r,
                        g,
                        b2,
                    )) by {}
            } else if j < idx {
                assert(q2[j] == q[j] && q2[k] == q[k - 1]);
            } else if j == idx {
                assert(q2[k] == q[k - 1]);
                assert(cubes_disjoint(q[k - 1].0, e.0));
                assert forall|r: int, g: int, b2: int|
                    !(#[trigger] cube_contains(q2[j].0, r, g, b2) && cube_contains(
                        q2[k].0,
                        r,
                        g,
                        b2,
                    )) by {}
            } else {
                assert(q2[j] == q[j - 1] && q2[k] == q[k - 1]);
            }
        }
    }
    assert forall|c2: ColourCube|
        cube_outside_queue(q, c2) && cubes_disjoint(e.0, c2) implies #[trigger] cube_outside_queue(
        q2,
        c2,
    ) by {
        assert forall|k: int| 0 <= k < q2.len() implies cubes_disjoint((#[trigger] q2[k]).0, c2) by {
            if k < idx {
                assert(q2[k] == q[k]);
            } else if k > idx {
                assert(q2[k] == q[k - 1]);
            }
        }
    }
}

impl ColourSpace<u8> {
    /// A zeroed index volume.
    pub fn new() -> (out: ColourSpace<u8>)
        ensures
            out.wf(),
            forall|i: int| 0 <= i < SPACE_CELLS ==> #[trigger] out@[i] == 0u8,
    {
        let mut s: Vec<u8> = Vec::new();
        while s.len() < SPACE_CELLS
            invariant
                s.len() <= SPACE_CELLS,
                forall|i: int| 0 <= i < s.len() ==> #[trigger] s@[i] == 0u8,
            decreases SPACE_CELLS - s.len(),
        {
            s.push(0u8);
        }
        ColourSpace::from_cells(s)
    }

    /// Index assigned to a full-precision colour: its channels are reduced
    /// by the rounding shift and the volume is read at that coordinate.
    pub fn lookup(&self, colour: Rgb) -> (idx: u8)
        requires
            self.wf(),
        ensures
            idx == spec_lookup(self@, colour),
    {
        let cell = Rgb {
            r: reduce_channel(colour.r),
            g: reduce_channel(colour.g),
            b: reduce_channel(colour.b),
        };
        *self.index(cell)
    }
}

/// Write index `i` into every cell of the volume the cube spans.
fn mark(vol: &mut ColourSpace<u8>, cube: &ColourCube, i: u8)
    requires
        old(vol).wf(),
        cube_wf(*cube),
    ensures
        final(vol).wf(),
        forall|r: int, g: int, b: int|
            in_grid(r, g, b) ==> #[trigger] final(vol)@[flat_idx(r, g, b)] == (if cube_contains(
                *cube,
                r,
                g,
                b,
            ) {
                i
            } else {
                old(vol)@[flat_idx(r, g, b)]
            }),
{
    let mut r: usize = cube.start.r as usize;
    while r <= cube.end.r as usize
        invariant
            vol.wf(),
            cube_wf(*cube),
            cube.start.r <= r,
            r <= cube.end.r + 1,
            forall|r2: int, g2: int, b2: int|
                in_grid(r2, g2, b2) ==> #[trigger] vol@[flat_idx(r2, g2, b2)] == (if cube_contains(
                    *cube,
                    r2,
                    g2,
                    b2,
                ) && r2 < r {
                    i
                } else {
                    old(vol)@[flat_idx(r2, g2, b2)]
                }),
        decreases cube.end.r + 1 - r,
    {
        let mut g: usize = cube.start.g as usize;
        while g <= cube.end.g as usize
            invariant
                vol.wf(),
                cube_wf(*cube),
                cube.start.r <= r <= cube.end.r,
                cube.start.g <= g,
                g <= cube.end.g + 1,
                forall|r2: int, g2: int, b2: int|
                    in_grid(r2, g2, b2) ==> #[trigger] vol@[flat_idx(r2, g2, b2)] == (if
                    cube_contains(*cube, r2, g2, b2) && (r2 < r || (r2 == r && g2 < g)) {
                        i
                    } else {
                        old(vol)@[flat_idx(r2, g2, b2)]
                    }),
            decreases cube.end.g + 1 - g,
        {
            let mut b: usize = cube.start.b as usize;
            while b <= cube.end.b as usize
                invariant
                    vol.wf(),
                    cube_wf(*cube),
                    cube.start.r <= r <= cube.end.r,
                    cube.start.g <= g <= cube.end.g,
                    cube.start.b <= b,
                    b <= cube.end.b + 1,
                    forall|r2: int, g2: int, b2: int|
                        in_grid(r2, g2, b2) ==> #[trigger] vol@[flat_idx(r2, g2, b2)] == (if
                        cube_contains(*cube, r2, g2, b2) && (r2 < r || (r2 == r && g2 < g) || (r2
                            == r && g2 == g && b2 < b)) {
                            i
                        } else {
                            old(vol)@[flat_idx(r2, g2, b2)]
                        }),
                decreases cube.end.b + 1 - b,
            {
                let cell = Rgb { r: r as u8, g: g as u8, b: b as u8 };
                let ghost before = vol@;
                vol.set_cell(cell, i);
                proof {
                    assert forall|r2: int, g2: int, b2: int|
                        in_grid(r2, g2, b2) && !(r2 == r && g2 == g && b2 == b) implies #[trigger] vol@[
                        flat_idx(r2, g2, b2)
                    ] == before[flat_idx(r2, g2, b2)] by {
                        if flat_idx(r2, g2, b2) == flat_idx(r as int, g as int, b as int) {
                            lemma_flat_idx_injective(r2, g2, b2, r as int, g as int, b as int);
                        }
                    }
                }
                b = b + 1;
            }
            g = g + 1;
        }
        r = r + 1;
    }
}

/// Position at which a priority enters the worklist: just past every
/// entry whose priority is at most `v`.
pub open spec fn insert_pos(q: Seq<(ColourCube, u64)>, v: u64) -> int
    decreases q.len(),
{
    if q.len() == 0 {
        0
    } else if q.last().1 <= v {
        q.len() as int
    } else {
        insert_pos(q.drop_last(), v)
    }
}

/// When every entry below `idx` has priority at most `v` and every entry
/// from `idx` on has more, `idx` is the insert position.
proof fn lemma_insert_pos(q: Seq<(ColourCube, u64)>, v: u64, idx: int)
    requires
        0 <= idx <= q.len(),
        forall|j: int| 0 <= j < idx ==> (#[trigger] q[j]).1 <= v,
        forall|j: int| idx <= j < q.len() ==> (#[trigger] q[j]).1 > v,
    ensures
        insert_pos(q, v) == idx,
    decreases q.len(),
{
    if q.len() > 0 {
        if q.last().1 <= v {
            assert(idx == q.len()) by {
                if idx < q.len() {
                    assert(q[q.len() - 1].1 > v);
                }
            }
        } else {
            assert(idx < q.len()) by {
                if idx == q.len() {
                    assert(q[q.len() - 1].1 <= v);
                }
            }
            assert forall|j: int| 0 <= j < idx implies (#[trigger] q.drop_last()[j]).1 <= v by {
                assert(q.drop_last()[j] == q[j]);
            }
            assert forall|j: int| idx <= j < q.drop_last().len() implies (#[trigger] q.drop_last()[
                j
            ]).1 > v by {
                assert(q.drop_last()[j] == q[j]);
            }
            lemma_insert_pos(q.drop_last(), v, idx);
        }
    }
}

/// The exact queue a new cube produces: a unit cube enters at the front
/// with priority zero, any other cube at its insert position under its
/// own variance priority.
pub open spec fn spec_process(pal: Seq<Rgb>, q: Seq<(ColourCube, u64)>, cube: ColourCube) -> Seq<
    (ColourCube, u64),
> {
    if is_unit(cube) {
        q.insert(0, ((cube, 0u64)))
    } else {
        let v = spec_priority(box_agg(pal, box_of(cube))) as u64;
        q.insert(insert_pos(q, v), ((cube, v)))
    }
}

/// The insert position lies within the queue.
proof fn lemma_insert_pos_range(q: Seq<(ColourCube, u64)>, v: u64)
    ensures
        0 <= insert_pos(q, v) <= q.len(),
    decreases q.len(),
{
    if q.len() > 0 && q.last().1 > v {
        lemma_insert_pos_range(q.drop_last(), v);
    }
}

/// Inserting a cube grows the queue by one entry.
proof fn lemma_spec_process_len(pal: Seq<Rgb>, q: Seq<(ColourCube, u64)>, cube: ColourCube)
    ensures
        spec_process(pal, q, cube).len() == q.len() + 1,
{
    if !is_unit(cube) {
        let v = spec_priority(box_agg(pal, box_of(cube))) as u64;
        lemma_insert_pos_range(q, v);
        q.insert_ensures(insert_pos(q, v), ((cube, v)));
    } else {
        q.insert_ensures(0, ((cube, 0u64)));
    }
}

/// One complete run of the worklist: while the queue is shorter than the
/// requested count, pop the highest-priority cube; stop if its priority is
/// zero, otherwise split it at its best cut and insert both children, or
/// retire it to the front with priority zero when no cut separates
/// anything.  This is the whole greedy policy of the engine as a function
/// of the palette, the requested count and the starting queue.
pub open spec fn run_queue(pal: Seq<Rgb>, n: int, q: Seq<(ColourCube, u64)>) -> Seq<
    (ColourCube, u64),
>
    decreases n - q.len(), count_nonzero(q),
        via run_queue_decreases
{
    if q.len() == 0 || q.len() >= n {
        q
    } else {
        let next = q.last().0;
        let v = q.last().1;
        let rest = q.drop_last();
        if v == 0 {
            rest.insert(0, ((next, 0u64)))
        } else if has_best_cut(pal, next) {
            let d = best_cut(pal, next).0;
            let i = best_cut(pal, next).1;
            run_queue(
                pal,
                n,
                spec_process(
                    pal,
                    spec_process(pal, rest, lower_cube(next, d, i)),
                    upper_cube(next, d, i),
                ),
            )
        } else {
            run_queue(pal, n, rest.insert(0, ((next, 0u64))))
        }
    }
}

#[via_fn]
proof fn run_queue_decreases(pal: Seq<Rgb>, n: int, q: Seq<(ColourCube, u64)>) {
    if !(q.len() == 0 || q.len() >= n) {
        let next = q.last().0;
        let v = q.last().1;
        let rest = q.drop_last();
        if v == 0 {
        } else if has_best_cut(pal, next) {
            let d = best_cut(pal, next).0;
            let i = best_cut(pal, next).1;
            lemma_spec_process_len(pal, rest, lower_cube(next, d, i));
            lemma_spec_process_len(
                pal,
                spec_process(pal, rest, lower_cube(next, d, i)),
                upper_cube(next, d, i),
            );
        } else {
            assert(count_nonzero(q) == count_nonzero(rest) + 1);
            lemma_count_nonzero_insert_front_zero(rest, (next, 0u64));
        }
    }
}

/// The queue the main loop leaves behind, as a function of the palette
/// and the requested colour count alone.
pub open spec fn final_queue(pal: Seq<Rgb>, n: int) -> Seq<(ColourCube, u64)> {
    run_queue(pal, n, seq![(full_cube(), 1u64)])
}

/// The final cubes, in materialisation order: `compress`'s whole output
/// is a function of these, which makes it deterministic.
pub open spec fn final_cubes(pal: Seq<Rgb>, n: int) -> Seq<ColourCube> {
    Seq::new(final_queue(pal, n).len(), |k: int| (final_queue(pal, n)[k]).0)
}

/// Insert a freshly produced cube into the worklist: a unit cube enters at
/// the front with priority zero, any other cube at its sorted position
/// under its own variance.
fn process_part(
    space: &ColourSpace<ColourEntry>,
    cube: ColourCube,
    queue: &mut Vec<(ColourCube, u64)>,
    Ghost(pal): Ghost<Seq<Rgb>>,
)
    requires
        space.wf(),
        cumulated(space@, pal),
        pal.len() <= MAX_PIXELS,
        cube_wf(cube),
        box_agg(pal, box_of(cube)).count >= 1,
        queue_inv(old(queue)@, pal),
    ensures
        queue_inv(final(queue)@, pal),
        final(queue)@.len() == old(queue)@.len() + 1,
        final(queue)@ == spec_process(pal, old(queue)@, cube),
        exists|idx: int, v: u64|
            0 <= idx <= old(queue)@.len() && final(queue)@ == old(queue)@.insert(
                idx,
                ((cube, v)),
            ),
{
    let ghost q0 = queue@;
    if cube.start.r == cube.end.r && cube.start.g == cube.end.g && cube.start.b == cube.end.b {
        queue.insert(0, (cube, 0u64));
        proof {
            q0.insert_ensures(0, (cube, 0u64));
            assert(is_unit(cube));
            let q2 = queue@;
            assert forall|j: int, k: int| 0 <= j < k < q2.len() implies (#[trigger] q2[j]).1 <= (
            #[trigger] q2[k]).1 by {
                if j > 0 {
                    assert(q2[j] == q0[j - 1] && q2[k] == q0[k - 1]);
                }
            }
            assert(queue@ == q0.insert(0, ((cube, 0u64))));
            assert(queue@ == spec_process(pal, q0, cube));
        }
    } else {
        let v = space.variance(&cube, Ghost(pal));
        let mut idx: usize = 0;
        while idx < queue.len() && queue[idx].1 <= v
            invariant
                queue@ == q0,
                idx <= q0.len(),
                forall|j: int| 0 <= j < idx ==> (#[trigger] q0[j]).1 <= v,
            decreases q0.len() - idx,
        {
            idx = idx + 1;
        }
        proof {
            assert(idx == q0.len() || q0[idx as int].1 > v);
            assert forall|j: int| idx <= j < q0.len() implies (#[trigger] q0[j]).1 > v by {
                assert(q0[j].1 >= q0[idx as int].1);
            }
            lemma_insert_pos(q0, v, idx as int);
        }
        queue.insert(idx, (cube, v));
        proof {
            q0.insert_ensures(idx as int, (cube, v));
            let q2 = queue@;
            assert forall|j: int, k: int| 0 <= j < k < q2.len() implies (#[trigger] q2[j]).1 <= (
            #[trigger] q2[k]).1 by {
                if j < idx && k < idx {
                } else if j < idx && k == idx {
                } else if j < idx {
                    assert(q2[k] == q0[k - 1]);
                    assert(q0[k - 1].1 >= q0[idx as int].1);
                } else if j == idx {
                    assert(q2[k] == q0[k - 1]);
                    assert(q0[k - 1].1 >= q0[idx as int].1);
                } else {
                    assert(q2[j] == q0[j - 1] && q2[k] == q0[k - 1]);
                }
            }
            assert(queue@ == q0.insert(idx as int, ((cube, v))));
            assert(!is_unit(cube));
            assert(spec_priority(box_agg(pal, box_of(cube))) as u64 == v);
            assert(queue@ == spec_process(pal, q0, cube));
        }
    }
}

/// Everything `compress` promises of a result through one witness set of
/// cubes: as many cubes as palette entries, all well-formed and holding at
/// least one pixel; each palette entry the mean colour of its cube; the
/// lookup volume sending every grid cell to the one cube containing it;
/// and, when fewer cubes than requested were produced, every cube
/// unsplittable.
pub open spec fn quantisation_ok(
    pal: Seq<Rgb>,
    n: int,
    flat: Seq<Rgb>,
    vol: Seq<u8>,
    cubes: Seq<ColourCube>,
) -> bool {
    &&& cubes.len() == flat.len()
    &&& forall|k: int| 0 <= k < cubes.len() ==> cube_wf(#[trigger] cubes[k])
    &&& forall|k: int| 0 <= k < cubes.len() ==> box_agg(pal, box_of(#[trigger] cubes[k])).count
        >= 1
    &&& forall|k: int|
        0 <= k < cubes.len() ==> #[trigger] flat[k] == mean_colour(
            box_agg(pal, box_of(cubes[k])),
        )
    &&& forall|r: int, g: int, b: int|
        in_grid(r, g, b) ==> #[trigger] vol[flat_idx(r, g, b)] < cubes.len() && cube_contains(
            cubes[vol[flat_idx(r, g, b)] as int],
            r,
            g,
            b,
        )
    &&& forall|k: int, r: int, g: int, b: int|
        0 <= k < cubes.len() && in_grid(r, g, b) && #[trigger] cube_contains(cubes[k], r, g, b)
            ==> vol[flat_idx(r, g, b)] == k
    &&& (flat.len() < n ==> forall|k: int|
        0 <= k < cubes.len() ==> terminal_cube(pal, #[trigger] cubes[k]))
}

/// The full contract of a successful `compress` run: a palette of at most
/// `n` mean colours and a lookup volume that together realise a partition
/// of the reduced colour grid into occupied cubes.
pub open spec fn compress_post(pal: Seq<Rgb>, n: int, flat: Seq<Rgb>, vol: Seq<u8>) -> bool {
    &&& vol.len() == SPACE_CELLS
    &&& 1 <= flat.len() <= n
    &&& exists|cubes: Seq<ColourCube>| quantisation_ok(pal, n, flat, vol, cubes)
}

/// A mean channel value fits in eight bits.
proof fn lemma_mean_bound(m: int, c: int)
    requires
        0 <= m <= 255 * c,
        1 <= c,
    ensures
        0 <= m / c <= 255,
{
    assert(0 <= m / c <= 255) by (nonlinear_arith)
        requires
            0 <= m <= 255 * c && 1 <= c,
    ;
}

/// Reduce a palette to at most `n_colours` representative colours.
///
/// On success the first component is the compressed palette (the mean
/// colour of each final cube) and the second the dense lookup volume
/// mapping every reduced colour coordinate to its palette index; together
/// they satisfy `compress_post`.  An empty palette or a request for zero
/// colours is rejected before any grid work begins.
pub fn compress(palette: &Vec<Rgb>, n_colours: usize) -> (res: Result<
    (Vec<Rgb>, ColourSpace<u8>),
    CompressError,
>)
    requires
        palette@.len() <= MAX_PIXELS,
        n_colours <= 256,
    ensures
        match res {
            Result::Ok(out) => {
                &&& palette@.len() > 0
                &&& n_colours > 0
                &&& out.1.wf()
                &&& compress_post(palette@, n_colours as int, out.0@, out.1@)
                &&& quantisation_ok(
                    palette@,
                    n_colours as int,
                    out.0@,
                    out.1@,
                    final_cubes(palette@, n_colours as int),
                )
            },
            Result::Err(e) => {
                &&& (palette@.len() == 0 || n_colours == 0)
                &&& (e == CompressError::EmptyPalette <==> palette@.len() == 0)
                &&& (e == CompressError::NoColours <==> (palette@.len() > 0 && n_colours == 0))
            },
        },
{
    if palette.len() == 0 {
        return Result::Err(CompressError::EmptyPalette);
    }
    if n_colours == 0 {
        return Result::Err(CompressError::NoColours);
    }
    let ghost pal = palette@;
    let mut space = ColourSpace::<ColourEntry>::new();
    space.histogram(palette);
    space.cummulate_vals(Ghost(pal));
    let whole = ColourCube { start: Rgb { r: 0, g: 0, b: 0 }, end: Rgb { r: 31, g: 31, b: 31 } };
    proof {
        assert(forall|c: Rgb| in_box(box_of(whole), c));
        lemma_box_agg_all(pal, box_of(whole));
    }
    let mut queue: Vec<(ColourCube, u64)> = Vec::new();
    queue.push((whole, 1u64));
    let ghost q_init = queue@;
    proof {
        assert(whole == full_cube());
        assert(q_init =~= seq![(full_cube(), 1u64)]);
        assert(queue@[0] == ((whole, 1u64)));
        assert forall|r: int, g: int, b: int| in_grid(r, g, b) implies queue_covers_cell(
            queue@,
            r,
            g,
            b,
        ) by {
            assert(cube_contains(queue@[0].0, r, g, b));
        }
    }
    while queue.len() < n_colours
        invariant_except_break
            run_queue(pal, n_colours as int, queue@) == run_queue(pal, n_colours as int, q_init),
        invariant
            space.wf(),
            cumulated(space@, pal),
            pal.len() <= MAX_PIXELS,
            n_colours <= 256,
            1 <= queue@.len() <= n_colours,
            queue_inv(queue@, pal),
            queue_partitions(queue@),
        ensures
            space.wf(),
            cumulated(space@, pal),
            pal.len() <= MAX_PIXELS,
            n_colours <= 256,
            1 <= queue@.len() <= n_colours,
            queue_inv(queue@, pal),
            queue_partitions(queue@),
            queue@ == run_queue(pal, n_colours as int, q_init),
            queue@.len() == n_colours || (forall|k: int|
                0 <= k < queue@.len() ==> terminal_cube(pal, (#[trigger] queue@[k]).0)),
        decreases n_colours - queue@.len(), count_nonzero(queue@),
    {
        let ghost q0 = queue@;
        let last_i = queue.len() - 1;
        let (next, v) = queue.remove(last_i);
        let ghost q1 = queue@;
        proof {
            assert(q1 =~= q0.drop_last());
            assert((next, v) == q0[q0.len() - 1]);
            assert(cube_wf(next) && box_agg(pal, box_of(next)).count >= 1);
            assert forall|r: int, g: int, b: int| in_grid(r, g, b) implies (queue_covers_cell(
                q1,
                r,
                g,
                b,
            ) || cube_contains(next, r, g, b)) by {
                let k = choose|k: int|
                    0 <= k < q0.len() && cube_contains((#[trigger] q0[k]).0, r, g, b);
                if k < q0.len() - 1 {
                    assert(cube_contains((q1[k]).0, r, g, b));
                }
            }
            assert forall|k: int| 0 <= k < q1.len() implies cubes_disjoint(
                (#[trigger] q1[k]).0,
                next,
            ) by {
                assert(q1[k] == q0[k]);
                assert(cubes_disjoint(q0[k].0, q0[q0.len() - 1].0));
            }
        }
        if v == 0 {
            proof {
                assert forall|k: int| 0 <= k < q0.len() implies (#[trigger] q0[k]).1 == 0 by {
                    if k < q0.len() - 1 {
                        assert(q0[k].1 <= q0[q0.len() - 1].1);
                    }
                }
            }
            let ghost qq = queue@;
            queue.insert(0, (next, 0u64));
            proof {
                qq.insert_ensures(0, (next, 0u64));
                lemma_queue_insert(qq, 0, (next, 0u64));
                let q2 = queue@;
                assert forall|k: int| 0 <= k < q2.len() implies (#[trigger] q2[k]).1 == 0
                    && terminal_cube(pal, q2[k].0) && cube_wf(q2[k].0) && box_agg(
                    pal,
                    box_of(q2[k].0),
                ).count >= 1 by {
                    if k > 0 {
                        assert(q2[k] == qq[k - 1]);
                        assert(qq[k - 1] == q0[k - 1]);
                    } else {
                        assert(q2[0] == ((next, 0u64)));
                        assert(q0[q0.len() - 1].1 == 0);
                        assert(terminal_cube(pal, next));
                    }
                }
                assert forall|r: int, g: int, b: int| in_grid(r, g, b) implies queue_covers_cell(
                    queue@,
                    r,
                    g,
                    b,
                ) by {
                    assert(queue_covers_cell(qq, r, g, b) || cube_contains(next, r, g, b));
                }
                assert(run_queue(pal, n_colours as int, q0) == queue@);
            }
            break;
        }
        match space.split(&next, Ghost(pal)) {
            Option::Some(pair) => {
                let ghost lo = pair.0;
                let ghost hi = pair.1;
                proof {
                    assert(split_success(pal, next, lo, hi));
                    assert(cubes_disjoint(lo, hi));
                    assert forall|k: int| 0 <= k < q1.len() implies cubes_disjoint(
                        (#[trigger] q1[k]).0,
                        lo,
                    ) && cubes_disjoint((#[trigger] q1[k]).0, hi) by {
                        assert forall|r: int, g: int, b2: int|
                            !(#[trigger] cube_contains(q1[k].0, r, g, b2) && cube_contains(
                                lo,
                                r,
                                g,
                                b2,
                            )) by {
                            if cube_contains(lo, r, g, b2) {
                                assert(cube_contains(next, r, g, b2));
                            }
                        }
                        assert forall|r: int, g: int, b2: int|
                            !(#[trigger] cube_contains(q1[k].0, r, g, b2) && cube_contains(
                                hi,
                                r,
                                g,
                                b2,
                            )) by {
                            if cube_contains(hi, r, g, b2) {
                                assert(cube_contains(next, r, g, b2));
                            }
                        }
                    }
                }
                process_part(&space, pair.0, &mut queue, Ghost(pal));
                let ghost qb = queue@;
                proof {
                    let (idx1, v1) = choose|idx1: int, v1: u64|
                        0 <= idx1 <= q1.len() && qb == q1.insert(idx1, ((lo, v1)));
                    lemma_queue_insert(q1, idx1, (lo, v1));
                    assert(cube_outside_queue(qb, hi)) by {
                        assert(cube_outside_queue(q1, hi) && cubes_disjoint(lo, hi));
                    }
                    assert(queue_disjoint(qb)) by {
                        assert(queue_disjoint(q1) && cube_outside_queue(q1, lo));
                    }
                }
                process_part(&space, pair.1, &mut queue, Ghost(pal));
                proof {
                    let qc = queue@;
                    let (idx2, v2) = choose|idx2: int, v2: u64|
                        0 <= idx2 <= qb.len() && qc == qb.insert(idx2, ((hi, v2)));
                    lemma_queue_insert(qb, idx2, (hi, v2));
                    assert(queue_disjoint(qc));
                    assert forall|r: int, g: int, b: int| in_grid(r, g, b) implies
                        queue_covers_cell(qc, r, g, b) by {
                        if queue_covers_cell(q1, r, g, b) {
                            assert(queue_covers_cell(qb, r, g, b));
                        } else {
                            assert(cube_contains(next, r, g, b));
                            assert(cube_contains(lo, r, g, b) || cube_contains(hi, r, g, b));
                            if cube_contains(lo, r, g, b) {
                                assert(queue_covers_cell(qb, r, g, b));
                            }
                        }
                    }
                    // The executed step is exactly one unfolding of the
                    // queue policy: the split's cut is the unique best cut.
                    let (bd, bi) = choose|d: int, i: int| split_at(pal, next, d, i, lo, hi);
                    assert(is_best_cut(pal, next, bd, bi));
                    assert(has_best_cut(pal, next));
                    let bc = best_cut(pal, next);
                    assert(is_best_cut(pal, next, bc.0, bc.1));
                    lemma_best_cut_unique(pal, next, bd, bi, bc.0, bc.1);
                    assert(lo == lower_cube(next, bc.0, bc.1) && hi == upper_cube(
                        next,
                        bc.0,
                        bc.1,
                    ));
                    assert(qb == spec_process(pal, q1, lo));
                    assert(qc == spec_process(pal, qb, hi));
                    assert(run_queue(pal, n_colours as int, q0) == run_queue(
                        pal,
                        n_colours as int,
                        qc,
                    ));
                }
            },
            Option::None => {
                proof {
                    assert(terminal_cube(pal, next));
                }
                let ghost qq = queue@;
                queue.insert(0, (next, 0u64));
                proof {
                    qq.insert_ensures(0, (next, 0u64));
                    lemma_queue_insert(qq, 0, (next, 0u64));
                    let q2 = queue@;
                    assert forall|j: int, k: int| 0 <= j < k < q2.len() implies (#[trigger] q2[j]).1
                        <= (#[trigger] q2[k]).1 by {
                        if j > 0 {
                            assert(q2[j] == qq[j - 1] && q2[k] == qq[k - 1]);
                        }
                    }
                    assert forall|k: int| 0 <= k < q2.len() implies cube_wf((#[trigger] q2[k]).0)
                        && box_agg(pal, box_of(q2[k].0)).count >= 1 && (q2[k].1 == 0
                        ==> terminal_cube(pal, q2[k].0)) by {
                        if k > 0 {
                            assert(q2[k] == qq[k - 1]);
                        } else {
                            assert(q2[0] == ((next, 0u64)));
                        }
                    }
                    assert forall|r: int, g: int, b: int| in_grid(r, g, b) implies
                        queue_covers_cell(queue@, r, g, b) by {
                        assert(queue_covers_cell(qq, r, g, b) || cube_contains(next, r, g, b));
                    }
                    assert(count_nonzero(q0) == count_nonzero(q1) + 1) by {
                        assert(q0.drop_last() =~= q1);
                        assert(q0.last().1 == v && v > 0);
                    }
                    lemma_count_nonzero_insert_front_zero(q1, (next, 0u64));
                    assert(!has_best_cut(pal, next)) by {
                        if has_best_cut(pal, next) {
                            let bc2 = choose|d: int, i: int| is_best_cut(pal, next, d, i);
                            assert(is_best_cut(pal, next, bc2.0, bc2.1));
                            assert(cut_valid(pal, next, bc2.0, bc2.1));
                        }
                    }
                    assert(run_queue(pal, n_colours as int, q0) == run_queue(
                        pal,
                        n_colours as int,
                        queue@,
                    ));
                }
            },
        }
    }
    let ghost qf = queue@;
    proof {
        assert(qf == final_queue(pal, n_colours as int));
    }
    let mut flat: Vec<Rgb> = Vec::new();
    let mut vol = ColourSpace::<u8>::new();
    let n_cubes = queue.len();
    let mut k: usize = 0;
    while k < n_cubes
        invariant
            space.wf(),
            cumulated(space@, pal),
            pal.len() <= MAX_PIXELS,
            queue@ == qf,
            n_cubes == qf.len(),
            1 <= qf.len() <= 256,
            vol.wf(),
            flat@.len() == k,
            k <= n_cubes,
            queue_inv(qf, pal),
            queue_partitions(qf),
            forall|j: int|
                0 <= j < k ==> #[trigger] flat@[j] == mean_colour(box_agg(pal, box_of(qf[j].0))),
            forall|j: int, r: int, g: int, b: int|
                0 <= j < k && in_grid(r, g, b) && #[trigger] cube_contains(qf[j].0, r, g, b)
                    ==> vol@[flat_idx(r, g, b)] == j as u8,
        decreases n_cubes - k,
    {
        let entry = queue[k];
        let cube = entry.0;
        let ghost before_vol = vol@;
        mark(&mut vol, &cube, k as u8);
        let e = space.query(&cube, Ghost(pal));
        proof {
            lemma_box_agg_wf(pal, box_of(cube));
            lemma_mean_bound(e.m_r as int, e.count as int);
            lemma_mean_bound(e.m_g as int, e.count as int);
            lemma_mean_bound(e.m_b as int, e.count as int);
        }
        let mr = (e.m_r / e.count) as u8;
        let mg = (e.m_g / e.count) as u8;
        let mb = (e.m_b / e.count) as u8;
        flat.push(Rgb { r: mr, g: mg, b: mb });
        proof {
            assert(flat@[k as int] == mean_colour(e@));
            assert forall|j: int, r: int, g: int, b: int|
                0 <= j < k + 1 && in_grid(r, g, b) && #[trigger] cube_contains(qf[j].0, r, g, b)
                implies vol@[flat_idx(r, g, b)] == j as u8 by {
                if j < k {
                    assert(cubes_disjoint(qf[j].0, qf[k as int].0));
                    assert(!cube_contains(cube, r, g, b));
                    assert(vol@[flat_idx(r, g, b)] == before_vol[flat_idx(r, g, b)]);
                } else {
                    assert(cube_contains(cube, r, g, b));
                }
            }
        }
        k = k + 1;
    }
    proof {
        let n = n_colours as int;
        let cubes = Seq::new(qf.len(), |j: int| (qf[j]).0);
        assert forall|r: int, g: int, b: int| in_grid(r, g, b) implies #[trigger] vol@[
            flat_idx(r, g, b)
        ] < cubes.len() && cube_contains(cubes[vol@[flat_idx(r, g, b)] as int], r, g, b) by {
            let j = choose|j: int| 0 <= j < qf.len() && cube_contains((#[trigger] qf[j]).0, r, g, b);
            assert(vol@[flat_idx(r, g, b)] == j as u8);
        }
        assert(quantisation_ok(pal, n, flat@, vol@, cubes));
        assert(cubes =~= final_cubes(pal, n));
        assert(quantisation_ok(pal, n, flat@, vol@, final_cubes(pal, n)));
        assert(compress_post(pal, n, flat@, vol@));
    }
    Result::Ok((flat, vol))
}

} // verus!
