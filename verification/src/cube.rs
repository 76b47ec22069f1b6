//! Axis-aligned cubes of the reduced colour grid.
//!
//! A cube stores its bounds as grid coordinates, inclusive on both sides.
//! (The classic formulation keeps an exclusive lower bound with a sentinel
//! value for "no bound"; an inclusive lower bound expresses the same boxes
//! with the boundary case becoming simply `start == 0`, filtered where the
//! corner lookups need it.)

use vstd::prelude::*;
use crate::agg::Box3;
use crate::colour::Rgb;

verus! {

/// One axis-aligned region of the reduced grid, destined to become one
/// palette entry.  Both bounds are inclusive grid coordinates.
#[derive(Clone, Copy, PartialEq, Eq, Structural, Debug)]
pub struct ColourCube {
    pub start: Rgb,
    pub end: Rgb,
}

/// Bounds ordered and inside the grid.
pub open spec fn cube_wf(c: ColourCube) -> bool {
    &&& c.start.r <= c.end.r < 32
    &&& c.start.g <= c.end.g < 32
    &&& c.start.b <= c.end.b < 32
}

/// The box of cells a cube spans.
pub open spec fn box_of(c: ColourCube) -> Box3 {
    Box3 {
        r0: c.start.r as int,
        r1: c.end.r as int,
        g0: c.start.g as int,
        g1: c.end.g as int,
        b0: c.start.b as int,
        b1: c.end.b as int,
    }
}

/// Does the cube contain grid cell `(r, g, b)`?
pub open spec fn cube_contains(c: ColourCube, r: int, g: int, b: int) -> bool {
    &&& c.start.r <= r <= c.end.r
    &&& c.start.g <= g <= c.end.g
    &&& c.start.b <= b <= c.end.b
}

/// A cube spanning exactly one grid cell; it cannot be split further.
pub open spec fn is_unit(c: ColourCube) -> bool {
    c.start.r == c.end.r && c.start.g == c.end.g && c.start.b == c.end.b
}

/// The cube spanning the entire grid.
pub open spec fn full_cube() -> ColourCube {
    ColourCube { start: Rgb { r: 0, g: 0, b: 0 }, end: Rgb { r: 31, g: 31, b: 31 } }
}

/// Inclusive lower bound of a cube on axis `d` (0 red, 1 green, 2 blue).
pub open spec fn axis_start(c: ColourCube, d: int) -> int {
    if d == 0 {
        c.start.r as int
    } else if d == 1 {
        c.start.g as int
    } else {
        c.start.b as int
    }
}

/// Inclusive upper bound of a cube on axis `d`.
pub open spec fn axis_end(c: ColourCube, d: int) -> int {
    if d == 0 {
        c.end.r as int
    } else if d == 1 {
        c.end.g as int
    } else {
        c.end.b as int
    }
}

/// The child below a cut: the cube with its upper bound on axis `d` moved
/// down to `i`.
pub open spec fn lower_cube(c: ColourCube, d: int, i: int) -> ColourCube {
    if d == 0 {
        ColourCube { start: c.start, end: Rgb { r: i as u8, g: c.end.g, b: c.end.b } }
    } else if d == 1 {
        ColourCube { start: c.start, end: Rgb { r: c.end.r, g: i as u8, b: c.end.b } }
    } else {
        ColourCube { start: c.start, end: Rgb { r: c.end.r, g: c.end.g, b: i as u8 } }
    }
}

/// The child above a cut: the cube with its lower bound on axis `d` moved
/// up to `i + 1`.
pub open spec fn upper_cube(c: ColourCube, d: int, i: int) -> ColourCube {
    if d == 0 {
        ColourCube { start: Rgb { r: (i + 1) as u8, g: c.start.g, b: c.start.b }, end: c.end }
    } else if d == 1 {
        ColourCube { start: Rgb { r: c.start.r, g: (i + 1) as u8, b: c.start.b }, end: c.end }
    } else {
        ColourCube { start: Rgb { r: c.start.r, g: c.start.g, b: (i + 1) as u8 }, end: c.end }
    }
}

} // verus!
