//! Plain RGB colours and the reduced-precision grid coordinate they map to.
//!
//! Every channel is right-shifted by `ROUND_N` bits, folding the 256^3 colour
//! cube onto a `SPACE_SIZE`^3 grid that the histogram and all cubes live in.

use vstd::prelude::*;

verus! {

/// Number of low-order bits dropped from each channel when a colour is
/// reduced to a grid coordinate.
pub const ROUND_N: u32 = 3;

/// Side length of the reduced colour grid: (255 >> ROUND_N) + 1.
pub const SPACE_SIZE: usize = 32;

/// An 8-bit-per-channel RGB colour.
#[derive(Clone, Copy, PartialEq, Eq, Structural, Debug)]
pub struct Rgb {
    pub r: u8,
    pub g: u8,
    pub b: u8,
}

/// Reduced red coordinate of a colour (its red grid cell).
pub open spec fn cell_r(c: Rgb) -> int {
    c.r as int / 8
}

/// Reduced green coordinate of a colour.
pub open spec fn cell_g(c: Rgb) -> int {
    c.g as int / 8
}

/// Reduced blue coordinate of a colour.
pub open spec fn cell_b(c: Rgb) -> int {
    c.b as int / 8
}

/// Reduced coordinate of a colour on axis `d` (0 red, 1 green, 2 blue).
pub open spec fn cell_axis(c: Rgb, d: int) -> int {
    if d == 0 {
        cell_r(c)
    } else if d == 1 {
        cell_g(c)
    } else {
        cell_b(c)
    }
}

impl Rgb {
    pub fn new(r: u8, g: u8, b: u8) -> (c: Rgb)
        ensures
            c == (Rgb { r, g, b }),
    {
        Rgb { r, g, b }
    }
}

/// Reduce one 8-bit channel to its grid coordinate.
pub fn reduce_channel(x: u8) -> (y: u8)
    ensures
        y == x as int / 8,
        y < SPACE_SIZE,
{
    proof {
        assert(x >> 3 == x / 8 && x >> 3 < 32) by (bit_vector);
    }
    x >> ROUND_N
}

/// Interpret a flat byte palette as a sequence of colours, three bytes per
/// colour in r, g, b order.
pub fn palette_to_rgb(palette: &[u8]) -> (out: Vec<Rgb>)
    requires
        palette@.len() % 3 == 0,
    ensures
        out@.len() == palette@.len() / 3,
        forall|j: int|
            0 <= j < out@.len() ==> out@[j] == (Rgb {
                r: palette@[3 * j],
                g: palette@[3 * j + 1],
                b: palette@[3 * j + 2],
            }),
{
    let n = palette.len();
    let mut out: Vec<Rgb> = Vec::new();
    let mut i: usize = 0;
    while i < n
        invariant
            palette@.len() == n,
            n % 3 == 0,
            i % 3 == 0,
            i <= n,
            out@.len() == i / 3,
            forall|j: int|
                0 <= j < out@.len() ==> out@[j] == (Rgb {
                    r: palette@[3 * j],
                    g: palette@[3 * j + 1],
                    b: palette@[3 * j + 2],
                }),
        decreases n - i,
    {
        proof {
            assert(i + 3 <= n) by {
                assert(i % 3 == 0 && n % 3 == 0 && i < n);
                assert((n - i) % 3 == 0) by {
                    vstd::arithmetic::div_mod::lemma_sub_mod_noop(n as int, i as int, 3);
                }
            }
        }
        out.push(Rgb { r: palette[i], g: palette[i + 1], b: palette[i + 2] });
        i = i + 3;
    }
    out
}

/// Number of distinct colours in a palette.
pub fn count_distinct(palette: &Vec<Rgb>) -> (n: usize)
    ensures
        n == palette@.to_set().len(),
{
    broadcast use vstd::seq_lib::lemma_seq_contains_after_push;

    let mut seen: Vec<Rgb> = Vec::new();
    let mut i: usize = 0;
    while i < palette.len()
        invariant
            i <= palette@.len(),
            seen@.no_duplicates(),
            forall|c: Rgb|
                #[trigger] seen@.contains(c) <==> exists|k: int| 0 <= k < i && palette@[k] == c,
        decreases palette@.len() - i,
    {
        let c = palette[i];
        let mut j: usize = 0;
        let mut found = false;
        while j < seen.len()
            invariant
                j <= seen@.len(),
                found <==> exists|k: int| 0 <= k < j && seen@[k] == c,
            decreases seen@.len() - j,
        {
            if seen[j] == c {
                found = true;
            }
            j = j + 1;
        }
        let ghost pre = seen@;
        proof {
            assert(found <==> pre.contains(c));
        }
        if !found {
            seen.push(c);
            proof {
                assert(seen@ == pre.push(c));
                assert(seen@.no_duplicates()) by {
                    assert(forall|k: int| 0 <= k < pre.len() ==> pre[k] != c);
                    assert(forall|k: int| 0 <= k < pre.len() ==> seen@[k] == pre[k]);
                    assert(seen@[pre.len() as int] == c);
                }
            }
        }
        proof {
            assert(palette@[i as int] == c);
            assert(seen@.contains(c)) by {
                if found {
                } else {
                    assert(pre.push(c).contains(c));
                }
            }
            assert forall|x: Rgb| #[trigger] seen@.contains(x) implies exists|k: int|
                0 <= k < i + 1 && palette@[k] == x by {
                if found {
                    assert(pre.contains(x));
                } else {
                    assert(pre.push(c).contains(x));
                    if x == c {
                        assert(palette@[i as int] == x);
                    } else {
                        assert(pre.contains(x));
                    }
                }
                if pre.contains(x) {
                    let k = choose|k: int| 0 <= k < i && #[trigger] palette@[k] == x;
                    assert(0 <= k < i + 1 && palette@[k] == x);
                }
            }
            assert forall|x: Rgb| (exists|k: int| 0 <= k < i + 1 && palette@[k] == x)
                implies #[trigger] seen@.contains(x) by {
                let k = choose|k: int| 0 <= k < i + 1 && #[trigger] palette@[k] == x;
                if k < i {
                    assert(pre.contains(x));
                    if !found {
                        vstd::seq_lib::lemma_seq_contains_after_push(pre, c, x);
                        assert(pre.push(c).contains(x));
                    }
                } else {
                    assert(x == c);
                }
            }
        }
        i = i + 1;
    }
    proof {
        assert(forall|c: Rgb| #[trigger] seen@.contains(c) <==> palette@.contains(c));
        seen@.unique_seq_to_set();
        assert(seen@.to_set() =~= palette@.to_set()) by {
            assert(forall|c: Rgb| #[trigger] seen@.to_set().contains(c) <==> seen@.contains(c));
            assert(forall|c: Rgb|
                #[trigger] palette@.to_set().contains(c) <==> palette@.contains(c));
        }
    }
    seen.len()
}

} // verus!
