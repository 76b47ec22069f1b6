//! Per-bucket colour statistics: first moments, pixel count and second
//! moment, together with their unbounded-integer model.

use vstd::prelude::*;
use crate::colour::Rgb;

verus! {

/// Largest palette length the engine accepts.  The bound keeps every moment
/// sum inside `u64` and every squared-norm product inside `u128` (it is
/// 2^40; a first moment is then at most 255 * 2^40 < 2^48, and a squared
/// norm times the score scale at most 3 * 2^96 * 2^20 < 2^119).
pub const MAX_PIXELS: u64 = 1099511627776;

/// Largest squared channel magnitude of a single colour:
/// 255^2 + 255^2 + 255^2.
pub const MAX_COLOUR_SQ: u64 = 195075;

/// Statistics accumulated over a set of pixels: componentwise sum of the raw
/// 8-bit channel values (`m_r`, `m_g`, `m_b`), the number of pixels
/// (`count`), and the sum of squared channel magnitudes (`m2`).
#[derive(Clone, Copy, Debug)]
pub struct ColourEntry {
    pub m_r: u64,
    pub m_g: u64,
    pub m_b: u64,
    pub count: u64,
    pub m2: u64,
}

/// The mathematical value of a statistics record, free of machine bounds.
pub struct EntryModel {
    pub m_r: int,
    pub m_g: int,
    pub m_b: int,
    pub count: int,
    pub m2: int,
}

impl View for ColourEntry {
    type V = EntryModel;

    open spec fn view(&self) -> EntryModel {
        EntryModel {
            m_r: self.m_r as int,
            m_g: self.m_g as int,
            m_b: self.m_b as int,
            count: self.count as int,
            m2: self.m2 as int,
        }
    }
}

/// The statistics of an empty set of pixels.
pub open spec fn em_zero() -> EntryModel {
    EntryModel { m_r: 0, m_g: 0, m_b: 0, count: 0, m2: 0 }
}

/// The statistics of a single pixel of colour `c`.
pub open spec fn em_of_colour(c: Rgb) -> EntryModel {
    EntryModel {
        m_r: c.r as int,
        m_g: c.g as int,
        m_b: c.b as int,
        count: 1,
        m2: c.r as int * c.r as int + c.g as int * c.g as int + c.b as int * c.b as int,
    }
}

/// Componentwise sum of two statistics records.
pub open spec fn em_add(a: EntryModel, b: EntryModel) -> EntryModel {
    EntryModel {
        m_r: a.m_r + b.m_r,
        m_g: a.m_g + b.m_g,
        m_b: a.m_b + b.m_b,
        count: a.count + b.count,
        m2: a.m2 + b.m2,
    }
}

/// Componentwise difference of two statistics records.
pub open spec fn em_sub(a: EntryModel, b: EntryModel) -> EntryModel {
    EntryModel {
        m_r: a.m_r - b.m_r,
        m_g: a.m_g - b.m_g,
        m_b: a.m_b - b.m_b,
        count: a.count - b.count,
        m2: a.m2 - b.m2,
    }
}

/// Componentwise order on statistics records.
pub open spec fn em_le(a: EntryModel, b: EntryModel) -> bool {
    a.m_r <= b.m_r && a.m_g <= b.m_g && a.m_b <= b.m_b && a.count <= b.count && a.m2 <= b.m2
}

/// A record that could arise as the statistics of `count` real pixels: all
/// fields non-negative, each first moment at most 255 per pixel and the
/// second moment at most `MAX_COLOUR_SQ` per pixel.
pub open spec fn em_wf(e: EntryModel) -> bool {
    &&& 0 <= e.count
    &&& 0 <= e.m_r <= 255 * e.count
    &&& 0 <= e.m_g <= 255 * e.count
    &&& 0 <= e.m_b <= 255 * e.count
    &&& 0 <= e.m2 <= MAX_COLOUR_SQ * e.count
}

/// Every field fits in a `u64`.
pub open spec fn em_fits(e: EntryModel) -> bool {
    &&& 0 <= e.m_r <= u64::MAX
    &&& 0 <= e.m_g <= u64::MAX
    &&& 0 <= e.m_b <= u64::MAX
    &&& 0 <= e.count <= u64::MAX
    &&& 0 <= e.m2 <= u64::MAX
}

/// Squared Euclidean norm of the first-moment vector.
pub open spec fn em_msq(e: EntryModel) -> int {
    e.m_r * e.m_r + e.m_g * e.m_g + e.m_b * e.m_b
}

/// Squaring preserves order on non-negative integers.
pub proof fn lemma_sq_le(a: int, b: int)
    requires
        0 <= a <= b,
    ensures
        a * a <= b * b,
{
    assert(a * a <= b * b) by (nonlinear_arith)
        requires
            0 <= a <= b,
    ;
}

impl ColourEntry {
    /// A zeroed statistics record.
    pub fn new() -> (e: ColourEntry)
        ensures
            e@ == em_zero(),
    {
        ColourEntry { m_r: 0, m_g: 0, m_b: 0, count: 0, m2: 0 }
    }

    /// The statistics of the single pixel `c`.
    pub fn from_colour(c: Rgb) -> (e: ColourEntry)
        ensures
            e@ == em_of_colour(c),
    {
        let r = c.r as u64;
        let g = c.g as u64;
        let b = c.b as u64;
        proof {
            lemma_sq_le(r as int, 255);
            lemma_sq_le(g as int, 255);
            lemma_sq_le(b as int, 255);
        }
        ColourEntry { m_r: r, m_g: g, m_b: b, count: 1, m2: r * r + g * g + b * b }
    }

    /// Fold another record into this one.
    pub fn add_inplace(&mut self, other: &ColourEntry)
        requires
            em_fits(em_add(old(self)@, other@)),
        ensures
            final(self)@ == em_add(old(self)@, other@),
    {
        self.m_r = self.m_r + other.m_r;
        self.m_g = self.m_g + other.m_g;
        self.m_b = self.m_b + other.m_b;
        self.count = self.count + other.count;
        self.m2 = self.m2 + other.m2;
    }

    /// Remove a subset's statistics from this record.  Only ever applied
    /// between a superset aggregate and a subset aggregate, which the
    /// precondition captures.
    pub fn sub_inplace(&mut self, other: &ColourEntry)
        requires
            em_le(other@, old(self)@),
        ensures
            final(self)@ == em_sub(old(self)@, other@),
    {
        self.m_r = self.m_r - other.m_r;
        self.m_g = self.m_g - other.m_g;
        self.m_b = self.m_b - other.m_b;
        self.count = self.count - other.count;
        self.m2 = self.m2 - other.m2;
    }
}

} // verus!
