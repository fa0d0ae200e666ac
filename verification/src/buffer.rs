//! What the rules here read and write of a line: glyphs and positions.

use vstd::prelude::*;

verus! {

/// One glyph of a line.
#[derive(Copy, Clone, Debug, PartialEq, Eq, Structural)]
pub struct GlyphInfo {
    pub glyph_id: u32,
    /// Which features are on for the glyph.
    pub mask: u32,
    /// The character the glyph came from.
    pub cluster: u32,
}

/// Where one glyph of a line goes.
#[derive(Copy, Clone, Debug, PartialEq, Eq, Structural)]
pub struct GlyphPosition {
    pub x_advance: i32,
    pub y_advance: i32,
    pub x_offset: i32,
    pub y_offset: i32,
    /// How the glyph is attached to another; zero for not at all.
    pub attach_type: u8,
    /// How far away that other glyph is.
    pub attach_chain: i16,
}

impl Default for GlyphPosition {
    fn default() -> (r: GlyphPosition)
        ensures
            r.x_advance == 0 && r.y_advance == 0 && r.x_offset == 0 && r.y_offset == 0,
            r.attach_type == 0 && r.attach_chain == 0,
    {
        GlyphPosition {
            x_advance: 0,
            y_advance: 0,
            x_offset: 0,
            y_offset: 0,
            attach_type: 0,
            attach_chain: 0,
        }
    }
}

/// The nearest number that fits 32 bits.
pub open spec fn saturated(x: int) -> i32 {
    if x > i32::MAX {
        i32::MAX
    } else if x < i32::MIN {
        i32::MIN
    } else {
        x as i32
    }
}

/// A sum that stays in range.
pub fn saturating_add(a: i32, b: i32) -> (r: i32)
    ensures
        r == saturated(a + b),
{
    let sum: i64 = a as i64 + b as i64;
    if sum > i32::MAX as i64 {
        i32::MAX
    } else if sum < i32::MIN as i64 {
        i32::MIN
    } else {
        sum as i32
    }
}

/// A difference that stays in range.
pub fn saturating_sub(a: i32, b: i32) -> (r: i32)
    ensures
        r == saturated(a - b),
{
    let sum: i64 = a as i64 - b as i64;
    if sum > i32::MAX as i64 {
        i32::MAX
    } else if sum < i32::MIN as i64 {
        i32::MIN
    } else {
        sum as i32
    }
}

/// Half of a number, rounded down.
pub fn halved(x: i32) -> (r: i32)
    ensures
        r == x as int / 2,
{
    let h: i32 = x >> 1;
    proof {
        lemma_half(x);
    }
    h
}

proof fn lemma_half(x: i32)
    ensures
        (x >> 1) == x as int / 2,
{
    assert((x >> 1) * 2 <= x && x < (x >> 1) * 2 + 2) by (bit_vector);
}

/// A number that fits stays as it is, and one that does not becomes the nearest
/// that does.
pub proof fn a_number_that_fits_stays(x: int)
    ensures
        i32::MIN <= x <= i32::MAX ==> saturated(x) == x,
        x >= i32::MAX ==> saturated(x) == i32::MAX,
        x <= i32::MIN ==> saturated(x) == i32::MIN,
{
}

} // verus!
