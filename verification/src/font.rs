//! The bitmap font: 8x8 glyphs for the 256 byte values, drawn at an
//! integer scale.

use vstd::prelude::*;

verus! {

pub const GLYPH_WIDTH: usize = 8;

pub const GLYPH_HEIGHT: usize = 8;

/// Glyph rows, eight bytes per glyph with the leftmost pixel in the lowest
/// bit, and the scale they are drawn at.
pub struct Font {
    rows: Vec<u8>,
    scale: u32,
}

/// Whether pixel (`col`, `row`) of the glyph for `ch` is set.
pub open spec fn glyph_bit(rows: Seq<u8>, ch: u8, row: int, col: int) -> bool {
    rows[8 * ch as int + row] & (1u8 << (col as u8)) != 0
}

impl Font {
    pub closed spec fn bits(&self) -> Seq<u8> {
        self.rows@
    }

    pub closed spec fn factor(&self) -> u32 {
        self.scale
    }

    pub open spec fn wf(&self) -> bool {
        self.bits().len() == 2048 && 1 <= self.factor() <= 2
    }

    /// A font of the given glyph rows, at scale 1.
    pub fn new(rows: Vec<u8>) -> (r: Self)
        requires
            rows@.len() == 2048,
        ensures
            r.wf(),
            r.bits() == rows@,
            r.factor() == 1,
    {
        Font { rows, scale: 1 }
    }

    /// Sets the scale: 2 for twice the size, anything else for plain.
    pub fn set_scale(&mut self, scale: u32)
        requires
            old(self).wf(),
        ensures
            final(self).wf(),
            final(self).bits() == old(self).bits(),
            final(self).factor() == if scale >= 2 {
                2u32
            } else {
                1
            },
    {
        self.scale = if scale >= 2 { 2 } else { 1 };
    }

    pub fn scale(&self) -> (r: u32)
        ensures
            r == self.factor(),
    {
        self.scale
    }

    /// Whether pixel (`col`, `row`) of the glyph for `ch` is set.
    pub fn bit(&self, ch: u8, row: u32, col: u32) -> (r: bool)
        requires
            self.wf(),
            row < 8,
            col < 8,
        ensures
            r == glyph_bit(self.bits(), ch, row as int, col as int),
    {
        self.rows[8 * ch as usize + row as usize] & (1u8 << (col as u8)) != 0
    }
}

} // verus!
