//! An 8x16 bitmap font of the printable ASCII characters.

use vstd::prelude::*;

verus! {

/// Width of a glyph in pixels: one byte per scanline.
pub const GLYPH_WIDTH: u64 = 8;

/// Height of a glyph in pixels.
pub const GLYPH_HEIGHT: u64 = 16;

/// The first character that has a glyph.
pub const FIRST: u8 = 0x20;

/// The last character that has a glyph.
pub const LAST: u8 = 0x7e;

/// The glyphs of the printable characters, in order. Each is one byte per
/// scanline, most significant bit leftmost.
pub struct Font {
    pub glyphs: [[u8; 16]; 95],
}

/// Where the glyph for `byte` stands in the table: that of `?` if it is not
/// printable.
pub open spec fn glyph_index(byte: u8) -> int {
    if FIRST <= byte <= LAST {
        byte - FIRST
    } else {
        0x3f - FIRST
    }
}

impl Font {
    /// The bitmap for `byte`, or the bitmap for `?` if it is not printable.
    pub fn glyph(&self, byte: u8) -> (bitmap: &[u8; 16])
        ensures
            bitmap@ == self.glyphs@[glyph_index(byte)]@,
    {
        let index: usize = if FIRST <= byte && byte <= LAST {
            (byte - FIRST) as usize
        } else {
            (0x3f - FIRST) as usize
        };
        &self.glyphs[index]
    }
}

/// A printable character has the glyph at its place among the printable
/// characters, and no two share one; everything else has that of `?`.
pub proof fn every_printable_character_has_its_own_glyph(byte: u8, other: u8)
    ensures
        0 <= glyph_index(byte) < 95,
        32 <= byte <= 126 ==> glyph_index(byte) + 32 == byte,
        !(32 <= byte <= 126) ==> glyph_index(byte) == glyph_index(63) && glyph_index(63) == 31,
        32 <= byte <= 126 && 32 <= other <= 126 && byte != other ==> glyph_index(byte)
            != glyph_index(other),
{
}

} // verus!
