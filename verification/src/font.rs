//! A 5x7 bitmap font for digits, upper-case letters and a few signs.

use vstd::prelude::*;

verus! {

/// Columns of a glyph.
pub const GLYPH_W: usize = 5;

/// Rows of a glyph.
pub const GLYPH_H: usize = 7;

/// How many characters the font holds.
pub const GLYPHS: usize = 40;

/// The characters of the font, in the order of `ROWS`.
pub const CHARS: [char; 40] = [
    '0', '1', '2', '3', '4', '5', '6', '7', '8', '9',
    'A', 'B', 'C', 'D', 'E', 'F', 'G', 'H', 'I', 'J', 'K', 'L', 'M',
    'N', 'O', 'P', 'Q', 'R', 'S', 'T', 'U', 'V', 'W', 'X', 'Y', 'Z',
    ':', '.', '-', ' ',
];

/// The glyphs, seven rows from the top each; in a row bit 4 is the leftmost
/// column and bit 0 the rightmost.
pub const ROWS: [[u8; 7]; 40] = [
    [0x0e, 0x11, 0x13, 0x15, 0x19, 0x11, 0x0e],
    [0x04, 0x0c, 0x04, 0x04, 0x04, 0x04, 0x0e],
    [0x0e, 0x11, 0x01, 0x02, 0x04, 0x08, 0x1f],
    [0x1f, 0x02, 0x04, 0x02, 0x01, 0x11, 0x0e],
    [0x02, 0x06, 0x0a, 0x12, 0x1f, 0x02, 0x02],
    [0x1f, 0x10, 0x1e, 0x01, 0x01, 0x11, 0x0e],
    [0x06, 0x08, 0x10, 0x1e, 0x11, 0x11, 0x0e],
    [0x1f, 0x01, 0x02, 0x04, 0x08, 0x08, 0x08],
    [0x0e, 0x11, 0x11, 0x0e, 0x11, 0x11, 0x0e],
    [0x0e, 0x11, 0x11, 0x0f, 0x01, 0x02, 0x0c],
    [0x0e, 0x11, 0x11, 0x1f, 0x11, 0x11, 0x11],
    [0x1e, 0x11, 0x11, 0x1e, 0x11, 0x11, 0x1e],
    [0x0e, 0x11, 0x10, 0x10, 0x10, 0x11, 0x0e],
    [0x1c, 0x12, 0x11, 0x11, 0x11, 0x12, 0x1c],
    [0x1f, 0x10, 0x10, 0x1e, 0x10, 0x10, 0x1f],
    [0x1f, 0x10, 0x10, 0x1e, 0x10, 0x10, 0x10],
    [0x0e, 0x11, 0x10, 0x17, 0x11, 0x11, 0x0f],
    [0x11, 0x11, 0x11, 0x1f, 0x11, 0x11, 0x11],
    [0x0e, 0x04, 0x04, 0x04, 0x04, 0x04, 0x0e],
    [0x07, 0x02, 0x02, 0x02, 0x02, 0x12, 0x0c],
    [0x11, 0x12, 0x14, 0x18, 0x14, 0x12, 0x11],
    [0x10, 0x10, 0x10, 0x10, 0x10, 0x10, 0x1f],
    [0x11, 0x1b, 0x15, 0x15, 0x11, 0x11, 0x11],
    [0x11, 0x11, 0x19, 0x15, 0x13, 0x11, 0x11],
    [0x0e, 0x11, 0x11, 0x11, 0x11, 0x11, 0x0e],
    [0x1e, 0x11, 0x11, 0x1e, 0x10, 0x10, 0x10],
    [0x0e, 0x11, 0x11, 0x11, 0x15, 0x12, 0x0d],
    [0x1e, 0x11, 0x11, 0x1e, 0x14, 0x12, 0x11],
    [0x0f, 0x10, 0x10, 0x0e, 0x01, 0x01, 0x1e],
    [0x1f, 0x04, 0x04, 0x04, 0x04, 0x04, 0x04],
    [0x11, 0x11, 0x11, 0x11, 0x11, 0x11, 0x0e],
    [0x11, 0x11, 0x11, 0x11, 0x11, 0x0a, 0x04],
    [0x11, 0x11, 0x11, 0x15, 0x15, 0x15, 0x0a],
    [0x11, 0x11, 0x0a, 0x04, 0x0a, 0x11, 0x11],
    [0x11, 0x11, 0x11, 0x0a, 0x04, 0x04, 0x04],
    [0x1f, 0x01, 0x02, 0x04, 0x08, 0x10, 0x1f],
    [0x00, 0x0c, 0x0c, 0x00, 0x0c, 0x0c, 0x00],
    [0x00, 0x00, 0x00, 0x00, 0x00, 0x0c, 0x0c],
    [0x00, 0x00, 0x00, 0x1f, 0x00, 0x00, 0x00],
    [0x00, 0x00, 0x00, 0x00, 0x00, 0x00, 0x00],
];

/// The rows of the first character from position `from` on that is `ch`.
pub open spec fn rows_from(ch: char, from: int) -> Option<[u8; 7]>
    decreases GLYPHS - from,
{
    if from >= GLYPHS {
        None
    } else if CHARS[from] == ch {
        Some(ROWS[from])
    } else {
        rows_from(ch, from + 1)
    }
}

/// The rows of the glyph for `ch`, if the font holds one.
pub open spec fn rows_of(ch: char) -> Option<[u8; 7]> {
    rows_from(ch, 0)
}

/// Whether column `col` is set in the row `bits` of a glyph.
pub open spec fn is_lit(bits: u8, col: int) -> bool {
    bits & (1u8 << ((GLYPH_W - 1 - col) as usize)) != 0
}

/// The rows of the glyph for `ch`, if the font holds one.
pub fn glyph(ch: char) -> (r: Option<[u8; 7]>)
    ensures
        r == rows_of(ch),
{
    let mut i: usize = 0;
    while i < GLYPHS
        invariant
            i <= GLYPHS,
            rows_of(ch) == rows_from(ch, i as int),
        decreases GLYPHS - i,
    {
        if CHARS[i] == ch {
            return Some(ROWS[i]);
        }
        i = i + 1;
    }
    None
}

/// Whether column `col` is set in the row `bits` of a glyph.
pub fn lit(bits: u8, col: usize) -> (r: bool)
    requires
        col < GLYPH_W,
    ensures
        r == is_lit(bits, col as int),
{
    bits & (1u8 << (GLYPH_W - 1 - col)) != 0
}

} // verus!
