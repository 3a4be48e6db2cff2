//! Synthetic video source and the Motion-JPEG codec glue.
//!
//! The source renders a classic test pattern: a big running timecode
//! (`HH:MM:SS.mmm`), a moving sweep bar so motion is obvious even in ASCII, and
//! a small label. Frames are plain 24-bit RGB, and are compressed by the codec.

pub mod laws;
pub mod picture;

pub use crate::codec::decode_jpeg;
pub use crate::codec::encode_jpeg;

use crate::binary64;
use crate::binary64::Binary64;
use crate::font;
use crate::text;
use vstd::arithmetic::div_mod::*;
use vstd::arithmetic::mul::*;
use vstd::prelude::*;

verus! {

/// A color: red, green and blue.
pub type Rgb = (u8, u8, u8);

/// A 24-bit RGB frame (`rgb.len() == width * height * 3`).
pub struct Frame {
    pub width: usize,
    pub height: usize,
    pub rgb: Vec<u8>,
}

/// Where the pixel in column `x` of row `y` starts in a frame `width` wide.
pub open spec fn offset(width: int, x: int, y: int) -> int {
    (y * width + x) * 3
}

/// Whether a pixel lies in the `w` by `h` box with its top left corner at
/// `(x0, y0)`.
pub open spec fn in_box(x: int, y: int, x0: int, y0: int, w: int, h: int) -> bool {
    x0 <= x < x0 + w && y0 <= y < y0 + h
}

/// A line of text on a frame: its characters, its top left corner, the size of
/// a font pixel and by how much each font pixel is thickened.
pub struct Lettering {
    pub text: Seq<char>,
    pub x: int,
    pub y: int,
    pub xscale: int,
    pub yscale: int,
    pub weight: int,
}

impl Lettering {
    /// Whether the font sets the pixel in row `row`, column `col` of character `k`.
    pub open spec fn sets(self, k: int, row: int, col: int) -> bool {
        &&& 0 <= k < self.text.len()
        &&& 0 <= row < font::GLYPH_H
        &&& 0 <= col < font::GLYPH_W
        &&& font::rows_of(self.text[k]) matches Some(rows) && font::is_lit(rows[row], col)
    }

    /// Whether that font pixel is set and covers `(x, y)` on the frame.
    pub open spec fn dot(self, k: int, row: int, col: int, x: int, y: int) -> bool {
        self.sets(k, row, col) && in_box(
            x,
            y,
            self.x + k * ((font::GLYPH_W + 1) * self.xscale) + col * self.xscale,
            self.y + row * self.yscale,
            self.xscale + self.weight,
            self.yscale + self.weight,
        )
    }

    /// Whether a stroke of the text covers the pixel `(x, y)`.
    pub open spec fn covers(self, x: int, y: int) -> bool {
        exists|k: int, row: int, col: int| #[trigger] self.dot(k, row, col, x, y)
    }

    /// The column just past the text.
    pub open spec fn end(self) -> int {
        self.x + self.text.len() * ((font::GLYPH_W + 1) * self.xscale)
    }

    /// The same lettering with `more` in place of the text, starting where the
    /// text ends.
    pub open spec fn followed_by(self, more: Seq<char>) -> Lettering {
        Lettering { text: more, x: self.end(), ..self }
    }

    /// Whether a font pixel that comes before row `row`, column `col` of
    /// character `k` in reading order covers the pixel `(x, y)`.
    spec fn covered_before(self, k: int, row: int, col: int, x: int, y: int) -> bool {
        exists|i: int, r: int, c: int|
            (i < k || (i == k && (r < row || (r == row && c < col)))) && #[trigger] self.dot(i, r, c, x, y)
    }
}

impl Frame {
    /// The frame holds three bytes for each of its pixels and no others.
    pub open spec fn wf(&self) -> bool {
        self.rgb@.len() == self.width * self.height * 3
    }

    /// Whether `(x, y)` is a pixel of the frame.
    pub open spec fn has(&self, x: int, y: int) -> bool {
        0 <= x < self.width && 0 <= y < self.height
    }

    /// The color of the pixel in column `x` of row `y`.
    pub open spec fn pixel(&self, x: int, y: int) -> Rgb {
        let i = offset(self.width as int, x, y);
        (self.rgb@[i], self.rgb@[i + 1], self.rgb@[i + 2])
    }

    /// `self` is a well-formed frame of the size of `other`.
    pub open spec fn resembles(&self, other: &Frame) -> bool {
        &&& self.wf()
        &&& self.width == other.width
        &&& self.height == other.height
    }

    /// `self` is `before` with a line of text drawn on it.
    pub open spec fn lettered(&self, before: &Frame, l: Lettering, c: Rgb) -> bool {
        &&& self.resembles(before)
        &&& forall|x: int, y: int|
            before.has(x, y) ==> #[trigger] self.pixel(x, y) == (if l.covers(x, y) {
                c
            } else {
                before.pixel(x, y)
            })
    }

    /// A black frame.
    fn new(width: usize, height: usize) -> (r: Frame)
        requires
            width * height * 3 <= isize::MAX,
        ensures
            r.wf(),
            r.width == width,
            r.height == height,
            forall|x: int, y: int| r.has(x, y) ==> #[trigger] r.pixel(x, y) == (0u8, 0u8, 0u8),
    {
        proof {
            assert(0 <= width * height) by (nonlinear_arith);
        }
        let f = Frame { width, height, rgb: vec![0u8; width * height * 3] };
        proof {
            assert forall|x: int, y: int| f.has(x, y) implies #[trigger] f.pixel(x, y) == (0u8, 0u8, 0u8) by {
                lemma_offset_in_range(width as int, height as int, x, y);
            }
        }
        f
    }

    /// Sets one pixel; outside the frame it does nothing.
    fn put(&mut self, x: usize, y: usize, c: [u8; 3])
        requires
            old(self).wf(),
        ensures
            final(self).resembles(old(self)),
            forall|px: int, py: int|
                old(self).has(px, py) ==> #[trigger] final(self).pixel(px, py) == (if px == x && py == y {
                    (c[0], c[1], c[2])
                } else {
                    old(self).pixel(px, py)
                }),
    {
        if x >= self.width || y >= self.height {
            return;
        }
        proof {
            lemma_offset_in_range(self.width as int, self.height as int, x as int, y as int);
            assert(0 <= y * self.width) by (nonlinear_arith);
            assert(self.rgb.len() <= usize::MAX);
        }
        let i: usize = (y * self.width + x) * 3;
        self.rgb[i] = c[0];
        self.rgb[i + 1] = c[1];
        self.rgb[i + 2] = c[2];
        proof {
            assert forall|px: int, py: int| old(self).has(px, py) implies #[trigger] self.pixel(px, py) == (if px == x
                && py == y {
                (c[0], c[1], c[2])
            } else {
                old(self).pixel(px, py)
            }) by {
                lemma_offset_in_range(self.width as int, self.height as int, px, py);
                if px != x || py != y {
                    lemma_offsets_apart(self.width as int, px, py, x as int, y as int);
                }
            }
        }
    }

    /// Draws a filled rectangle, clipped to the frame.
    fn fill_rect(&mut self, x0: usize, y0: usize, w: usize, h: usize, c: [u8; 3])
        requires
            old(self).wf(),
            x0 + w <= usize::MAX,
            y0 + h <= usize::MAX,
        ensures
            final(self).resembles(old(self)),
            forall|px: int, py: int|
                old(self).has(px, py) ==> #[trigger] final(self).pixel(px, py) == (if in_box(
                    px,
                    py,
                    x0 as int,
                    y0 as int,
                    w as int,
                    h as int,
                ) {
                    (c[0], c[1], c[2])
                } else {
                    old(self).pixel(px, py)
                }),
    {
        let x1: usize = if x0 + w < self.width { x0 + w } else { self.width };
        let y1: usize = if y0 + h < self.height { y0 + h } else { self.height };
        let mut y: usize = y0;
        while y < y1
            invariant
                self.resembles(old(self)),
                y0 <= y,
                y1 <= self.height,
                y1 <= y0 + h,
                y1 == y0 + h || y1 == self.height,
                x1 <= self.width,
                x1 <= x0 + w,
                x1 == x0 + w || x1 == self.width,
                y <= y1 || y == y0,
                forall|px: int, py: int|
                    old(self).has(px, py) ==> #[trigger] self.pixel(px, py) == (if in_box(
                        px,
                        py,
                        x0 as int,
                        y0 as int,
                        w as int,
                        y - y0,
                    ) {
                        (c[0], c[1], c[2])
                    } else {
                        old(self).pixel(px, py)
                    }),
            decreases y1 - y,
        {
            let mut x: usize = x0;
            while x < x1
                invariant
                    self.resembles(old(self)),
                    y0 <= y < y1,
                    x0 <= x,
                    y1 <= self.height,
                    x1 <= self.width,
                    x1 <= x0 + w,
                    x1 == x0 + w || x1 == self.width,
                    x <= x1 || x == x0,
                    forall|px: int, py: int|
                        old(self).has(px, py) ==> #[trigger] self.pixel(px, py) == (if in_box(
                            px,
                            py,
                            x0 as int,
                            y0 as int,
                            w as int,
                            y - y0,
                        ) || in_box(px, py, x0 as int, y as int, x - x0, 1) {
                            (c[0], c[1], c[2])
                        } else {
                            old(self).pixel(px, py)
                        }),
                decreases x1 - x,
            {
                self.put(x, y, c);
                x = x + 1;
            }
            y = y + 1;
        }
    }

    /// Draws `text` with the 5x7 font, scaled by `xscale` and `yscale`, top-left
    /// at (x, y). `weight` thickens each stroke by that many extra pixels so the
    /// glyphs survive the heavy downsampling the ASCII renderer applies.
    /// Characters that the font does not hold leave a gap. Returns the x
    /// coordinate just past the drawn text.
    fn draw_text(
        &mut self,
        x: usize,
        y: usize,
        text: &str,
        xscale: usize,
        yscale: usize,
        weight: usize,
        c: [u8; 3],
    ) -> (end: usize)
        requires
            old(self).wf(),
            (font::GLYPH_W + 1) * xscale <= usize::MAX,
            x + text@.len() * ((font::GLYPH_W + 1) * xscale) + weight <= usize::MAX,
            y + font::GLYPH_H * yscale + weight <= usize::MAX,
        ensures
            ({
                let l = Lettering {
                    text: text@,
                    x: x as int,
                    y: y as int,
                    xscale: xscale as int,
                    yscale: yscale as int,
                    weight: weight as int,
                };
                end == l.end() && final(self).lettered(old(self), l, (c[0], c[1], c[2]))
            }),
    {
        let ghost l = Lettering {
            text: text@,
            x: x as int,
            y: y as int,
            xscale: xscale as int,
            yscale: yscale as int,
            weight: weight as int,
        };
        let advance: usize = (font::GLYPH_W + 1) * xscale;
        let mut cx: usize = x;
        let count: usize = text.unicode_len();
        let mut k: usize = 0;
        while k < count
            invariant
                self.resembles(old(self)),
                count == text@.len(),
                k <= count,
                advance == (font::GLYPH_W + 1) * xscale,
                cx == x + k * advance,
                x + count * advance + weight <= usize::MAX,
                y + font::GLYPH_H * yscale + weight <= usize::MAX,
                l == (Lettering {
                    text: text@,
                    x: x as int,
                    y: y as int,
                    xscale: xscale as int,
                    yscale: yscale as int,
                    weight: weight as int,
                }),
                forall|px: int, py: int|
                    old(self).has(px, py) ==> #[trigger] self.pixel(px, py) == (if l.covered_before(
                        k as int,
                        0,
                        0,
                        px,
                        py,
                    ) {
                        (c[0], c[1], c[2])
                    } else {
                        old(self).pixel(px, py)
                    }),
            decreases count - k,
        {
            assert(k * advance + advance == (k + 1) * advance) by (nonlinear_arith);
            assert((k + 1) * advance <= count * advance) by (nonlinear_arith)
                requires
                    k + 1 <= count,
            ;
            let ch: char = text.get_char(k);
            if let Some(rows) = font::glyph(ch) {
                let mut row: usize = 0;
                while row < font::GLYPH_H
                    invariant
                        self.resembles(old(self)),
                        k < count,
                        count == text@.len(),
                        row <= font::GLYPH_H,
                        rows.len() == font::GLYPH_H,
                        font::rows_of(text@[k as int]) == Some(rows),
                        advance == (font::GLYPH_W + 1) * xscale,
                        cx == x + k * advance,
                        cx + advance + weight <= usize::MAX,
                        y + font::GLYPH_H * yscale + weight <= usize::MAX,
                        l == (Lettering {
                            text: text@,
                            x: x as int,
                            y: y as int,
                            xscale: xscale as int,
                            yscale: yscale as int,
                            weight: weight as int,
                        }),
                        forall|px: int, py: int|
                            old(self).has(px, py) ==> #[trigger] self.pixel(px, py) == (if l.covered_before(
                                k as int,
                                row as int,
                                0,
                                px,
                                py,
                            ) {
                                (c[0], c[1], c[2])
                            } else {
                                old(self).pixel(px, py)
                            }),
                    decreases font::GLYPH_H - row,
                {
                    let bits: u8 = rows[row];
                    let mut col: usize = 0;
                    while col < font::GLYPH_W
                        invariant
                            self.resembles(old(self)),
                            k < count,
                            count == text@.len(),
                            row < font::GLYPH_H,
                            col <= font::GLYPH_W,
                            rows.len() == font::GLYPH_H,
                            bits == rows[row as int],
                            font::rows_of(text@[k as int]) == Some(rows),
                            advance == (font::GLYPH_W + 1) * xscale,
                            cx == x + k * advance,
                            cx + advance + weight <= usize::MAX,
                            y + font::GLYPH_H * yscale + weight <= usize::MAX,
                            l == (Lettering {
                                text: text@,
                                x: x as int,
                                y: y as int,
                                xscale: xscale as int,
                                yscale: yscale as int,
                                weight: weight as int,
                            }),
                            forall|px: int, py: int|
                                old(self).has(px, py) ==> #[trigger] self.pixel(px, py) == (if l.covered_before(
                                    k as int,
                                    row as int,
                                    col as int,
                                    px,
                                    py,
                                ) {
                                    (c[0], c[1], c[2])
                                } else {
                                    old(self).pixel(px, py)
                                }),
                        decreases font::GLYPH_W - col,
                    {
                        let ghost before = *self;
                        assert(col * xscale + xscale <= advance) by (nonlinear_arith)
                            requires
                                col + 1 <= font::GLYPH_W,
                                advance == (font::GLYPH_W + 1) * xscale,
                        ;
                        assert(row * yscale + yscale <= font::GLYPH_H * yscale) by (nonlinear_arith)
                            requires
                                row + 1 <= font::GLYPH_H,
                        ;
                        if font::lit(bits, col) {
                            let px: usize = cx + col * xscale;
                            let py: usize = y + row * yscale;
                            self.fill_rect(px, py, xscale + weight, yscale + weight, c);
                        }
                        proof {
                            assert forall|px: int, py: int|
                                old(self).has(px, py) implies #[trigger] self.pixel(px, py) == (if l.covered_before(
                                k as int,
                                row as int,
                                col + 1,
                                px,
                                py,
                            ) {
                                (c[0], c[1], c[2])
                            } else {
                                old(self).pixel(px, py)
                            }) by {
                                l.lemma_next_dot(k as int, row as int, col as int, px, py);
                                assert(before.has(px, py));
                                assert(before.pixel(px, py) == (if l.covered_before(
                                    k as int,
                                    row as int,
                                    col as int,
                                    px,
                                    py,
                                ) {
                                    (c[0], c[1], c[2])
                                } else {
                                    old(self).pixel(px, py)
                                }));
                            }
                        }
                        col = col + 1;
                    }
                    proof {
                        assert forall|px: int, py: int|
                            l.covered_before(k as int, row as int, col as int, px, py)
                                == #[trigger] l.covered_before(k as int, row + 1, 0, px, py) by {
                            l.lemma_next_row(k as int, row as int, px, py);
                        }
                    }
                    row = row + 1;
                }
            }
            proof {
                assert forall|px: int, py: int|
                    #[trigger] l.covered_before(k + 1, 0, 0, px, py) == (if font::rows_of(text@[k as int]) is Some {
                        l.covered_before(k as int, font::GLYPH_H as int, 0, px, py)
                    } else {
                        l.covered_before(k as int, 0, 0, px, py)
                    }) by {
                    l.lemma_next_char(k as int, px, py);
                }
            }
            cx = cx + advance;
            k = k + 1;
        }
        proof {
            assert forall|px: int, py: int| #[trigger]
                l.covered_before(count as int, 0, 0, px, py) == l.covers(px, py) by {
                l.lemma_all_dots(px, py);
            }
        }
        cx
    }
}

impl Lettering {
    /// One more font pixel: what was covered, and what that pixel covers.
    proof fn lemma_next_dot(self, k: int, row: int, col: int, x: int, y: int)
        ensures
            self.covered_before(k, row, col + 1, x, y) == (self.covered_before(k, row, col, x, y) || self.dot(
                k,
                row,
                col,
                x,
                y,
            )),
    {
        if self.covered_before(k, row, col + 1, x, y) {
            let (i, r, c) = choose|i: int, r: int, c: int|
                (i < k || (i == k && (r < row || (r == row && c < col + 1)))) && #[trigger] self.dot(i, r, c, x, y);
            if i == k && r == row && c == col {
            } else {
                assert(self.dot(i, r, c, x, y));
            }
        }
        if self.covered_before(k, row, col, x, y) {
            let (i, r, c) = choose|i: int, r: int, c: int|
                (i < k || (i == k && (r < row || (r == row && c < col)))) && #[trigger] self.dot(i, r, c, x, y);
            assert(self.dot(i, r, c, x, y));
        }
    }

    /// The end of one row of a glyph is the start of the next.
    proof fn lemma_next_row(self, k: int, row: int, x: int, y: int)
        ensures
            self.covered_before(k, row, font::GLYPH_W as int, x, y) == self.covered_before(k, row + 1, 0, x, y),
    {
        if self.covered_before(k, row, font::GLYPH_W as int, x, y) {
            let (i, r, c) = choose|i: int, r: int, c: int|
                (i < k || (i == k && (r < row || (r == row && c < font::GLYPH_W)))) && #[trigger] self.dot(
                    i,
                    r,
                    c,
                    x,
                    y,
                );
            assert(self.dot(i, r, c, x, y));
        }
        if self.covered_before(k, row + 1, 0, x, y) {
            let (i, r, c) = choose|i: int, r: int, c: int|
                (i < k || (i == k && (r < row + 1 || (r == row + 1 && c < 0)))) && #[trigger] self.dot(i, r, c, x, y);
            assert(self.dot(i, r, c, x, y));
        }
    }

    /// The end of one character is the start of the next; a character without
    /// a glyph covers nothing.
    proof fn lemma_next_char(self, k: int, x: int, y: int)
        requires
            0 <= k < self.text.len(),
        ensures
            self.covered_before(k + 1, 0, 0, x, y) == (if font::rows_of(self.text[k]) is Some {
                self.covered_before(k, font::GLYPH_H as int, 0, x, y)
            } else {
                self.covered_before(k, 0, 0, x, y)
            }),
    {
        let row = if font::rows_of(self.text[k]) is Some { font::GLYPH_H as int } else { 0 };
        if self.covered_before(k + 1, 0, 0, x, y) {
            let (i, r, c) = choose|i: int, r: int, c: int|
                (i < k + 1 || (i == k + 1 && (r < 0 || (r == 0 && c < 0)))) && #[trigger] self.dot(i, r, c, x, y);
            assert(self.dot(i, r, c, x, y));
        }
        if self.covered_before(k, row, 0, x, y) {
            let (i, r, c) = choose|i: int, r: int, c: int|
                (i < k || (i == k && (r < row || (r == row && c < 0)))) && #[trigger] self.dot(i, r, c, x, y);
            assert(self.dot(i, r, c, x, y));
        }
    }

    /// Past the last character every font pixel has been seen.
    proof fn lemma_all_dots(self, x: int, y: int)
        ensures
            self.covered_before(self.text.len() as int, 0, 0, x, y) == self.covers(x, y),
    {
        if self.covers(x, y) {
            let (i, r, c) = choose|i: int, r: int, c: int| #[trigger] self.dot(i, r, c, x, y);
            assert(self.dot(i, r, c, x, y));
        }
        if self.covered_before(self.text.len() as int, 0, 0, x, y) {
            let n = self.text.len() as int;
            let (i, r, c) = choose|i: int, r: int, c: int|
                (i < n || (i == n && (r < 0 || (r == 0 && c < 0)))) && #[trigger] self.dot(i, r, c, x, y);
            assert(self.dot(i, r, c, x, y));
        }
    }
}

/// What a source draws with: its size, its nominal frame rate and how many
/// frames it has drawn.
pub struct SourceState {
    pub width: nat,
    pub height: nat,
    pub fps: nat,
    pub frame_no: nat,
}

impl SourceState {
    /// `f` is the test picture for an elapsed time.
    pub open spec fn pictured(self, elapsed_ms: nat, f: &Frame) -> bool {
        &&& f.wf()
        &&& f.width == self.width
        &&& f.height == self.height
        &&& forall|x: int, y: int| f.has(x, y) ==> #[trigger] f.pixel(x, y) == self.pattern(elapsed_ms, x, y)
    }
}

/// The sizes that a source can draw: the decorations fit, and the frame and the
/// positions in it can be counted in machine sizes.
pub open spec fn drawable(width: nat, height: nat) -> bool {
    &&& width >= 3
    &&& height >= 16 + 3 * font::GLYPH_H
    &&& width * height * 3 <= isize::MAX
    &&& 24 * (height - 1) <= usize::MAX
    &&& 22 * height <= usize::MAX
}

/// Whether a source can draw frames of this size.
pub fn can_draw(width: usize, height: usize) -> (r: bool)
    ensures
        r == drawable(width as nat, height as nat),
{
    let (w, h): (u128, u128) = (width as u128, height as u128);
    let top: u128 = isize::MAX as u128;
    proof {
        lemma_mul_upper_bound(w as int, 0xffff_ffff_ffff_ffff, h as int, 0xffff_ffff_ffff_ffff);
    }
    if w < 3 || h < 37 {
        return false;
    }
    let area: u128 = w * h;
    area <= top / 3 && 24 * (h - 1) <= usize::MAX as u128 && 22 * h <= usize::MAX as u128
}

/// `a - b`, or zero where that is negative.
pub open spec fn less(a: int, b: int) -> int {
    if a > b {
        a - b
    } else {
        0
    }
}

/// The larger of the two.
pub open spec fn at_least(a: int, low: int) -> int {
    if a > low {
        a
    } else {
        low
    }
}

impl SourceState {
    /// How long the sweep bar takes to cross the frame, in milliseconds: 33 for
    /// each frame of a second, which is about a second at the default rate.
    pub open spec fn sweep_period(self) -> nat {
        at_least(self.fps as int, 1) as nat * 33
    }

    /// The column that the sweep bar has reached: the elapsed part of its
    /// period, a binary64 fraction, of the width.
    pub open spec fn sweep_x(self, elapsed_ms: nat) -> nat {
        let phase = binary64::quotient(
            binary64::of_nat(elapsed_ms % self.sweep_period()),
            binary64::of_nat(self.sweep_period()),
        );
        binary64::saturated(binary64::floor(binary64::product(phase, binary64::of_nat(self.width))))
    }

    /// The height of the strips at the top and the bottom that the bar crosses.
    pub open spec fn strip(self) -> int {
        self.height as int * 22 / 100
    }

    /// Whether the sweep bar covers the pixel.
    pub open spec fn in_sweep(self, elapsed_ms: nat, x: int, y: int) -> bool {
        let left = less(self.sweep_x(elapsed_ms) as int, 4);
        left <= x < left + 9 && (y < self.strip() || y >= self.height - self.strip())
    }

    /// Whether the pixel lies on the three pixels wide border.
    pub open spec fn on_border(self, x: int, y: int) -> bool {
        x < 3 || y < 3 || x >= self.width - 3 || y >= self.height - 3
    }

    /// The background of row `y`: a vertical gradient.
    pub open spec fn background(self, y: int) -> Rgb {
        let v = 16 + y * 24 / (self.height as int);
        ((v / 3) as u8, (v / 3) as u8, v as u8)
    }

    /// The size of a font pixel of the timecode: it fills about 85% of the
    /// width, and is stretched 2.6 times in height.
    pub open spec fn timecode_xscale(self, elapsed_ms: nat) -> int {
        at_least(self.width as int * 85 / 100 / (timecode(elapsed_ms).len() * (font::GLYPH_W + 1)), 1)
    }

    pub open spec fn timecode_yscale(self, elapsed_ms: nat) -> int {
        at_least(self.timecode_xscale(elapsed_ms) * 13 / 5, 1)
    }

    /// The timecode, centered.
    pub open spec fn timecode_face(self, elapsed_ms: nat) -> Lettering {
        let text = timecode(elapsed_ms);
        let xscale = self.timecode_xscale(elapsed_ms);
        let yscale = self.timecode_yscale(elapsed_ms);
        Lettering {
            text,
            x: less(self.width as int, text.len() * (font::GLYPH_W + 1) * xscale) / 2,
            y: less(self.height as int, font::GLYPH_H * yscale) / 2,
            xscale,
            yscale,
            weight: xscale / 2,
        }
    }

    /// Its drop shadow.
    pub open spec fn timecode_shadow(self, elapsed_ms: nat) -> Lettering {
        let face = self.timecode_face(elapsed_ms);
        Lettering { x: face.x + face.xscale / 3, y: face.y + face.yscale / 3, ..face }
    }

    /// Whether the pixel lies on the panel behind the timecode: the box that
    /// holds its strokes.
    pub open spec fn on_panel(self, elapsed_ms: nat, x: int, y: int) -> bool {
        let face = self.timecode_face(elapsed_ms);
        in_box(
            x,
            y,
            face.x,
            face.y,
            face.text.len() * (font::GLYPH_W + 1) * face.xscale,
            font::GLYPH_H * face.yscale + face.weight,
        )
    }

    /// The label in the top left corner.
    pub open spec fn label_text(self) -> Seq<char> {
        (((("VIROH "@ + text::decimal(self.width)).push('X') + text::decimal(self.height)).push(' ')) + text::decimal(
            self.fps,
        )) + "FPS"@
    }

    pub open spec fn label(self) -> Lettering {
        Lettering { text: self.label_text(), x: 16, y: 16, xscale: 3, yscale: 3, weight: 1 }
    }

    /// The frame counter in the bottom left corner.
    pub open spec fn counter_text(self) -> Seq<char> {
        "FRAME "@ + text::decimal(self.frame_no)
    }

    pub open spec fn counter(self) -> Lettering {
        Lettering {
            text: self.counter_text(),
            x: 16,
            y: self.height - 16 - 3 * font::GLYPH_H,
            xscale: 3,
            yscale: 3,
            weight: 1,
        }
    }

    /// The color of a pixel of the test pattern: the topmost of its layers
    /// that covers the pixel.
    pub open spec fn pattern(self, elapsed_ms: nat, x: int, y: int) -> Rgb {
        if self.counter().covers(x, y) {
            (180, 180, 180)
        } else if self.label().covers(x, y) {
            (200, 200, 80)
        } else if self.timecode_face(elapsed_ms).covers(x, y) {
            (80, 255, 120)
        } else if self.timecode_shadow(elapsed_ms).covers(x, y) || self.on_panel(elapsed_ms, x, y) {
            (0, 0, 0)
        } else if self.on_border(x, y) {
            (80, 80, 80)
        } else if self.in_sweep(elapsed_ms, x, y) {
            (40, 120, 200)
        } else {
            self.background(y)
        }
    }
}

/// Generates synthetic timecode frames at a fixed resolution.
pub struct TimecodeSource {
    width: usize,
    height: usize,
    frame_no: u64,
    fps: u32,
}

impl View for TimecodeSource {
    type V = SourceState;

    closed spec fn view(&self) -> SourceState {
        SourceState {
            width: self.width as nat,
            height: self.height as nat,
            fps: self.fps as nat,
            frame_no: self.frame_no as nat,
        }
    }
}

impl TimecodeSource {
    /// A source that has drawn no frame yet.
    pub fn new(width: usize, height: usize, fps: u32) -> (r: Self)
        ensures
            r@ == (SourceState { width: width as nat, height: height as nat, fps: fps as nat, frame_no: 0 }),
    {
        TimecodeSource { width, height, frame_no: 0, fps }
    }

    /// The column that the sweep bar has reached.
    fn sweep_x(&self, elapsed_ms: u128) -> (r: usize)
        ensures
            r == self@.sweep_x(elapsed_ms as nat),
            r <= 2 * self@.width,
    {
        let rate: u64 = if self.fps > 1 { self.fps as u64 } else { 1 };
        let period: u64 = rate * 33;
        let past: u64 = (elapsed_ms % period as u128) as u64;
        proof {
            binary64::lemma_fraction(past as nat, period as nat, self.width as nat);
            binary64::lemma_of_nat(self.width as nat);
        }
        let phase = Binary64::of_u64(past).over(Binary64::of_u64(period));
        phase.times(Binary64::of_usize(self.width)).to_usize()
    }

    /// The text of the label.
    fn label_text(&self) -> (r: String)
        ensures
            r@ == self@.label_text(),
    {
        let mut out = String::new();
        out.append("VIROH ");
        assert(out@ =~= "VIROH "@);
        text::push_decimal(&mut out, self.width as u128);
        out.push('X');
        text::push_decimal(&mut out, self.height as u128);
        out.push(' ');
        text::push_decimal(&mut out, self.fps as u128);
        out.append("FPS");
        out
    }

    /// The text of the frame counter.
    fn counter_text(&self) -> (r: String)
        ensures
            r@ == self@.counter_text(),
    {
        let mut out = String::new();
        out.append("FRAME ");
        assert(out@ =~= "FRAME "@);
        text::push_decimal(&mut out, self.frame_no as u128);
        out
    }

    /// The background: a subtle vertical gradient so the picture isn't flat.
    fn draw_background(&self) -> (f: Frame)
        requires
            drawable(self@.width, self@.height),
        ensures
            f.wf(),
            f.width == self@.width,
            f.height == self@.height,
            forall|x: int, y: int| f.has(x, y) ==> #[trigger] f.pixel(x, y) == self@.background(y),
    {
        let mut f = Frame::new(self.width, self.height);
        let mut y: usize = 0;
        while y < self.height
            invariant
                drawable(self@.width, self@.height),
                f.wf(),
                f.width == self.width,
                f.height == self.height,
                y <= self.height,
                forall|px: int, py: int|
                    f.has(px, py) && py < y ==> #[trigger] f.pixel(px, py) == self@.background(py),
            decreases self.height - y,
        {
            let level: usize = y * 24 / self.height;
            assert(level < 24) by (nonlinear_arith)
                requires
                    level == y as int * 24 / (self.height as int),
                    0 <= y < self.height,
            ;
            let v: u8 = 16 + level as u8;
            let row: [u8; 3] = [v / 3, v / 3, v];
            assert((row[0], row[1], row[2]) == self@.background(y as int));
            let mut x: usize = 0;
            while x < self.width
                invariant
                    f.wf(),
                    f.width == self.width,
                    f.height == self.height,
                    x <= self.width,
                    y < self.height,
                    (row[0], row[1], row[2]) == self@.background(y as int),
                    forall|px: int, py: int|
                        f.has(px, py) && (py < y || (py == y && px < x)) ==> #[trigger] f.pixel(px, py)
                            == self@.background(py),
                decreases self.width - x,
            {
                f.put(x, y, row);
                x = x + 1;
            }
            y = y + 1;
        }
        f
    }

    /// Whether `f` is a frame of this source's size.
    pub open spec fn fits(&self, f: &Frame) -> bool {
        &&& f.wf()
        &&& f.width == self@.width
        &&& f.height == self@.height
    }

    /// Moving sweep bar: a bright vertical band that scrolls left->right. Drawn
    /// only in the top and bottom strips so it never crosses the centered
    /// timecode in the middle of the frame.
    fn draw_sweep(&self, f: &mut Frame, elapsed_ms: u128)
        requires
            drawable(self@.width, self@.height),
            self.fits(old(f)),
        ensures
            self.fits(final(f)),
            forall|x: int, y: int|
                old(f).has(x, y) ==> #[trigger] final(f).pixel(x, y) == (if self@.in_sweep(elapsed_ms as nat, x, y) {
                    (40, 120, 200)
                } else {
                    old(f).pixel(x, y)
                }),
    {
        proof {
            lemma_small(self@.width, self@.height);
        }
        let bar_x: usize = self.sweep_x(elapsed_ms);
        let strip: usize = self.height * 22 / 100;
        let left: usize = if bar_x > 4 { bar_x - 4 } else { 0 };
        f.fill_rect(left, 0, 9, strip, [40, 120, 200]);
        f.fill_rect(left, self.height - strip, 9, strip, [40, 120, 200]);
    }

    /// Border so the frame edges are visible.
    fn draw_border(&self, f: &mut Frame)
        requires
            drawable(self@.width, self@.height),
            self.fits(old(f)),
        ensures
            self.fits(final(f)),
            forall|x: int, y: int|
                old(f).has(x, y) ==> #[trigger] final(f).pixel(x, y) == (if self@.on_border(x, y) {
                    (80, 80, 80)
                } else {
                    old(f).pixel(x, y)
                }),
    {
        f.fill_rect(0, 0, self.width, 3, [80, 80, 80]);
        f.fill_rect(0, self.height - 3, self.width, 3, [80, 80, 80]);
        f.fill_rect(0, 0, 3, self.height, [80, 80, 80]);
        f.fill_rect(self.width - 3, 0, 3, self.height, [80, 80, 80]);
    }

    /// Big centered timecode on a black panel: drop shadow, then bright text, so
    /// the digits stay legible over the picture. The horizontal
    /// scale fits all characters in ~85% of the width; the vertical scale is
    /// stretched ~2.6x taller, since terminals are far shorter than they are
    /// wide and the ASCII renderer squeezes the frame's height much harder than
    /// its width.
    fn draw_timecode(&self, f: &mut Frame, elapsed_ms: u128)
        requires
            drawable(self@.width, self@.height),
            self.fits(old(f)),
        ensures
            self.fits(final(f)),
            forall|x: int, y: int|
                old(f).has(x, y) ==> #[trigger] final(f).pixel(x, y) == (if self@.timecode_face(
                    elapsed_ms as nat,
                ).covers(x, y) {
                    (80, 255, 120)
                } else if self@.timecode_shadow(elapsed_ms as nat).covers(x, y) || self@.on_panel(
                    elapsed_ms as nat,
                    x,
                    y,
                ) {
                    (0, 0, 0)
                } else {
                    old(f).pixel(x, y)
                }),
    {
        proof {
            lemma_small(self@.width, self@.height);
            lemma_timecode_len(elapsed_ms as nat);
        }
        let tc = format_timecode(elapsed_ms);
        let count: usize = tc.as_str().unicode_len();
        let glyph_adv: usize = font::GLYPH_W + 1;
        let wide: usize = self.width * 85 / 100;
        let fit: usize = wide / (count * glyph_adv);
        assert(fit * (count * glyph_adv) <= wide) by {
            lemma_fundamental_div_mod(wide as int, count * glyph_adv);
            lemma_mul_is_commutative(fit as int, count * glyph_adv);
        }
        let xscale: usize = if fit > 1 { fit } else { 1 };
        assert(count * glyph_adv * xscale <= self.width + 300) by {
            lemma_mul_is_commutative(fit as int, count * glyph_adv);
            lemma_mul_basics(count * glyph_adv);
        }
        assert(xscale <= self.width) by {
            assert(fit <= wide) by (nonlinear_arith)
                requires
                    fit * (count * glyph_adv) <= wide,
                    count * glyph_adv >= 1,
                    fit >= 0,
            ;
        }
        let tall: usize = xscale * 13 / 5;
        let yscale: usize = if tall > 1 { tall } else { 1 };
        let weight: usize = xscale / 2;
        let text_w: usize = count * glyph_adv * xscale;
        let text_h: usize = font::GLYPH_H * yscale;
        let tx: usize = (if self.width > text_w { self.width - text_w } else { 0 }) / 2;
        let ty: usize = (if self.height > text_h { self.height - text_h } else { 0 }) / 2;
        assert(count * ((font::GLYPH_W + 1) * xscale) == text_w) by {
            lemma_mul_is_associative(count as int, glyph_adv as int, xscale as int);
        }
        f.fill_rect(tx, ty, text_w, text_h + weight, [0, 0, 0]);
        f.draw_text(tx + xscale / 3, ty + yscale / 3, tc.as_str(), xscale, yscale, weight, [0, 0, 0]);
        f.draw_text(tx, ty, tc.as_str(), xscale, yscale, weight, [80, 255, 120]);
    }

    /// Small label in the top left corner and frame counter in the bottom left.
    fn draw_captions(&self, f: &mut Frame)
        requires
            drawable(self@.width, self@.height),
            self.fits(old(f)),
        ensures
            self.fits(final(f)),
            forall|x: int, y: int|
                old(f).has(x, y) ==> #[trigger] final(f).pixel(x, y) == (if self@.counter().covers(x, y) {
                    (180, 180, 180)
                } else if self@.label().covers(x, y) {
                    (200, 200, 80)
                } else {
                    old(f).pixel(x, y)
                }),
    {
        proof {
            lemma_small(self@.width, self@.height);
            self.lemma_captions_short();
        }
        let label = self.label_text();
        assert(label@.len() <= 61);
        assert(label@.len() * ((font::GLYPH_W + 1) * 3) <= 1098) by {
            lemma_mul_inequality(label@.len() as int, 61, 18);
        }
        f.draw_text(16, 16, label.as_str(), 3, 3, 1, [200, 200, 80]);
        let counter = self.counter_text();
        assert(counter@.len() <= 26);
        assert(counter@.len() * ((font::GLYPH_W + 1) * 3) <= 468) by {
            lemma_mul_inequality(counter@.len() as int, 26, 18);
        }
        f.draw_text(16, self.height - 16 - font::GLYPH_H * 3, counter.as_str(), 3, 3, 1, [180, 180, 180]);
    }

    /// The captions are short.
    proof fn lemma_captions_short(&self)
        ensures
            self@.label_text().len() <= 61,
            self@.counter_text().len() <= 26,
    {
        reveal_with_fuel(text::pow10, 21);
        reveal_strlit("VIROH ");
        reveal_strlit("FPS");
        reveal_strlit("FRAME ");
        text::lemma_decimal_short(self@.width, 20);
        text::lemma_decimal_short(self@.height, 20);
        text::lemma_decimal_short(self@.fps, 10);
        text::lemma_decimal_short(self@.frame_no, 20);
    }

    /// Renders the frame for a given elapsed time (since stream start).
    pub fn render(&mut self, elapsed_ms: u128) -> (f: Frame)
        requires
            drawable(old(self)@.width, old(self)@.height),
            old(self)@.frame_no < u64::MAX,
        ensures
            final(self)@ == (SourceState { frame_no: old(self)@.frame_no + 1, ..old(self)@ }),
            old(self)@.pictured(elapsed_ms as nat, &f),
    {
        let mut f = self.draw_background();
        self.draw_sweep(&mut f, elapsed_ms);
        self.draw_border(&mut f);
        self.draw_timecode(&mut f, elapsed_ms);
        self.draw_captions(&mut f);
        self.frame_no = self.frame_no + 1;
        f
    }
}

/// A drawable frame is so small that positions near it can be counted in
/// machine sizes.
proof fn lemma_small(width: nat, height: nat)
    requires
        drawable(width, height),
    ensures
        width * 111 <= isize::MAX,
        height * 9 <= isize::MAX,
{
    assert(width * 111 <= width * height * 3) by (nonlinear_arith)
        requires
            height >= 37,
    ;
    assert(height * 9 <= width * height * 3) by (nonlinear_arith)
        requires
            width >= 3,
    ;
}

/// A timecode has at least 12 characters, and not many more.
proof fn lemma_timecode_len(ms: nat)
    requires
        ms <= u128::MAX,
    ensures
        12 <= timecode(ms).len() <= 49,
{
    reveal_with_fuel(text::pow10, 40);
    text::lemma_decimal_short(ms / 3_600_000, 39);
    text::lemma_decimal_len(ms / 3_600_000);
    text::lemma_decimal_len(ms / 60_000 % 60);
    text::lemma_decimal_len(ms / 1_000 % 60);
    text::lemma_decimal_len(ms % 1_000);
}

/// `ms` milliseconds written as `HH:MM:SS.mmm`; hours take as many digits as
/// they need, two at least.
pub open spec fn timecode(ms: nat) -> Seq<char> {
    let hours = text::padded(ms / 3_600_000, 2);
    let minutes = text::padded(ms / 60_000 % 60, 2);
    let seconds = text::padded(ms / 1_000 % 60, 2);
    let millis = text::padded(ms % 1_000, 3);
    ((hours.push(':') + minutes).push(':') + seconds).push('.') + millis
}

/// Formats milliseconds as `HH:MM:SS.mmm`.
pub fn format_timecode(ms: u128) -> (r: String)
    ensures
        r@ == timecode(ms as nat),
{
    let total_s: u128 = ms / 1000;
    let h: u128 = total_s / 3600;
    let m: u128 = (total_s % 3600) / 60;
    let s: u128 = total_s % 60;
    let millis: u128 = ms % 1000;
    proof {
        lemma_clock(ms as nat);
    }
    let mut out = String::new();
    text::push_padded(&mut out, h, 2);
    assert(out@ =~= text::padded(h as nat, 2));
    out.push(':');
    text::push_padded(&mut out, m, 2);
    out.push(':');
    text::push_padded(&mut out, s, 2);
    out.push('.');
    text::push_padded(&mut out, millis, 3);
    out
}

/// Hours, minutes and seconds come out the same from the milliseconds and from
/// the whole seconds.
proof fn lemma_clock(ms: nat)
    ensures
        ms / 1_000 / 3_600 == ms / 3_600_000,
        (ms / 1_000 % 3_600) / 60 == ms / 60_000 % 60,
{
    let s = ms as int / 1_000;
    lemma_div_denominator(ms as int, 1_000, 3_600);
    lemma_div_denominator(ms as int, 1_000, 60);
    lemma_mod_breakdown(s, 60, 60);
    lemma_fundamental_div_mod_converse(s % 3_600, 60, s / 60 % 60, s % 60);
}

/// The three bytes of a pixel lie within its frame.
proof fn lemma_offset_in_range(width: int, height: int, x: int, y: int)
    requires
        0 <= x < width,
        0 <= y < height,
    ensures
        0 <= offset(width, x, y),
        offset(width, x, y) + 2 < width * height * 3,
{
    assert(0 <= y * width + x < width * height) by (nonlinear_arith)
        requires
            0 <= x < width,
            0 <= y < height,
    ;
}

/// Different pixels of a frame share no byte.
proof fn lemma_offsets_apart(width: int, x1: int, y1: int, x2: int, y2: int)
    requires
        0 <= x1 < width,
        0 <= x2 < width,
        x1 != x2 || y1 != y2,
    ensures
        offset(width, x1, y1) + 2 < offset(width, x2, y2) || offset(width, x2, y2) + 2 < offset(width, x1, y1),
{
    assert(y1 * width + x1 < y2 * width + x2 || y2 * width + x2 < y1 * width + x1) by (nonlinear_arith)
        requires
            0 <= x1 < width,
            0 <= x2 < width,
            x1 != x2 || y1 != y2,
    ;
}

} // verus!
