//! Renders an RGB [`Frame`] to colored text art sized to the terminal.

pub mod cells;
pub mod fit;
pub mod laws;
pub mod terminal;

use crate::binary64;
use crate::binary64::Binary64;
use crate::text;
use crate::video::Frame;
use crate::video::Rgb;
use crate::video;
use vstd::arithmetic::div_mod::*;
use vstd::arithmetic::mul::*;
use vstd::prelude::*;

verus! {

/// Dark-to-bright character ramp.
pub const RAMP: [char; 10] = [' ', '.', ':', '-', '=', '+', '*', '#', '%', '@'];

/// A terminal character cell is roughly twice as tall as it is wide, so we
/// stretch the horizontal sampling to keep the picture's aspect ratio.
pub const CHAR_ASPECT: u64 = 2;

/// The component levels of the 6x6x6 color cube.
pub const LEVELS: [u8; 6] = [0, 95, 135, 175, 215, 255];

/// How cells are colored.
///
/// `Truecolor` emits 24-bit ANSI escapes (`\e[38;2;r;g;bm`) — gorgeous, but only
/// on terminals that support it. macOS Terminal does **not**, and misreads those
/// escapes badly, so `Ansi256` falls back to the 256-color palette (`\e[38;5;nm`)
/// it does support. `Mono` emits no color at all (works literally everywhere).
#[derive(Clone, Copy, Debug, PartialEq, Eq, Structural)]
pub enum ColorMode {
    Truecolor,
    Ansi256,
    Mono,
}

/// The distance between two component values.
pub open spec fn gap(a: int, b: int) -> int {
    if a < b {
        b - a
    } else {
        a - b
    }
}

/// The squared distance of two colors.
pub open spec fn distance(a: Rgb, b: Rgb) -> int {
    (a.0 - b.0) * (a.0 - b.0) + (a.1 - b.1) * (a.1 - b.1) + (a.2 - b.2) * (a.2 - b.2)
}

/// Which level of the color cube a component value is rendered with.
pub open spec fn level_index(v: u8) -> int {
    if v < 48 {
        0
    } else if v <= 115 {
        1
    } else if v <= 155 {
        2
    } else if v <= 195 {
        3
    } else if v <= 235 {
        4
    } else {
        5
    }
}

/// The palette index of the cube color that stands for `c`.
pub open spec fn cube_index(c: Rgb) -> int {
    16 + 36 * level_index(c.0) + 6 * level_index(c.1) + level_index(c.2)
}

/// The last step of the grayscale ramp that is not brighter than the mean of
/// `c`, within the ramp.
pub open spec fn gray_below(c: Rgb) -> int {
    let mean = (c.0 + c.1 + c.2) / 3;
    let step = if mean < 8 {
        0
    } else {
        (mean - 8) / 10
    };
    232 + (if step > 23 {
        23
    } else {
        step
    })
}

/// The palette index of the gray that stands for `c`: the step of the grayscale
/// ramp below the mean, or the one above where that is nearer.
pub open spec fn gray_index(c: Rgb) -> int {
    let below = gray_below(c);
    if below < 255 && distance(c, palette(below + 1)) < distance(c, palette(below)) {
        below + 1
    } else {
        below
    }
}

/// The color with index `i` of the xterm palette, for `16 <= i <= 255`: a 6x6x6
/// color cube and a ramp of 24 grays.
pub open spec fn palette(i: int) -> Rgb {
    if i < 232 {
        (LEVELS[(i - 16) / 36], LEVELS[(i - 16) / 6 % 6], LEVELS[(i - 16) % 6])
    } else {
        let v = (8 + 10 * (i - 232)) as u8;
        (v, v, v)
    }
}

/// The palette index that `c` is rendered with: the gray where it is nearer
/// than the cube color. No color of the palette is nearer.
#[verifier::opaque]
pub open spec fn ansi256(c: Rgb) -> int {
    if distance(c, palette(gray_index(c))) < distance(c, palette(cube_index(c))) {
        gray_index(c)
    } else {
        cube_index(c)
    }
}

/// The level nearest to `v`, the lower one of two that are equally near.
fn nearest(v: u8) -> (r: (usize, u8))
    ensures
        r.0 == level_index(v),
        r.1 == LEVELS[r.0 as int],
{
    let mut best: usize = 0;
    let mut best_d: i32 = i32::MAX;
    let mut i: usize = 0;
    while i < 6
        invariant
            i <= 6,
            best < 6,
            i == 0 ==> best_d == i32::MAX,
            i == 0 ==> best == 0,
            i > 0 ==> best < i && best_d == gap(v as int, LEVELS[best as int] as int),
            i > 0 ==> best == (if level_index(v) < i { level_index(v) } else { i - 1 }),
        decreases 6 - i,
    {
        let lv: u8 = LEVELS[i];
        let d: i32 = if v < lv { lv as i32 - v as i32 } else { v as i32 - lv as i32 };
        if d < best_d {
            best_d = d;
            best = i;
        }
        i = i + 1;
    }
    (best, LEVELS[best])
}

/// The squared difference of two component values.
fn sq(a: i32, b: i32) -> (r: i32)
    requires
        0 <= a <= 255,
        0 <= b <= 255,
    ensures
        r == (a - b) * (a - b),
        0 <= r <= 65_025,
{
    let d: i32 = a - b;
    assert(-65_025 <= d * d <= 65_025 && d * d >= 0) by (nonlinear_arith)
        requires
            -255 <= d <= 255,
    ;
    d * d
}

/// The squared distance of a color to the gray `v`.
fn gray_distance(r: u8, g: u8, b: u8, v: i32) -> (d: i32)
    requires
        0 <= v <= 255,
    ensures
        d == distance((r, g, b), (v as u8, v as u8, v as u8)),
        0 <= d <= 3 * 255 * 255,
{
    sq(r as i32, v) + sq(g as i32, v) + sq(b as i32, v)
}

/// Maps a 24-bit RGB color to the nearest index of the xterm-256 palette: the
/// nearest color of the cube, or the nearest gray where that is nearer still.
fn rgb_to_ansi256(r: u8, g: u8, b: u8) -> (n: u8)
    ensures
        n == ansi256((r, g, b)),
        16 <= n,
        forall|k: int|
            16 <= k < 256 ==> distance((r, g, b), palette(n as int)) <= #[trigger] distance((r, g, b), palette(k)),
{
    let (ri, rv) = nearest(r);
    let (gi, gv) = nearest(g);
    let (bi, bv) = nearest(b);
    let cube: usize = 16 + 36 * ri + 6 * gi + bi;
    proof {
        reveal(ansi256);
        lemma_cube_palette((r, g, b));
    }

    // Grayscale ramp (indices 232..=255) often matches better for near-gray colors.
    let gray: i32 = (r as i32 + g as i32 + b as i32) / 3;
    let low: i32 = if gray < 8 { 0 } else { (gray - 8) / 10 };
    let below: i32 = if low > 23 { 23 } else { low };
    let mut step: i32 = below;
    let mut gray_d: i32 = gray_distance(r, g, b, 8 + 10 * below);
    if below < 23 {
        let above_d: i32 = gray_distance(r, g, b, 18 + 10 * below);
        if above_d < gray_d {
            step = below + 1;
            gray_d = above_d;
        }
    }

    let cube_d: i32 = sq(r as i32, rv as i32) + sq(g as i32, gv as i32) + sq(b as i32, bv as i32);
    let n: u8 = if gray_d < cube_d { 232 + step as u8 } else { cube as u8 };
    proof {
        assert forall|k: int| 16 <= k < 256 implies distance((r, g, b), palette(n as int)) <= #[trigger] distance(
            (r, g, b),
            palette(k),
        ) by {
            laws::rendered_color_is_nearest((r, g, b), k);
        }
    }
    n
}

/// The cube color that stands for `c`, component by component.
pub proof fn lemma_cube_palette(c: Rgb)
    ensures
        16 <= cube_index(c) < 232,
        palette(cube_index(c)) == (LEVELS[level_index(c.0)], LEVELS[level_index(c.1)], LEVELS[level_index(c.2)]),
{
    let r = level_index(c.0);
    let g = level_index(c.1);
    let b = level_index(c.2);
    let i = 36 * r + 6 * g + b;
    assert(i / 36 == r && i / 6 % 6 == g && i % 6 == b) by {
        assert(i / 6 == 6 * r + g);
    }
}

/// The grid (cols, rows) that best fits `term_cols`x`term_rows` while
/// preserving the image's aspect ratio: the ratio and the fitted side are
/// binary64 numbers, of which the integer part counts.
pub open spec fn grid(img_w: nat, img_h: nat, term_cols: nat, term_rows: nat) -> (nat, nat) {
    if img_w == 0 || img_h == 0 || term_cols == 0 || term_rows == 0 {
        (1, 1)
    } else {
        let ratio = binary64::product(
            binary64::quotient(binary64::of_nat(img_w), binary64::of_nat(img_h)),
            binary64::of_nat(CHAR_ASPECT as nat),
        );
        let rows = binary64::saturated(binary64::floor(binary64::quotient(binary64::of_nat(term_cols), ratio)));
        if rows <= term_rows {
            (term_cols, positive(rows))
        } else {
            (positive(
                binary64::saturated(binary64::floor(binary64::product(binary64::of_nat(term_rows), ratio))),
            ), term_rows)
        }
    }
}

/// `n`, or one where `n` is zero.
pub open spec fn positive(n: nat) -> nat {
    if n == 0 {
        1
    } else {
        n
    }
}

/// Computes the grid (cols, rows) that best fits `term_cols`x`term_rows` while
/// preserving the image's aspect ratio.
pub fn fit_grid(img_w: usize, img_h: usize, term_cols: usize, term_rows: usize) -> (r: (usize, usize))
    ensures
        (r.0 as nat, r.1 as nat) == grid(img_w as nat, img_h as nat, term_cols as nat, term_rows as nat),
{
    if img_w == 0 || img_h == 0 || term_cols == 0 || term_rows == 0 {
        return (1, 1);
    }
    let sides = Binary64::of_usize(img_w).over(Binary64::of_usize(img_h));
    let aspect = Binary64::of_u64(CHAR_ASPECT);
    proof {
        lemma_mul_strictly_positive(sides@.m as int, aspect@.m as int);
    }
    let ratio = sides.times(aspect);  // cols per row
    let rows_from_cols: usize = Binary64::of_usize(term_cols).over(ratio).to_usize();
    let (cols, rows): (usize, usize) = if rows_from_cols <= term_rows {
        (term_cols, rows_from_cols)
    } else {
        (Binary64::of_usize(term_rows).times(ratio).to_usize(), term_rows)
    };
    (if cols > 1 { cols } else { 1 }, if rows > 1 { rows } else { 1 })
}

/// The part of `len` pixels that cell `c` of `n` covers starts here.
pub open spec fn span_start(c: int, len: int, n: int) -> int {
    c * len / n
}

/// And ends before here: it holds at least one pixel if there are any.
pub open spec fn span_end(c: int, len: int, n: int) -> int {
    let next = (c + 1) * len / n;
    let end = if next > span_start(c, len, n) {
        next
    } else {
        span_start(c, len, n) + 1
    };
    if end < len {
        end
    } else {
        len
    }
}

/// Component `k` (red, green, blue) of a pixel.
pub open spec fn component(f: &Frame, k: int, x: int, y: int) -> nat {
    f.rgb@[video::offset(f.width as int, x, y) + k] as nat
}

/// The sum of component `k` over the pixels `x0 <= x < x1` of row `y`.
pub open spec fn row_sum(f: &Frame, k: int, x0: int, x1: int, y: int) -> nat
    decreases x1 - x0,
{
    if x1 <= x0 {
        0
    } else {
        row_sum(f, k, x0, x1 - 1, y) + component(f, k, x1 - 1, y)
    }
}

/// The sum of component `k` over a block of pixels.
pub open spec fn block_sum(f: &Frame, k: int, x0: int, x1: int, y0: int, y1: int) -> nat
    decreases y1 - y0,
{
    if y1 <= y0 {
        0
    } else {
        block_sum(f, k, x0, x1, y0, y1 - 1) + row_sum(f, k, x0, x1, y1 - 1)
    }
}

/// The mean of component `k` over a block of pixels; zero over no pixels.
pub open spec fn block_mean(f: &Frame, k: int, x0: int, x1: int, y0: int, y1: int) -> nat {
    block_sum(f, k, x0, x1, y0, y1) / positive(((x1 - x0) * (y1 - y0)) as nat)
}

/// The color of cell `(cx, cy)` of a `cols` by `rows` grid over the frame: the
/// mean of the pixels that it covers.
pub open spec fn cell_color(f: &Frame, cols: int, rows: int, cx: int, cy: int) -> Rgb {
    let x0 = span_start(cx, f.width as int, cols);
    let x1 = span_end(cx, f.width as int, cols);
    let y0 = span_start(cy, f.height as int, rows);
    let y1 = span_end(cy, f.height as int, rows);
    (
        block_mean(f, 0, x0, x1, y0, y1) as u8,
        block_mean(f, 1, x0, x1, y0, y1) as u8,
        block_mean(f, 2, x0, x1, y0, y1) as u8,
    )
}

/// The luminance of a color.
pub open spec fn luminance(c: Rgb) -> int {
    (299 * c.0 + 587 * c.1 + 114 * c.2) / 1000
}

/// The character of the ramp for a color.
pub open spec fn ramp_char(c: Rgb) -> char {
    RAMP[luminance(c) * 9 / 255]
}

/// Whether a grid over a frame can be rendered: the frame holds its pixels, and
/// sizes, sums and the expected length of the text can be counted.
pub open spec fn renderable(f: &Frame, cols: nat, rows: nat) -> bool {
    &&& cols * rows * 20 <= isize::MAX
    &&& rows * f.height <= usize::MAX
    &&& cols > 0 && rows > 0 ==> {
        &&& cols * f.width <= usize::MAX
        &&& f.width * f.height * 3 <= f.rgb@.len()
        &&& f.width * f.height * 255 <= u64::MAX
    }
}

/// `a * b`, if that is at most `bound`.
fn product_within(a: u128, b: u128, bound: u128) -> (r: Option<u128>)
    ensures
        a * b <= bound ==> r == Some((a * b) as u128),
        a * b > bound ==> r is None,
{
    match a.checked_mul(b) {
        Some(p) => if p <= bound {
            Some(p)
        } else {
            None
        },
        None => None,
    }
}

/// Whether a grid over a frame can be rendered.
pub fn can_render(f: &Frame, cols: usize, rows: usize) -> (r: bool)
    ensures
        r == renderable(f, cols as nat, rows as nat),
{
    let top: u128 = usize::MAX as u128;
    let (w, h): (u128, u128) = (f.width as u128, f.height as u128);
    let cells: Option<u128> = product_within(cols as u128, rows as u128, isize::MAX as u128 / 20);
    if cells.is_none() || product_within(rows as u128, h, top).is_none() {
        return false;
    }
    if cols == 0 || rows == 0 {
        return true;
    }
    if product_within(cols as u128, w, top).is_none() {
        return false;
    }
    match product_within(w, h, u64::MAX as u128 / 255) {
        None => false,
        Some(area) => area * 3 <= f.rgb.len() as u128,
    }
}

/// A cell covers a range of pixels.
pub proof fn lemma_span(c: int, len: int, n: int)
    requires
        0 <= c < n,
        0 <= len,
    ensures
        0 <= span_start(c, len, n) <= span_end(c, len, n) <= len,
        len > 0 ==> span_start(c, len, n) < span_end(c, len, n),
        span_start(c, len, n) <= (c + 1) * len / n <= len,
        0 <= c * len <= n * len,
        (c + 1) * len <= n * len,
{
    lemma_mul_inequality(c, c + 1, len);
    lemma_mul_inequality(c + 1, n, len);
    lemma_mul_nonnegative(c, len);
    lemma_div_is_ordered(c * len, (c + 1) * len, n);
    lemma_div_is_ordered((c + 1) * len, n * len, n);
    lemma_div_multiples_vanish(len, n);
    lemma_mul_is_commutative(n, len);
    lemma_div_pos_is_pos(c * len, n);
    if len > 0 {
        assert(c * len / n < len) by (nonlinear_arith)
            requires
                0 <= c < n,
                0 < len,
        ;
    }
}

/// Sums of components are at most 255 for each pixel.
proof fn lemma_sums(f: &Frame, k: int, x0: int, x1: int, y0: int, y1: int)
    requires
        x0 <= x1,
        y0 <= y1,
    ensures
        block_sum(f, k, x0, x1, y0, y1) <= 255 * ((x1 - x0) * (y1 - y0)),
    decreases y1 - y0,
{
    if y0 < y1 {
        lemma_sums(f, k, x0, x1, y0, y1 - 1);
        lemma_row_sums(f, k, x0, x1, y1 - 1);
        assert((x1 - x0) * (y1 - y0) == (x1 - x0) * (y1 - 1 - y0) + (x1 - x0)) by (nonlinear_arith);
    } else {
        lemma_mul_basics(x1 - x0);
    }
}

proof fn lemma_row_sums(f: &Frame, k: int, x0: int, x1: int, y: int)
    requires
        x0 <= x1,
    ensures
        row_sum(f, k, x0, x1, y) <= 255 * (x1 - x0),
    decreases x1 - x0,
{
    if x0 < x1 {
        lemma_row_sums(f, k, x0, x1 - 1, y);
    }
}

/// A mean of components is a component value.
proof fn lemma_mean(f: &Frame, k: int, x0: int, x1: int, y0: int, y1: int)
    requires
        x0 <= x1,
        y0 <= y1,
    ensures
        block_mean(f, k, x0, x1, y0, y1) <= 255,
{
    lemma_sums(f, k, x0, x1, y0, y1);
    let s = block_sum(f, k, x0, x1, y0, y1);
    let n = (x1 - x0) * (y1 - y0);
    lemma_mul_nonnegative(x1 - x0, y1 - y0);
    if n == 0 {
        lemma_div_basics(s as int);
    } else {
        assert(s as int / n <= 255) by (nonlinear_arith)
            requires
                0 <= s <= 255 * n,
                n > 0,
        ;
    }
}

/// The mean color of the pixels `x0 <= x < x1`, `y0 <= y < y1`; black if there
/// are none.
fn block_color(f: &Frame, x0: usize, x1: usize, y0: usize, y1: usize) -> (r: (u8, u8, u8))
    requires
        x0 <= x1 <= f.width,
        y0 <= y1 <= f.height,
        f.width * f.height * 3 <= f.rgb@.len(),
        f.width * f.height * 255 <= u64::MAX,
    ensures
        r.0 == block_mean(f, 0, x0 as int, x1 as int, y0 as int, y1 as int),
        r.1 == block_mean(f, 1, x0 as int, x1 as int, y0 as int, y1 as int),
        r.2 == block_mean(f, 2, x0 as int, x1 as int, y0 as int, y1 as int),
{
    let mut r: u64 = 0;
    let mut g: u64 = 0;
    let mut b: u64 = 0;
    let mut n: u64 = 0;
    let mut sy: usize = y0;
    proof {
        assert((x1 - x0) * (y1 - y0) <= f.width * f.height) by (nonlinear_arith)
            requires
                0 <= x1 - x0 <= f.width,
                0 <= y1 - y0 <= f.height,
        ;
        lemma_mul_basics(x1 - x0);
    }
    while sy < y1
        invariant
            x0 <= x1 <= f.width,
            y0 <= sy <= y1 <= f.height,
            f.width * f.height * 3 <= f.rgb@.len(),
            (x1 - x0) * (y1 - y0) * 255 <= u64::MAX,
            n == (x1 - x0) * (sy - y0),
            r == block_sum(f, 0, x0 as int, x1 as int, y0 as int, sy as int),
            g == block_sum(f, 1, x0 as int, x1 as int, y0 as int, sy as int),
            b == block_sum(f, 2, x0 as int, x1 as int, y0 as int, sy as int),
        decreases y1 - sy,
    {
        proof {
            lemma_sums(f, 0, x0 as int, x1 as int, y0 as int, sy as int);
            lemma_sums(f, 1, x0 as int, x1 as int, y0 as int, sy as int);
            lemma_sums(f, 2, x0 as int, x1 as int, y0 as int, sy as int);
            assert((x1 - x0) * (sy + 1 - y0) <= (x1 - x0) * (y1 - y0)) by (nonlinear_arith)
                requires
                    x0 <= x1,
                    sy + 1 <= y1,
            ;
            assert((x1 - x0) * (sy + 1 - y0) == (x1 - x0) * (sy - y0) + (x1 - x0)) by (nonlinear_arith);
            assert(0 <= sy * f.width) by (nonlinear_arith);
            assert(sy * f.width + f.width <= f.width * f.height) by (nonlinear_arith)
                requires
                    sy + 1 <= f.height,
            ;
            assert(f.rgb.len() <= usize::MAX);
        }
        let row: usize = sy * f.width;
        let ghost (r0, g0, b0, n0) = (r, g, b, n);
        let mut sx: usize = x0;
        while sx < x1
            invariant
                x0 <= sx <= x1 <= f.width,
                y0 <= sy < y1 <= f.height,
                row == sy * f.width,
                row + f.width <= f.width * f.height,
                f.width * f.height * 3 <= f.rgb@.len() <= usize::MAX,
                n == n0 + (sx - x0),
                (n0 + (x1 - x0)) * 255 <= u64::MAX,
                r0 <= 255 * n0,
                g0 <= 255 * n0,
                b0 <= 255 * n0,
                r == r0 + row_sum(f, 0, x0 as int, sx as int, sy as int),
                g == g0 + row_sum(f, 1, x0 as int, sx as int, sy as int),
                b == b0 + row_sum(f, 2, x0 as int, sx as int, sy as int),
            decreases x1 - sx,
        {
            proof {
                lemma_row_sums(f, 0, x0 as int, sx as int, sy as int);
                lemma_row_sums(f, 1, x0 as int, sx as int, sy as int);
                lemma_row_sums(f, 2, x0 as int, sx as int, sy as int);
            }
            let i: usize = (row + sx) * 3;
            r = r + f.rgb[i] as u64;
            g = g + f.rgb[i + 1] as u64;
            b = b + f.rgb[i + 2] as u64;
            n = n + 1;
            sx = sx + 1;
        }
        sy = sy + 1;
    }
    let n: u64 = if n > 1 { n } else { 1 };
    proof {
        lemma_mean(f, 0, x0 as int, x1 as int, y0 as int, y1 as int);
        lemma_mean(f, 1, x0 as int, x1 as int, y0 as int, y1 as int);
        lemma_mean(f, 2, x0 as int, x1 as int, y0 as int, y1 as int);
    }
    ((r / n) as u8, (g / n) as u8, (b / n) as u8)
}

/// The pixels of a side `len` long that cell `c` of `n` covers.
fn span(c: usize, len: usize, n: usize) -> (r: (usize, usize))
    requires
        c < n,
        n * len <= usize::MAX,
    ensures
        r.0 == span_start(c as int, len as int, n as int),
        r.1 == span_end(c as int, len as int, n as int),
        r.0 <= r.1 <= len,
{
    proof {
        lemma_span(c as int, len as int, n as int);
    }
    let start: usize = c * len / n;
    let next: usize = (c + 1) * len / n;
    let end: usize = if next > start {
        next
    } else {
        start.saturating_add(1)
    };
    (start, if end < len { end } else { len })
}

/// The color of cell `(cx, cy)`.
fn cell(f: &Frame, cols: usize, rows: usize, cx: usize, cy: usize) -> (c: (u8, u8, u8))
    requires
        cx < cols,
        cy < rows,
        renderable(f, cols as nat, rows as nat),
    ensures
        c == cell_color(f, cols as int, rows as int, cx as int, cy as int),
{
    let (y0, y1) = span(cy, f.height, rows);
    let (x0, x1) = span(cx, f.width, cols);
    block_color(f, x0, x1, y0, y1)
}

/// What tells two cell colors apart in a mode: the color itself, the palette
/// index, or nothing.
pub open spec fn ink(mode: ColorMode, c: Rgb) -> int {
    match mode {
        ColorMode::Truecolor => c.0 * 65536 + c.1 * 256 + c.2,
        ColorMode::Ansi256 => ansi256(c),
        ColorMode::Mono => 0,
    }
}

/// The escape that sets a color, as foreground (`38`) or background (`48`).
pub open spec fn escape(mode: ColorMode, ground: nat, c: Rgb) -> Seq<char> {
    match mode {
        ColorMode::Truecolor => seq!['\x1b', '['] + text::decimal(ground) + seq![';', '2', ';'] + text::decimal(
            c.0 as nat,
        ) + seq![';'] + text::decimal(c.1 as nat) + seq![';'] + text::decimal(c.2 as nat) + seq!['m'],
        ColorMode::Ansi256 => seq!['\x1b', '['] + text::decimal(ground) + seq![';', '5', ';'] + text::decimal(
            ansi256(c) as nat,
        ) + seq!['m'],
        ColorMode::Mono => seq![],
    }
}

/// A cell of text: its character, after the escape for its color where the line
/// starts or the color is not that of the cell before.
pub open spec fn cell_text(f: &Frame, cols: int, rows: int, mode: ColorMode, cx: int, cy: int) -> Seq<char> {
    let c = cell_color(f, cols, rows, cx, cy);
    let fresh = cx == 0 || ink(mode, c) != ink(mode, cell_color(f, cols, rows, cx - 1, cy));
    if fresh {
        escape(mode, 38, c).push(ramp_char(c))
    } else {
        seq![ramp_char(c)]
    }
}

/// The first `n` cells of a line.
pub open spec fn cells_text(f: &Frame, cols: int, rows: int, mode: ColorMode, n: int, cy: int) -> Seq<char>
    decreases n,
{
    if n <= 0 {
        seq![]
    } else {
        cells_text(f, cols, rows, mode, n - 1, cy) + cell_text(f, cols, rows, mode, n - 1, cy)
    }
}

/// What ends a line: the colors are reset, and the cursor returns to the left
/// margin of the next line.
pub open spec fn line_end(mode: ColorMode) -> Seq<char> {
    if mode == ColorMode::Mono {
        seq!['\r', '\n']
    } else {
        seq!['\x1b', '[', '0', 'm', '\r', '\n']
    }
}

/// The first `n` lines of the text for a frame.
pub open spec fn lines_text(f: &Frame, cols: int, rows: int, mode: ColorMode, n: int) -> Seq<char>
    decreases n,
{
    if n <= 0 {
        seq![]
    } else {
        lines_text(f, cols, rows, mode, n - 1) + cells_text(f, cols, rows, mode, cols, n - 1) + line_end(mode)
    }
}

/// What tells a color apart from others in a mode.
fn ink_of(mode: ColorMode, c: (u8, u8, u8)) -> (n: u32)
    ensures
        n == ink(mode, c),
{
    match mode {
        ColorMode::Truecolor => c.0 as u32 * 65536 + c.1 as u32 * 256 + c.2 as u32,
        ColorMode::Ansi256 => rgb_to_ansi256(c.0, c.1, c.2) as u32,
        ColorMode::Mono => 0,
    }
}

/// Appends the escape that sets a color.
fn push_escape(out: &mut String, mode: ColorMode, ground: u8, c: (u8, u8, u8))
    ensures
        final(out)@ == old(out)@ + escape(mode, ground as nat, c),
{
    match mode {
        ColorMode::Truecolor => {
            out.push('\x1b');
            out.push('[');
            text::push_decimal(out, ground as u128);
            out.push(';');
            out.push('2');
            out.push(';');
            text::push_decimal(out, c.0 as u128);
            out.push(';');
            text::push_decimal(out, c.1 as u128);
            out.push(';');
            text::push_decimal(out, c.2 as u128);
            out.push('m');
        },
        ColorMode::Ansi256 => {
            out.push('\x1b');
            out.push('[');
            text::push_decimal(out, ground as u128);
            out.push(';');
            out.push('5');
            out.push(';');
            text::push_decimal(out, rgb_to_ansi256(c.0, c.1, c.2) as u128);
            out.push('m');
        },
        ColorMode::Mono => {},
    }
    assert(out@ =~= old(out)@ + escape(mode, ground as nat, c));
}

/// Appends what ends a line.
fn push_line_end(out: &mut String, mode: ColorMode)
    ensures
        final(out)@ == old(out)@ + line_end(mode),
{
    if mode != ColorMode::Mono {
        out.push('\x1b');
        out.push('[');
        out.push('0');
        out.push('m');
    }
    out.push('\r');
    out.push('\n');
    assert(out@ =~= old(out)@ + line_end(mode));
}

/// The character of the ramp for a color.
fn ramp(c: (u8, u8, u8)) -> (ch: char)
    ensures
        ch == ramp_char(c),
{
    let lum: u32 = (299 * c.0 as u32 + 587 * c.1 as u32 + 114 * c.2 as u32) / 1000;
    let idx: usize = lum as usize * 9 / 255;
    RAMP[idx]
}

/// Renders `frame` into a string of `cols`x`rows` character cells.
///
/// Each output cell is the average color of the source block it covers; the
/// character is chosen from [`RAMP`] by luminance and colored with an ANSI
/// foreground escape as `mode` says. Rows are separated by `\r\n` so the cursor
/// returns to the left margin (we render in raw mode).
pub fn to_ascii(frame: &Frame, cols: usize, rows: usize, mode: ColorMode) -> (out: String)
    requires
        renderable(frame, cols as nat, rows as nat),
    ensures
        out@ == lines_text(frame, cols as int, rows as int, mode, rows as int),
{
    let mut out = String::new();
    let mut cy: usize = 0;
    while cy < rows
        invariant
            cy <= rows,
            renderable(frame, cols as nat, rows as nat),
            out@ == lines_text(frame, cols as int, rows as int, mode, cy as int),
        decreases rows - cy,
    {
        // Color escapes are only worth re-emitting when the color changes; reset
        // the tracker each row (we always start a fresh line).
        let mut last: Option<u32> = None;
        let ghost start = out@;
        let mut cx: usize = 0;
        assert(out@ =~= start + cells_text(frame, cols as int, rows as int, mode, 0, cy as int));
        while cx < cols
            invariant
                cx <= cols,
                cy < rows,
                renderable(frame, cols as nat, rows as nat),
                out@ == start + cells_text(frame, cols as int, rows as int, mode, cx as int, cy as int),
                cx == 0 ==> last is None,
                cx > 0 ==> last == Some(
                    ink(mode, cell_color(frame, cols as int, rows as int, cx - 1, cy as int)) as u32,
                ),
                cx > 0 ==> 0 <= ink(mode, cell_color(frame, cols as int, rows as int, cx - 1, cy as int))
                    <= u32::MAX,
            decreases cols - cx,
        {
            let c = cell(frame, cols, rows, cx, cy);
            let key: u32 = ink_of(mode, c);
            // Emit a color escape only when it changes from the previous cell.
            let fresh: bool = match last {
                None => true,
                Some(k) => k != key,
            };
            let ghost before = out@;
            if fresh {
                push_escape(&mut out, mode, 38, c);
                last = Some(key);
            }
            out.push(ramp(c));
            assert(out@ =~= before + cell_text(frame, cols as int, rows as int, mode, cx as int, cy as int));
            cx = cx + 1;
            assert(out@ =~= start + cells_text(frame, cols as int, rows as int, mode, cx as int, cy as int));
        }
        push_line_end(&mut out, mode);
        cy = cy + 1;
        assert(out@ =~= lines_text(frame, cols as int, rows as int, mode, cy as int));
    }
    out
}

/// The upper half of a cell, drawn over the background.
pub const HALF_BLOCK: char = '▀';

/// A cell of two pixels, one above the other: the escapes for the colors that
/// are not those of the cell before, then the half block. The foreground is the
/// upper pixel and the background the lower one.
pub open spec fn half_text(f: &Frame, cols: int, rows: int, mode: ColorMode, cx: int, cy: int) -> Seq<char> {
    let top = cell_color(f, cols, 2 * rows, cx, 2 * cy);
    let bottom = cell_color(f, cols, 2 * rows, cx, 2 * cy + 1);
    let fresh_top = cx == 0 || ink(mode, top) != ink(mode, cell_color(f, cols, 2 * rows, cx - 1, 2 * cy));
    let fresh_bottom = cx == 0 || ink(mode, bottom) != ink(
        mode,
        cell_color(f, cols, 2 * rows, cx - 1, 2 * cy + 1),
    );
    painted(mode, top, bottom, fresh_top, fresh_bottom)
}

/// A half block after the escapes for its colors, as far as they are fresh.
pub open spec fn painted(mode: ColorMode, top: Rgb, bottom: Rgb, fresh_top: bool, fresh_bottom: bool) -> Seq<char> {
    (if fresh_top {
        escape(mode, 38, top)
    } else {
        seq![]
    }) + (if fresh_bottom {
        escape(mode, 48, bottom)
    } else {
        seq![]
    }) + seq![HALF_BLOCK]
}

/// Appends a half block after the escapes for its colors, as far as they are
/// fresh.
fn push_half(
    out: &mut String,
    mode: ColorMode,
    top: (u8, u8, u8),
    bottom: (u8, u8, u8),
    fresh_top: bool,
    fresh_bottom: bool,
)
    ensures
        final(out)@ == old(out)@ + painted(mode, top, bottom, fresh_top, fresh_bottom),
{
    if fresh_top {
        push_escape(out, mode, 38, top);
    }
    if fresh_bottom {
        push_escape(out, mode, 48, bottom);
    }
    out.push(HALF_BLOCK);
    assert(out@ =~= old(out)@ + painted(mode, top, bottom, fresh_top, fresh_bottom));
}

/// The first `n` cells of a line of half blocks.
pub open spec fn halves_text(f: &Frame, cols: int, rows: int, mode: ColorMode, n: int, cy: int) -> Seq<char>
    decreases n,
{
    if n <= 0 {
        seq![]
    } else {
        halves_text(f, cols, rows, mode, n - 1, cy) + half_text(f, cols, rows, mode, n - 1, cy)
    }
}

/// The first `n` lines of half blocks for a frame.
pub open spec fn half_lines_text(f: &Frame, cols: int, rows: int, mode: ColorMode, n: int) -> Seq<char>
    decreases n,
{
    if n <= 0 {
        seq![]
    } else {
        half_lines_text(f, cols, rows, mode, n - 1) + halves_text(f, cols, rows, mode, cols, n - 1) + line_end(mode)
    }
}

/// Renders `frame` into a string of `cols`x`rows` half blocks: each cell shows
/// two pixels, one above the other, which doubles the vertical resolution.
/// Without color a half block shows nothing, so `Mono` falls back to the
/// characters of [`to_ascii`].
pub fn to_half_blocks(frame: &Frame, cols: usize, rows: usize, mode: ColorMode) -> (out: String)
    requires
        renderable(frame, cols as nat, 2 * rows as nat),
    ensures
        mode == ColorMode::Mono ==> out@ == lines_text(frame, cols as int, rows as int, mode, rows as int),
        mode != ColorMode::Mono ==> out@ == half_lines_text(frame, cols as int, rows as int, mode, rows as int),
{
    proof {
        let (c, r, h) = (cols as int, rows as int, frame.height as int);
        assert(2 * r * h == r * h + r * h && 0 <= r * h) by (nonlinear_arith)
            requires
                0 <= r,
                0 <= h,
        ;
        assert(c * (2 * r) == 2 * (c * r) && 0 <= c * r) by (nonlinear_arith)
            requires
                0 <= c,
                0 <= r,
        ;
        if c > 0 {
            assert(2 * r <= c * (2 * r)) by (nonlinear_arith)
                requires
                    0 < c,
                    0 <= r,
            ;
        }
    }
    if mode == ColorMode::Mono {
        return to_ascii(frame, cols, rows, mode);
    }
    let mut out = String::new();
    let mut cy: usize = 0;
    while cy < rows
        invariant
            cy <= rows,
            mode != ColorMode::Mono,
            cols > 0 ==> 2 * rows <= usize::MAX,
            renderable(frame, cols as nat, 2 * rows as nat),
            out@ == half_lines_text(frame, cols as int, rows as int, mode, cy as int),
        decreases rows - cy,
    {
        let mut last: Option<(u32, u32)> = None;
        let ghost start = out@;
        let mut cx: usize = 0;
        assert(out@ =~= start + halves_text(frame, cols as int, rows as int, mode, 0, cy as int));
        while cx < cols
            invariant
                cx <= cols,
                cy < rows,
                cols > 0 ==> 2 * rows <= usize::MAX,
                renderable(frame, cols as nat, 2 * rows as nat),
                out@ == start + halves_text(frame, cols as int, rows as int, mode, cx as int, cy as int),
                cx == 0 ==> last is None,
                cx > 0 ==> (last matches Some(k) && k.0 == ink(
                    mode,
                    cell_color(frame, cols as int, 2 * rows, cx - 1, 2 * cy),
                ) && k.1 == ink(mode, cell_color(frame, cols as int, 2 * rows, cx - 1, 2 * cy + 1))),
            decreases cols - cx,
        {
            let top = cell(frame, cols, 2 * rows, cx, 2 * cy);
            let bottom = cell(frame, cols, 2 * rows, cx, 2 * cy + 1);
            let key: (u32, u32) = (ink_of(mode, top), ink_of(mode, bottom));
            let (fresh_top, fresh_bottom): (bool, bool) = match last {
                None => (true, true),
                Some(k) => (k.0 != key.0, k.1 != key.1),
            };
            push_half(&mut out, mode, top, bottom, fresh_top, fresh_bottom);
            last = Some(key);
            cx = cx + 1;
            assert(out@ =~= start + halves_text(frame, cols as int, rows as int, mode, cx as int, cy as int));
        }
        push_line_end(&mut out, mode);
        cy = cy + 1;
        assert(out@ =~= half_lines_text(frame, cols as int, rows as int, mode, cy as int));
    }
    out
}

} // verus!
