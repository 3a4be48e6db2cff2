//! What the color of a cell is: the mean of the pixels that the cell covers.

use crate::render;
use crate::video::Frame;
use crate::video::Rgb;
use vstd::arithmetic::div_mod::*;
use vstd::arithmetic::mul::*;
use vstd::prelude::*;

verus! {

/// Whether cell `c` of `n` cells along `len` pixels covers pixel `x`: the cell
/// starts in the pixel, or the pixel ends in the cell. Pixels and cells are laid
/// out from the same end, and lengths are multiplied out.
pub open spec fn covers(c: int, len: int, n: int, x: int) -> bool {
    ||| x * n <= c * len < (x + 1) * n
    ||| c * len < (x + 1) * n <= (c + 1) * len
}

/// The pixels of a cell are those that it covers, and there is at least one.
pub proof fn cell_holds_what_it_covers(c: int, len: int, n: int, x: int)
    requires
        0 <= c < n,
        0 <= x < len,
    ensures
        render::span_start(c, len, n) <= x < render::span_end(c, len, n) <==> covers(c, len, n, x),
        0 <= render::span_start(c, len, n) < render::span_end(c, len, n) <= len,
{
    render::lemma_span(c, len, n);
    let a = c * len;
    let b = (c + 1) * len;
    let (s, e) = (a / n, b / n);
    lemma_fundamental_div_mod(a, n);
    lemma_fundamental_div_mod(b, n);
    lemma_mod_bound(a, n);
    lemma_mod_bound(b, n);
    assert(a <= b) by (nonlinear_arith)
        requires
            a == c * len,
            b == (c + 1) * len,
            len >= 0,
    ;
    lemma_place(a, n, s, x);
    lemma_place(b, n, e, x);
    assert(x + 1 <= e <==> (x + 1) * n <= b);
    assert(x >= s <==> a < (x + 1) * n);
    assert(x == s <==> x * n <= a && a < (x + 1) * n) by {
        lemma_place(a, n, s, x - 1);
    }
    assert(s < len) by {
        if s >= len {
            assert(n * s >= n * len) by (nonlinear_arith)
                requires
                    s >= len,
                    n > 0,
            ;
            assert(c * len < n * len) by (nonlinear_arith)
                requires
                    c < n,
                    len > 0,
            ;
        }
    }
}

/// Where `q` is the whole number of `n` in `a`: which places are before it.
proof fn lemma_place(a: int, n: int, q: int, x: int)
    requires
        n > 0,
        a == n * q + a % n,
        0 <= a % n < n,
    ensures
        x >= q <==> a < (x + 1) * n,
        x + 1 <= q <==> (x + 1) * n <= a,
{
    let r = a % n;
    if x >= q {
        assert((x + 1) * n >= n * q + n) by (nonlinear_arith)
            requires
                x >= q,
                n > 0,
        ;
    } else {
        assert((x + 1) * n <= n * q) by (nonlinear_arith)
            requires
                x + 1 <= q,
                n > 0,
        ;
    }
}

/// Red, green or blue of a color, for `k` from zero to two.
pub open spec fn channel(c: Rgb, k: int) -> int {
    if k == 0 {
        c.0 as int
    } else if k == 1 {
        c.1 as int
    } else {
        c.2 as int
    }
}

/// How many of the first `n` pixels along `len` pixels cell `c` of `cells` covers.
pub open spec fn covered_count(c: int, len: int, cells: int, n: int) -> int
    decreases n,
{
    if n <= 0 {
        0
    } else {
        covered_count(c, len, cells, n - 1) + (if covers(c, len, cells, n - 1) {
            1int
        } else {
            0
        })
    }
}

/// The sum of a channel over the first `n` pixels of row `y` that column `cx` of
/// `cols` covers.
pub open spec fn row_total(f: &Frame, k: int, cols: int, cx: int, y: int, n: int) -> int
    decreases n,
{
    if n <= 0 {
        0
    } else {
        row_total(f, k, cols, cx, y, n - 1) + (if covers(cx, f.width as int, cols, n - 1) {
            channel(f.pixel(n - 1, y), k)
        } else {
            0
        })
    }
}

/// The sum of a channel over the pixels of the first `n` rows that cell `(cx, cy)`
/// covers.
pub open spec fn cell_total(f: &Frame, k: int, cols: int, rows: int, cx: int, cy: int, n: int) -> int
    decreases n,
{
    if n <= 0 {
        0
    } else {
        cell_total(f, k, cols, rows, cx, cy, n - 1) + (if covers(cy, f.height as int, rows, n - 1) {
            row_total(f, k, cols, cx, n - 1, f.width as int)
        } else {
            0
        })
    }
}

/// The color of a cell is the mean of all pixels that the cell covers, channel by
/// channel, without the fraction.
pub proof fn cell_color_is_the_mean(f: &Frame, cols: int, rows: int, cx: int, cy: int, k: int)
    requires
        f.width > 0,
        f.height > 0,
        0 <= cx < cols,
        0 <= cy < rows,
        0 <= k < 3,
    ensures
        ({
            let (w, h) = (f.width as int, f.height as int);
            let mean = channel(render::cell_color(f, cols, rows, cx, cy), k);
            let total = cell_total(f, k, cols, rows, cx, cy, h);
            let count = covered_count(cx, w, cols, w) * covered_count(cy, h, rows, h);
            count > 0 && mean * count <= total < (mean + 1) * count
        }),
{
    let (w, h) = (f.width as int, f.height as int);
    let (x0, x1) = (render::span_start(cx, w, cols), render::span_end(cx, w, cols));
    let (y0, y1) = (render::span_start(cy, h, rows), render::span_end(cy, h, rows));
    cell_holds_what_it_covers(cx, w, cols, 0);
    cell_holds_what_it_covers(cy, h, rows, 0);
    lemma_count(cx, w, cols, w);
    lemma_count(cy, h, rows, h);
    lemma_cell_total(f, k, cols, rows, cx, cy, h);
    let s = render::block_sum(f, k, x0, x1, y0, y1) as int;
    let n = (x1 - x0) * (y1 - y0);
    lemma_mul_strictly_positive(x1 - x0, y1 - y0);
    render::lemma_mean(f, k, x0, x1, y0, y1);
    lemma_fundamental_div_mod(s, n);
    lemma_mod_bound(s, n);
    let m = s / n;
    assert(m * n == n * m && (m + 1) * n == n * m + n) by (nonlinear_arith);
}

proof fn lemma_count(c: int, len: int, cells: int, n: int)
    requires
        0 <= c < cells,
        0 <= n <= len,
        0 < len,
    ensures
        ({
            let (a, b) = (render::span_start(c, len, cells), render::span_end(c, len, cells));
            covered_count(c, len, cells, n) == (if n <= a {
                0
            } else if n <= b {
                n - a
            } else {
                b - a
            })
        }),
    decreases n,
{
    cell_holds_what_it_covers(c, len, cells, 0);
    if n > 0 {
        lemma_count(c, len, cells, n - 1);
        cell_holds_what_it_covers(c, len, cells, n - 1);
    }
}

proof fn lemma_row_total(f: &Frame, k: int, cols: int, cx: int, y: int, n: int)
    requires
        0 <= cx < cols,
        0 <= n <= f.width,
        0 < f.width,
        0 <= k < 3,
    ensures
        ({
            let (a, b) = (
                render::span_start(cx, f.width as int, cols),
                render::span_end(cx, f.width as int, cols),
            );
            row_total(f, k, cols, cx, y, n) == (if n <= b {
                render::row_sum(f, k, a, n, y)
            } else {
                render::row_sum(f, k, a, b, y)
            })
        }),
    decreases n,
{
    cell_holds_what_it_covers(cx, f.width as int, cols, 0);
    if n > 0 {
        lemma_row_total(f, k, cols, cx, y, n - 1);
        cell_holds_what_it_covers(cx, f.width as int, cols, n - 1);
        assert(channel(f.pixel(n - 1, y), k) == render::component(f, k, n - 1, y));
    }
}

proof fn lemma_cell_total(f: &Frame, k: int, cols: int, rows: int, cx: int, cy: int, n: int)
    requires
        0 <= cx < cols,
        0 <= cy < rows,
        0 <= n <= f.height,
        0 < f.width,
        0 < f.height,
        0 <= k < 3,
    ensures
        ({
            let (x0, x1) = (
                render::span_start(cx, f.width as int, cols),
                render::span_end(cx, f.width as int, cols),
            );
            let (a, b) = (
                render::span_start(cy, f.height as int, rows),
                render::span_end(cy, f.height as int, rows),
            );
            cell_total(f, k, cols, rows, cx, cy, n) == (if n <= b {
                render::block_sum(f, k, x0, x1, a, n)
            } else {
                render::block_sum(f, k, x0, x1, a, b)
            })
        }),
    decreases n,
{
    cell_holds_what_it_covers(cx, f.width as int, cols, 0);
    cell_holds_what_it_covers(cy, f.height as int, rows, 0);
    if n > 0 {
        lemma_cell_total(f, k, cols, rows, cx, cy, n - 1);
        cell_holds_what_it_covers(cy, f.height as int, rows, n - 1);
        lemma_row_total(f, k, cols, cx, n - 1, f.width as int);
    }
}

/// A grid with a cell for each pixel shows every pixel in its place.
pub proof fn pixels_are_cells(f: &Frame, x: int, y: int)
    requires
        f.has(x, y),
    ensures
        render::cell_color(f, f.width as int, f.height as int, x, y) == f.pixel(x, y),
{
    let (w, h) = (f.width as int, f.height as int);
    assert(x * w / w == x && (x + 1) * w / w == x + 1) by {
        lemma_div_by_multiple(x, w);
        lemma_div_by_multiple(x + 1, w);
    }
    assert(y * h / h == y && (y + 1) * h / h == y + 1) by {
        lemma_div_by_multiple(y, h);
        lemma_div_by_multiple(y + 1, h);
    }
    reveal_with_fuel(render::row_sum, 2);
    reveal_with_fuel(render::block_sum, 2);
    assert(render::span_end(x, w, w) == x + 1 && render::span_end(y, h, h) == y + 1);
    assert((x + 1 - x) * (y + 1 - y) == 1) by (nonlinear_arith);
    assert forall|k: int| 0 <= k < 3 implies #[trigger] render::block_mean(f, k, x, x + 1, y, y + 1)
        == render::component(f, k, x, y) by {
        assert(render::row_sum(f, k, x, x, y) == 0);
        assert(render::row_sum(f, k, x, x + 1, y) == render::component(f, k, x, y));
        assert(render::block_sum(f, k, x, x + 1, y, y) == 0);
        assert(render::block_sum(f, k, x, x + 1, y, y + 1) == render::component(f, k, x, y));
        lemma_div_basics(render::component(f, k, x, y) as int);
        assert(render::positive(((x + 1 - x) * (y + 1 - y)) as nat) == 1);
    }
    assert(render::block_mean(f, 0, x, x + 1, y, y + 1) == render::component(f, 0, x, y));
    assert(render::block_mean(f, 1, x, x + 1, y, y + 1) == render::component(f, 1, x, y));
    assert(render::block_mean(f, 2, x, x + 1, y, y + 1) == render::component(f, 2, x, y));
}

/// The luminance of a color is the weighted mean of its channels, without the
/// fraction: green counts most and blue least.
pub proof fn luminance_weighs_the_channels(c: Rgb)
    ensures
        1000 * render::luminance(c) <= 299 * c.0 + 587 * c.1 + 114 * c.2 < 1000 * (render::luminance(c) + 1),
        c.0 == c.1 && c.1 == c.2 ==> render::luminance(c) == c.0,
{
}

/// The characters divide the luminances evenly, from a blank for black to `@` for
/// white.
pub proof fn ramp_divides_the_luminances(c: Rgb, i: int)
    requires
        0 <= i < 10,
        255 * i <= 9 * render::luminance(c) < 255 * (i + 1),
    ensures
        render::ramp_char(c) == seq![' ', '.', ':', '-', '=', '+', '*', '#', '%', '@'][i],
{
}

/// The palette that indices speak of: a cube of six levels in each direction, zero
/// and then steps of 40 from 95 on, and a ramp of grays in steps of 10 from 8 on.
pub proof fn palette_is_that_of_xterm(r: int, g: int, b: int, i: int)
    requires
        0 <= r < 6,
        0 <= g < 6,
        0 <= b < 6,
        0 <= i < 24,
    ensures
        ({
            let level = |n: int| if n == 0 { 0int } else { 55 + 40 * n };
            let c = render::palette(16 + 36 * r + 6 * g + b);
            let v = render::palette(232 + i);
            &&& c.0 == level(r) && c.1 == level(g) && c.2 == level(b)
            &&& v.0 == 8 + 10 * i && v.1 == 8 + 10 * i && v.2 == 8 + 10 * i
        }),
{
    let j = 36 * r + 6 * g + b;
    assert(j / 36 == r && j / 6 % 6 == g && j % 6 == b) by {
        assert(j / 6 == 6 * r + g);
    }
}

/// Frames can be rendered on grids of ordinary sizes.
pub proof fn ordinary_frames_can_be_rendered(f: &Frame, cols: nat, rows: nat)
    requires
        f.wf(),
        cols <= 1000,
        rows <= 1000,
        f.width <= 16384,
        f.height <= 16384,
    ensures
        render::renderable(f, cols, rows),
{
    let (w, h) = (f.width as int, f.height as int);
    assert(0 <= cols * rows <= 1_000_000) by (nonlinear_arith)
        requires
            cols <= 1000,
            rows <= 1000,
    ;
    assert(0 <= rows * h <= 16_384_000 && 0 <= cols * w <= 16_384_000) by (nonlinear_arith)
        requires
            0 <= cols <= 1000,
            0 <= rows <= 1000,
            0 <= w <= 16384,
            0 <= h <= 16384,
    ;
    assert(0 <= w * h <= 16384 * 16384) by (nonlinear_arith)
        requires
            0 <= w <= 16384,
            0 <= h <= 16384,
    ;
}

/// A picture or a terminal without an area gets a single cell.
pub proof fn nothing_gets_one_cell(img_w: nat, img_h: nat, term_cols: nat, term_rows: nat)
    requires
        img_w == 0 || img_h == 0 || term_cols == 0 || term_rows == 0,
    ensures
        render::grid(img_w, img_h, term_cols, term_rows) == (1nat, 1nat),
{
}

} // verus!
