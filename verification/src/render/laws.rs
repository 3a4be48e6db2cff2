//! What holds of every rendered picture.

use crate::render;
use crate::render::ColorMode;
use crate::text;
use crate::video;
use crate::video::Frame;
use crate::video::Rgb;
use vstd::arithmetic::div_mod::*;
use vstd::arithmetic::mul::*;
use vstd::prelude::*;

verus! {

/// Where there are no more cells than pixels, the cells tile the side: the first
/// starts at its start, each starts where the one before ends, and the last ends
/// at its end.
pub proof fn cells_tile(len: nat, n: nat)
    requires
        0 < n <= len,
    ensures
        render::span_start(0, len as int, n as int) == 0,
        forall|c: int|
            0 <= c < n - 1 ==> #[trigger] render::span_end(c, len as int, n as int) == render::span_start(
                c + 1,
                len as int,
                n as int,
            ),
        render::span_end(n - 1, len as int, n as int) == len,
{
    lemma_div_basics(n as int);
    assert(0 * len == 0) by (nonlinear_arith);
    lemma_div_multiples_vanish(len as int, n as int);
    lemma_mul_is_commutative(n as int, len as int);
    render::lemma_span(n - 1, len as int, n as int);
    assert(n - 1 + 1 == n);
    assert forall|c: int| 0 <= c < n - 1 implies #[trigger] render::span_end(c, len as int, n as int)
        == render::span_start(c + 1, len as int, n as int) by {
        lemma_step(c, len as int, n as int);
        render::lemma_span(c, len as int, n as int);
    }
}

/// Neighboring cells start at least one pixel apart.
proof fn lemma_step(c: int, len: int, n: int)
    requires
        0 <= c,
        0 < n <= len,
    ensures
        c * len / n + 1 <= (c + 1) * len / n,
{
    lemma_mul_is_distributive_add_other_way(len, c, 1);
    lemma_div_is_ordered(c * len + n, (c + 1) * len, n);
    lemma_hoist_over_denominator(c * len, 1, n as nat);
    assert(1 * n == n);
}

/// Where there are at least as many cells as pixels, each cell shows one pixel.
pub proof fn cells_magnify(c: int, len: nat, n: nat)
    requires
        0 <= c < n,
        0 < len <= n,
    ensures
        render::span_end(c, len as int, n as int) == render::span_start(c, len as int, n as int) + 1,
{
    let (len, n) = (len as int, n as int);
    render::lemma_span(c, len, n);
    lemma_mul_is_distributive_add_other_way(len, c, 1);
    lemma_div_is_ordered((c + 1) * len, c * len + n, n);
    lemma_hoist_over_denominator(c * len, 1, n as nat);
    assert(1 * n == n);
}

/// A frame of one color is rendered in that color, in every cell.
pub proof fn plain_frames_stay_plain(f: &Frame, c: Rgb, cols: int, rows: int, cx: int, cy: int)
    requires
        f.width > 0,
        f.height > 0,
        forall|x: int, y: int| f.has(x, y) ==> #[trigger] f.pixel(x, y) == c,
        0 <= cx < cols,
        0 <= cy < rows,
    ensures
        render::cell_color(f, cols, rows, cx, cy) == c,
{
    let x0 = render::span_start(cx, f.width as int, cols);
    let x1 = render::span_end(cx, f.width as int, cols);
    let y0 = render::span_start(cy, f.height as int, rows);
    let y1 = render::span_end(cy, f.height as int, rows);
    render::lemma_span(cx, f.width as int, cols);
    render::lemma_span(cy, f.height as int, rows);
    lemma_plain(f, c, 0, c.0 as int, x0, x1, y0, y1);
    lemma_plain(f, c, 1, c.1 as int, x0, x1, y0, y1);
    lemma_plain(f, c, 2, c.2 as int, x0, x1, y0, y1);
}

/// The mean over a block of one color.
proof fn lemma_plain(f: &Frame, c: Rgb, k: int, v: int, x0: int, x1: int, y0: int, y1: int)
    requires
        0 <= x0 < x1 <= f.width,
        0 <= y0 < y1 <= f.height,
        forall|x: int, y: int| f.has(x, y) ==> #[trigger] f.pixel(x, y) == c,
        0 <= k < 3,
        v == (if k == 0 {
            c.0
        } else if k == 1 {
            c.1
        } else {
            c.2
        }),
    ensures
        render::block_mean(f, k, x0, x1, y0, y1) == v,
{
    lemma_plain_block(f, c, k, v, x0, x1, y0, y1);
    let n = (x1 - x0) * (y1 - y0);
    lemma_mul_strictly_positive(x1 - x0, y1 - y0);
    lemma_div_multiples_vanish(v, n);
    lemma_mul_is_commutative(n, v);
}

proof fn lemma_plain_block(f: &Frame, c: Rgb, k: int, v: int, x0: int, x1: int, y0: int, y1: int)
    requires
        0 <= x0 < x1 <= f.width,
        0 <= y0 <= y1 <= f.height,
        forall|x: int, y: int| f.has(x, y) ==> #[trigger] f.pixel(x, y) == c,
        0 <= k < 3,
        v == (if k == 0 {
            c.0
        } else if k == 1 {
            c.1
        } else {
            c.2
        }),
    ensures
        render::block_sum(f, k, x0, x1, y0, y1) == v * ((x1 - x0) * (y1 - y0)),
    decreases y1 - y0,
{
    if y0 < y1 {
        lemma_plain_block(f, c, k, v, x0, x1, y0, y1 - 1);
        lemma_plain_row(f, c, k, v, x0, x1, y1 - 1);
        assert(v * ((x1 - x0) * (y1 - 1 - y0)) + v * (x1 - x0) == v * ((x1 - x0) * (y1 - y0))) by (nonlinear_arith);
    } else {
        assert(v * ((x1 - x0) * (y1 - y0)) == 0) by (nonlinear_arith)
            requires
                y1 == y0,
        ;
    }
}

proof fn lemma_plain_row(f: &Frame, c: Rgb, k: int, v: int, x0: int, x1: int, y: int)
    requires
        0 <= x0 <= x1 <= f.width,
        0 <= y < f.height,
        forall|x: int, y: int| f.has(x, y) ==> #[trigger] f.pixel(x, y) == c,
        0 <= k < 3,
        v == (if k == 0 {
            c.0
        } else if k == 1 {
            c.1
        } else {
            c.2
        }),
    ensures
        render::row_sum(f, k, x0, x1, y) == v * (x1 - x0),
    decreases x1 - x0,
{
    if x0 < x1 {
        lemma_plain_row(f, c, k, v, x0, x1 - 1, y);
        assert(f.has(x1 - 1, y));
        assert(f.pixel(x1 - 1, y) == c);
        assert(v * (x1 - 1 - x0) + v == v * (x1 - x0)) by (nonlinear_arith);
    } else {
        lemma_mul_basics(v);
    }
}

/// A brighter color never gets an earlier character of the ramp.
pub proof fn ramp_follows_luminance(a: Rgb, b: Rgb)
    requires
        render::luminance(a) <= render::luminance(b),
    ensures
        0 <= render::luminance(a) * 9 / 255 <= render::luminance(b) * 9 / 255 < 10,
        render::ramp_char(a) == render::RAMP[render::luminance(a) * 9 / 255],
        render::ramp_char(b) == render::RAMP[render::luminance(b) * 9 / 255],
{
}

/// The level that stands for a component value is the nearest one.
pub proof fn level_is_nearest(v: u8, i: int)
    requires
        0 <= i < 6,
    ensures
        render::gap(v as int, render::LEVELS[render::level_index(v)] as int) <= render::gap(
            v as int,
            render::LEVELS[i] as int,
        ),
{
}

/// No color of the cube is nearer to `c` than the color that `c` is rendered
/// with.
pub proof fn no_cube_color_is_nearer(c: Rgb, i: int)
    requires
        16 <= i < 232,
    ensures
        render::distance(c, render::palette(render::ansi256(c))) <= render::distance(c, render::palette(i)),
{
    reveal(render::ansi256);
    render::lemma_cube_palette(c);
    let j = i - 16;
    let (r, g, b) = (j / 36, j / 6 % 6, j % 6);
    level_is_nearest(c.0, r);
    level_is_nearest(c.1, g);
    level_is_nearest(c.2, b);
    lemma_square(c.0, render::LEVELS[render::level_index(c.0)], render::LEVELS[r]);
    lemma_square(c.1, render::LEVELS[render::level_index(c.1)], render::LEVELS[g]);
    lemma_square(c.2, render::LEVELS[render::level_index(c.2)], render::LEVELS[b]);
}

/// A smaller gap has a smaller square.
proof fn lemma_square(v: u8, a: u8, b: u8)
    requires
        render::gap(v as int, a as int) <= render::gap(v as int, b as int),
    ensures
        (v - a) * (v - a) <= (v - b) * (v - b),
{
    let x = render::gap(v as int, a as int);
    let y = render::gap(v as int, b as int);
    assert(x * x <= y * y) by (nonlinear_arith)
        requires
            0 <= x <= y,
    ;
    assert((v - a) * (v - a) == x * x) by (nonlinear_arith)
        requires
            x == v - a || x == a - v,
    ;
    assert((v - b) * (v - b) == y * y) by (nonlinear_arith)
        requires
            y == v - b || y == b - v,
    ;
}

/// A color of the palette is rendered with its own index, so rendering a rendered
/// color changes nothing.
pub proof fn palette_colors_stay(i: int)
    requires
        16 <= i < 256,
    ensures
        render::ansi256(render::palette(i)) == i,
{
    let c = render::palette(i);
    let n = render::ansi256(c);
    reveal(render::ansi256);
    render::lemma_cube_palette(c);
    rendered_color_is_nearest(c, i);
    lemma_zero(c, c);
    lemma_zero(c, render::palette(n));
    lemma_distinct(i, n);
}

/// Rendering the color that `c` is rendered with gives the same index.
pub proof fn rendering_is_idempotent(c: Rgb)
    ensures
        render::ansi256(render::palette(render::ansi256(c))) == render::ansi256(c),
{
    reveal(render::ansi256);
    render::lemma_cube_palette(c);
    palette_colors_stay(render::ansi256(c));
}

/// The place of a level among the six.
proof fn lemma_level(a: int, b: int)
    requires
        0 <= a < 6,
        0 <= b < 6,
        render::LEVELS[a] == render::LEVELS[b],
    ensures
        a == b,
{
}

/// No color of the palette has two indices.
proof fn lemma_distinct(i: int, k: int)
    requires
        16 <= i < 256,
        16 <= k < 256,
        render::palette(i) == render::palette(k),
    ensures
        i == k,
{
    if i < 232 && k < 232 {
        let (p, q) = (i - 16, k - 16);
        lemma_level(p / 36, q / 36);
        lemma_level(p / 6 % 6, q / 6 % 6);
        lemma_level(p % 6, q % 6);
        assert(p == 36 * (p / 36) + 6 * (p / 6 % 6) + p % 6);
        assert(q == 36 * (q / 36) + 6 * (q / 6 % 6) + q % 6);
    }
}

/// Two colors are at distance zero where they are the same.
proof fn lemma_zero(a: Rgb, b: Rgb)
    ensures
        render::distance(a, b) >= 0,
        render::distance(a, b) == 0 <==> a == b,
{
    let (x, y, z) = (a.0 - b.0, a.1 - b.1, a.2 - b.2);
    assert(x * x >= 0 && (x * x == 0 <==> x == 0)) by (nonlinear_arith);
    assert(y * y >= 0 && (y * y == 0 <==> y == 0)) by (nonlinear_arith);
    assert(z * z >= 0 && (z * z == 0 <==> z == 0)) by (nonlinear_arith);
}

/// The color that `c` is rendered with is the nearest of the whole palette.
pub proof fn rendered_color_is_nearest(c: Rgb, i: int)
    requires
        16 <= i < 256,
    ensures
        render::distance(c, render::palette(render::ansi256(c))) <= render::distance(c, render::palette(i)),
{
    reveal(render::ansi256);
    if i < 232 {
        no_cube_color_is_nearer(c, i);
    } else {
        let k = render::gray_below(c);
        let v = 8 + 10 * (i - 232);
        let w = 8 + 10 * (k - 232);
        let sum = c.0 + c.1 + c.2;
        lemma_gray(c, v);
        lemma_gray(c, w);
        if i <= k {
            lemma_parabola(sum, v, w);
        } else {
            lemma_gray(c, w + 10);
            lemma_parabola(sum, v, w + 10);
        }
    }
}

/// The distance of a color to a gray is a parabola in the gray.
proof fn lemma_gray(c: Rgb, v: int)
    requires
        0 <= v <= 255,
    ensures
        ({
            let q = c.0 * c.0 + c.1 * c.1 + c.2 * c.2;
            render::distance(c, (v as u8, v as u8, v as u8)) == q - 2 * (c.0 + c.1 + c.2) * v + 3 * (v * v)
        }),
{
    let (r, g, b) = (c.0 as int, c.1 as int, c.2 as int);
    assert((r - v) * (r - v) + (g - v) * (g - v) + (b - v) * (b - v) == r * r + g * g + b * b - 2 * (r + g + b) * v
        + 3 * (v * v)) by (nonlinear_arith);
}

/// Of two grays on one side of the mean, the one nearer to it is nearer.
proof fn lemma_parabola(sum: int, far: int, near: int)
    requires
        far <= near && 3 * near <= sum || near <= far && sum <= 3 * near || far == near,
    ensures
        3 * (near * near) - 2 * sum * near <= 3 * (far * far) - 2 * sum * far,
{
    assert(3 * (far * far) - 2 * sum * far - (3 * (near * near) - 2 * sum * near) == (far - near) * (3 * far + 3 * near
        - 2 * sum)) by (nonlinear_arith);
    assert((far - near) * (3 * far + 3 * near - 2 * sum) >= 0) by (nonlinear_arith)
        requires
            (far - near <= 0 && 3 * far + 3 * near - 2 * sum <= 0) || (far - near >= 0 && 3 * far + 3 * near - 2 * sum
                >= 0) || far == near,
    ;
}

/// What a terminal shows of `s`: whether it ends inside an escape, and the
/// characters outside of escapes. An escape starts with ESC and ends with `m`.
pub open spec fn shown(s: Seq<char>) -> (bool, Seq<char>)
    decreases s.len(),
{
    if s.len() == 0 {
        (false, seq![])
    } else {
        let (escaped, before) = shown(s.drop_last());
        if escaped {
            (s.last() != 'm', before)
        } else if s.last() == '\x1b' {
            (true, before)
        } else {
            (false, before.push(s.last()))
        }
    }
}

/// Text after a finished text is shown after it.
proof fn lemma_shown_concat(a: Seq<char>, b: Seq<char>)
    requires
        !shown(a).0,
    ensures
        shown(a + b).0 == shown(b).0,
        shown(a + b).1 == shown(a).1 + shown(b).1,
    decreases b.len(),
{
    if b.len() == 0 {
        assert(a + b =~= a);
        assert(shown(a).1 + shown(b).1 =~= shown(a).1);
    } else {
        lemma_shown_concat(a, b.drop_last());
        assert((a + b).drop_last() =~= a + b.drop_last());
        assert(shown(a + b).1 =~= shown(a).1 + shown(b).1);
    }
}

/// Nothing is shown between ESC and the first `m`.
proof fn lemma_shown_open(s: Seq<char>)
    requires
        s.len() > 0,
        s[0] == '\x1b',
        forall|i: int| 0 < i < s.len() ==> s[i] != 'm',
    ensures
        shown(s) == (true, Seq::<char>::empty()),
    decreases s.len(),
{
    if s.len() > 1 {
        lemma_shown_open(s.drop_last());
    } else {
        reveal_with_fuel(shown, 2);
    }
}

/// Nothing is shown of an escape.
proof fn lemma_shown_escape(mode: ColorMode, ground: nat, c: Rgb)
    ensures
        shown(render::escape(mode, ground, c)) == (false, Seq::<char>::empty()),
{
    let s = render::escape(mode, ground, c);
    text::lemma_digits(ground);
    text::lemma_digits(c.0 as nat);
    text::lemma_digits(c.1 as nat);
    text::lemma_digits(c.2 as nat);
    text::lemma_digits(render::ansi256(c) as nat);
    if mode != ColorMode::Mono {
        let o = s.drop_last();
        assert(s.last() == 'm');
        assert(o[0] == '\x1b');
        assert forall|i: int| 0 < i < o.len() implies o[i] != 'm' by {
            assert(o[i] == s[i]);
        }
        lemma_shown_open(o);
    }
}

/// One character that is not ESC is shown.
proof fn lemma_shown_char(c: char)
    requires
        c != '\x1b',
    ensures
        shown(seq![c]) == (false, seq![c]),
{
    reveal_with_fuel(shown, 2);
    assert(shown(seq![c]).1 =~= seq![c]);
}

/// Color changes nothing but color: the characters that a terminal shows of a
/// colored picture are those of the picture without color.
pub proof fn color_leaves_the_text(f: &Frame, cols: int, rows: int, mode: ColorMode, n: int)
    requires
        0 <= cols,
        0 <= n,
    ensures
        shown(render::lines_text(f, cols, rows, mode, n)) == (
            false,
            render::lines_text(f, cols, rows, ColorMode::Mono, n),
        ),
    decreases n,
{
    if n > 0 {
        let before = render::lines_text(f, cols, rows, mode, n - 1);
        let cells = render::cells_text(f, cols, rows, mode, cols, n - 1);
        let end = render::line_end(mode);
        color_leaves_the_text(f, cols, rows, mode, n - 1);
        lemma_shown_cells(f, cols, rows, mode, cols, n - 1);
        lemma_shown_end(mode);
        lemma_shown_concat(before, cells);
        lemma_shown_concat(before + cells, end);
    }
}

proof fn lemma_shown_cells(f: &Frame, cols: int, rows: int, mode: ColorMode, n: int, cy: int)
    requires
        0 <= n,
    ensures
        shown(render::cells_text(f, cols, rows, mode, n, cy)) == (
            false,
            render::cells_text(f, cols, rows, ColorMode::Mono, n, cy),
        ),
    decreases n,
{
    if n > 0 {
        let c = render::cell_color(f, cols, rows, n - 1, cy);
        let escape = render::escape(mode, 38, c);
        let plain = seq![render::ramp_char(c)];
        lemma_shown_cells(f, cols, rows, mode, n - 1, cy);
        lemma_shown_escape(mode, 38, c);
        lemma_ramp_is_plain(c);
        lemma_shown_char(render::ramp_char(c));
        lemma_shown_concat(escape, plain);
        assert(escape + plain =~= escape.push(render::ramp_char(c)));
        assert(Seq::<char>::empty() + plain =~= plain);
        assert(render::escape(ColorMode::Mono, 38, c).push(render::ramp_char(c)) =~= plain);
        lemma_shown_concat(
            render::cells_text(f, cols, rows, mode, n - 1, cy),
            render::cell_text(f, cols, rows, mode, n - 1, cy),
        );
    }
}

/// No character of the ramp is a control character.
proof fn lemma_ramp_is_plain(c: Rgb)
    ensures
        ' ' <= render::ramp_char(c) <= '~',
{
    let i = render::luminance(c) * 9 / 255;
    assert(0 <= i < 10);
}

proof fn lemma_shown_end(mode: ColorMode)
    ensures
        shown(render::line_end(mode)) == (false, render::line_end(ColorMode::Mono)),
{
    let reset = seq!['\x1b', '[', '0', 'm'];
    let cr = seq!['\r'];
    let lf = seq!['\n'];
    lemma_shown_char('\r');
    lemma_shown_char('\n');
    lemma_shown_concat(cr, lf);
    assert(cr + lf =~= render::line_end(ColorMode::Mono));
    if mode != ColorMode::Mono {
        let open = seq!['\x1b', '[', '0'];
        assert(reset.drop_last() =~= open);
        lemma_shown_open(open);
        lemma_shown_concat(reset, cr + lf);
        assert(reset + (cr + lf) =~= render::line_end(mode));
        assert(Seq::<char>::empty() + (cr + lf) =~= cr + lf);
    }
}

/// Whether a carriage return and a line feed stand at `i`.
pub open spec fn ends_line(s: Seq<char>, i: int) -> bool {
    s[i] == '\r' && s[i + 1] == '\n'
}

/// A picture without color is a table of characters: each line holds one
/// character for each cell and a line end.
pub proof fn mono_is_a_table(f: &Frame, cols: int, rows: int, n: int)
    requires
        0 <= cols,
        0 <= n,
    ensures
        render::lines_text(f, cols, rows, ColorMode::Mono, n).len() == n * (cols + 2),
        forall|cx: int, cy: int|
            0 <= cx < cols && 0 <= cy < n ==> render::lines_text(f, cols, rows, ColorMode::Mono, n)[cy * (cols + 2)
                + cx] == render::ramp_char(#[trigger] render::cell_color(f, cols, rows, cx, cy)),
        forall|cy: int|
            0 <= cy < n ==> #[trigger] ends_line(
                render::lines_text(f, cols, rows, ColorMode::Mono, n),
                cy * (cols + 2) + cols,
            ),
    decreases n,
{
    let t = render::lines_text(f, cols, rows, ColorMode::Mono, n);
    if n > 0 {
        let before = render::lines_text(f, cols, rows, ColorMode::Mono, n - 1);
        let cells = render::cells_text(f, cols, rows, ColorMode::Mono, cols, n - 1);
        mono_is_a_table(f, cols, rows, n - 1);
        lemma_mono_cells(f, cols, rows, cols, n - 1);
        assert((n - 1) * (cols + 2) + (cols + 2) == n * (cols + 2)) by (nonlinear_arith);
        assert forall|cx: int, cy: int| 0 <= cx < cols && 0 <= cy < n implies t[cy * (cols + 2) + cx]
            == render::ramp_char(#[trigger] render::cell_color(f, cols, rows, cx, cy)) by {
            let i = cy * (cols + 2) + cx;
            if cy < n - 1 {
                assert(0 <= i < (n - 1) * (cols + 2)) by (nonlinear_arith)
                    requires
                        i == cy * (cols + 2) + cx,
                        0 <= cx < cols,
                        0 <= cy < n - 1,
                ;
                assert(t[i] == before[i]);
            } else {
                assert(t[i] == cells[cx]);
            }
        }
        assert forall|cy: int| 0 <= cy < n implies #[trigger] ends_line(t, cy * (cols + 2) + cols) by {
            let i = cy * (cols + 2) + cols;
            if cy < n - 1 {
                lemma_line_end_place(cols, n - 1, cy);
                assert(ends_line(before, i));
                assert(t[i] == before[i] && t[i + 1] == before[i + 1]);
            } else {
                assert(t[i] == render::line_end(ColorMode::Mono)[0]);
                assert(t[i + 1] == render::line_end(ColorMode::Mono)[1]);
            }
        }
    } else {
        lemma_mul_basics(cols + 2);
    }
}

/// The end of a line lies before the lines that follow.
proof fn lemma_line_end_place(cols: int, n: int, cy: int)
    requires
        0 <= cols,
        0 <= cy < n,
    ensures
        0 <= cy * (cols + 2) + cols,
        cy * (cols + 2) + cols + 1 < n * (cols + 2),
{
    assert(0 <= cy * (cols + 2) && (cy + 1) * (cols + 2) <= n * (cols + 2) && (cy + 1) * (cols + 2) == cy * (cols + 2)
        + (cols + 2)) by (nonlinear_arith)
        requires
            0 <= cols,
            0 <= cy < n,
    ;
}

proof fn lemma_mono_cells(f: &Frame, cols: int, rows: int, n: int, cy: int)
    requires
        0 <= n,
    ensures
        render::cells_text(f, cols, rows, ColorMode::Mono, n, cy).len() == n,
        forall|cx: int|
            0 <= cx < n ==> render::cells_text(f, cols, rows, ColorMode::Mono, n, cy)[cx] == render::ramp_char(
                #[trigger] render::cell_color(f, cols, rows, cx, cy),
            ),
    decreases n,
{
    if n > 0 {
        lemma_mono_cells(f, cols, rows, n - 1, cy);
    }
}

/// What a terminal shows of half blocks is a table of half blocks: each line
/// holds one for each cell and a line end.
pub proof fn half_blocks_are_a_table(f: &Frame, cols: int, rows: int, mode: ColorMode, n: int)
    requires
        0 <= cols,
        0 <= n,
    ensures
        !shown(render::half_lines_text(f, cols, rows, mode, n)).0,
        shown(render::half_lines_text(f, cols, rows, mode, n)).1.len() == n * (cols + 2),
        forall|cx: int, cy: int|
            0 <= cx < cols && 0 <= cy < n ==> #[trigger] shown(render::half_lines_text(f, cols, rows, mode, n)).1[cy * (
            cols + 2) + cx] == render::HALF_BLOCK,
        forall|cy: int|
            0 <= cy < n ==> #[trigger] ends_line(
                shown(render::half_lines_text(f, cols, rows, mode, n)).1,
                cy * (cols + 2) + cols,
            ),
    decreases n,
{
    let t = shown(render::half_lines_text(f, cols, rows, mode, n)).1;
    if n > 0 {
        let before = render::half_lines_text(f, cols, rows, mode, n - 1);
        let cells = render::halves_text(f, cols, rows, mode, cols, n - 1);
        half_blocks_are_a_table(f, cols, rows, mode, n - 1);
        lemma_shown_halves(f, cols, rows, mode, cols, n - 1);
        lemma_shown_end(mode);
        lemma_shown_concat(before, cells);
        lemma_shown_concat(before + cells, render::line_end(mode));
        assert((n - 1) * (cols + 2) + (cols + 2) == n * (cols + 2)) by (nonlinear_arith);
        assert forall|cx: int, cy: int| 0 <= cx < cols && 0 <= cy < n implies #[trigger] t[cy * (cols + 2) + cx]
            == render::HALF_BLOCK by {
            let i = cy * (cols + 2) + cx;
            if cy < n - 1 {
                assert(0 <= i < (n - 1) * (cols + 2)) by (nonlinear_arith)
                    requires
                        i == cy * (cols + 2) + cx,
                        0 <= cx < cols,
                        0 <= cy < n - 1,
                ;
                assert(t[i] == shown(before).1[i]);
            } else {
                assert(t[i] == shown(cells).1[cx]);
            }
        }
        assert forall|cy: int| 0 <= cy < n implies #[trigger] ends_line(t, cy * (cols + 2) + cols) by {
            let i = cy * (cols + 2) + cols;
            if cy < n - 1 {
                lemma_line_end_place(cols, n - 1, cy);
                assert(ends_line(shown(before).1, i));
                assert(t[i] == shown(before).1[i] && t[i + 1] == shown(before).1[i + 1]);
            } else {
                assert(t[i] == shown(render::line_end(mode)).1[0]);
                assert(t[i + 1] == shown(render::line_end(mode)).1[1]);
            }
        }
    } else {
        lemma_mul_basics(cols + 2);
    }
}

proof fn lemma_shown_halves(f: &Frame, cols: int, rows: int, mode: ColorMode, n: int, cy: int)
    requires
        0 <= n,
    ensures
        shown(render::halves_text(f, cols, rows, mode, n, cy)) == (
            false,
            Seq::new(n as nat, |i: int| render::HALF_BLOCK),
        ),
    decreases n,
{
    if n > 0 {
        let top = render::cell_color(f, cols, 2 * rows, n - 1, 2 * cy);
        let bottom = render::cell_color(f, cols, 2 * rows, n - 1, 2 * cy + 1);
        let before = render::halves_text(f, cols, rows, mode, n - 1, cy);
        let cell = render::half_text(f, cols, rows, mode, n - 1, cy);
        lemma_shown_halves(f, cols, rows, mode, n - 1, cy);
        lemma_shown_painted(mode, top, bottom, true, true);
        lemma_shown_painted(mode, top, bottom, true, false);
        lemma_shown_painted(mode, top, bottom, false, true);
        lemma_shown_painted(mode, top, bottom, false, false);
        lemma_shown_concat(before, cell);
        assert(shown(before + cell).1 =~= Seq::new(n as nat, |i: int| render::HALF_BLOCK));
    } else {
        assert(Seq::<char>::empty() =~= Seq::new(n as nat, |i: int| render::HALF_BLOCK));
    }
}

proof fn lemma_shown_painted(mode: ColorMode, top: Rgb, bottom: Rgb, fresh_top: bool, fresh_bottom: bool)
    ensures
        shown(render::painted(mode, top, bottom, fresh_top, fresh_bottom)) == (false, seq![render::HALF_BLOCK]),
{
    let none = Seq::<char>::empty();
    let a = if fresh_top {
        render::escape(mode, 38, top)
    } else {
        none
    };
    let b = if fresh_bottom {
        render::escape(mode, 48, bottom)
    } else {
        none
    };
    let block = seq![render::HALF_BLOCK];
    lemma_shown_escape(mode, 38, top);
    lemma_shown_escape(mode, 48, bottom);
    lemma_shown_char(render::HALF_BLOCK);
    lemma_shown_concat(a, b);
    lemma_shown_concat(a + b, block);
    assert(none + none =~= none);
    assert(none + block =~= block);
}

} // verus!
