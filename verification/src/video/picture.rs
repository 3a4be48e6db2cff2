//! What the test picture shows, and where.

use crate::binary64;
use crate::font;
use crate::render;
use crate::text;
use crate::text::laws::all_digits;
use crate::text::laws::value;
use crate::video;
use crate::video::Frame;
use crate::video::Lettering;
use crate::video::SourceState;
use vstd::arithmetic::div_mod::*;
use vstd::arithmetic::mul::*;
use vstd::prelude::*;

verus! {

/// The sweep bar is in both strips, in the same columns: it is nine pixels wide,
/// four to the left of the place that it has reached and four to the right, moved
/// into the frame at the left edge; it fills the rows of the upper and of the lower
/// 22 percent of the frame, and no others. The picture of it is the same upside
/// down.
pub proof fn sweep_is_in_both_strips(s: SourceState, elapsed_ms: nat, x: int, y: int)
    requires
        0 <= x < s.width,
        0 <= y < s.height,
    ensures
        s.in_sweep(elapsed_ms, x, y) == s.in_sweep(elapsed_ms, x, s.height - 1 - y),
        ({
            let reached = s.sweep_x(elapsed_ms) as int;
            let across = if reached < 4 {
                x <= 8
            } else {
                reached - 4 <= x <= reached + 4
            };
            let from_edge = if y < s.height - 1 - y {
                y
            } else {
                s.height - 1 - y
            };
            s.in_sweep(elapsed_ms, x, y) <==> across && 100 * (from_edge + 1) <= 22 * s.height
        }),
{
}

/// The sweep bar takes 33 milliseconds for each frame of a second, and those of one
/// frame where there are none.
pub proof fn sweep_period_follows_the_rate(s: SourceState)
    ensures
        s.fps >= 1 ==> s.sweep_period() == 33 * s.fps,
        s.fps == 0 ==> s.sweep_period() == 33,
{
}

/// The sweep bar has reached the part of the width that has elapsed of its period:
/// that many whole pixels, or one less where that is a whole number of pixels.
pub proof fn sweep_keeps_time(s: SourceState, elapsed_ms: nat)
    requires
        s.fps <= u32::MAX,
        0 < s.width < 0x400,
        s.width <= usize::MAX,
    ensures
        ({
            let p = s.sweep_period();
            let whole = s.width * (elapsed_ms % p);
            let reached = s.sweep_x(elapsed_ms);
            &&& whole % p != 0 ==> reached == whole / p
            &&& whole % p == 0 ==> reached == whole / p || reached == whole / p - 1
            &&& whole == 0 ==> reached == 0
        }),
{
    let p = s.sweep_period();
    let x = elapsed_ms % p;
    lemma_mod_bound(elapsed_ms as int, p as int);
    if x == 0 {
        video::laws::sweep_stays_in_the_frame(s, elapsed_ms);
        lemma_small_mod(0, p);
        lemma_mul_basics(s.width as int);
        assert(s.sweep_x(elapsed_ms) == s.sweep_x(0));
        assert(0int % (p as int) == 0 && 0int / (p as int) == 0) by {
            lemma_div_basics(p as int);
        }
    } else {
        assert(s.width * x < 0x400 * 0x3f_ffff_ffff) by (nonlinear_arith)
            requires
                s.width < 0x400,
                0 < x < 0x3f_ffff_ffff,
        ;
        render::fit::fraction_in_integers(x, p, s.width);
        video::laws::sweep_stays_in_the_frame(s, elapsed_ms);
        binary64::lemma_fraction(x, p, s.width);
        binary64::lemma_of_nat(s.width);
        assert(0 < s.width * x) by (nonlinear_arith)
            requires
                0 < s.width,
                0 < x,
        ;
    }
}

/// The sweep bar has reached the part of the width that has elapsed of its period,
/// up to a pixel and the rounding of doubles.
pub proof fn sweep_keeps_time_in_wide_frames(s: SourceState, elapsed_ms: nat)
    requires
        s.fps <= u32::MAX,
        0 < s.width <= binary64::HIGH,
        s.width <= usize::MAX,
        elapsed_ms % s.sweep_period() != 0,
    ensures
        ({
            let p = s.sweep_period();
            let whole = s.width * (elapsed_ms % p);
            let reached = s.sweep_x(elapsed_ms);
            let low = binary64::LOW as int;
            reached * p * low <= whole * (low + 4) && whole * low < (reached + 1) * p * (low + 4)
        }),
{
    let p = s.sweep_period();
    let x = elapsed_ms % p;
    lemma_mod_bound(elapsed_ms as int, p as int);
    render::fit::fraction_is_near(x, p, s.width);
    binary64::lemma_fraction(x, p, s.width);
    binary64::lemma_of_nat(s.width);
}

/// Frames of ordinary sizes can be drawn: three pixels wide, tall enough for the
/// captions, and small enough for a byte count in 31 bits.
pub proof fn ordinary_frames_can_be_drawn(width: nat, height: nat)
    requires
        3 <= width,
        37 <= height <= 0x800_0000,
        width * height * 3 <= 0x7fff_ffff,
    ensures
        video::drawable(width, height),
{
}

/// The border is three pixels wide on every side.
pub proof fn border_is_three_wide(s: SourceState, x: int, y: int)
    requires
        0 <= x < s.width,
        0 <= y < s.height,
    ensures
        s.on_border(x, y) == s.on_border(s.width - 1 - x, y),
        s.on_border(x, y) == s.on_border(x, s.height - 1 - y),
        s.on_border(x, y) <==> !(3 <= x < s.width - 3 && 3 <= y < s.height - 3),
{
}

/// The background gets lighter from the top down, in 24 even steps of blue from 16
/// on; red and green are a third of it.
pub proof fn background_is_a_gradient(s: SourceState, y: int)
    requires
        0 <= y < s.height,
    ensures
        ({
            let (r, g, b) = s.background(y);
            &&& 16 <= b < 40
            &&& (b - 16) * s.height <= 24 * y < (b - 15) * s.height
            &&& r == g
            &&& 3 * r <= b < 3 * r + 3
        }),
{
    let h = s.height as int;
    let q = y * 24 / h;
    lemma_fundamental_div_mod(y * 24, h);
    lemma_mod_bound(y * 24, h);
    assert(0 <= q < 24) by (nonlinear_arith)
        requires
            h * q + (y * 24) % h == y * 24,
            0 <= (y * 24) % h < h,
            0 <= y < h,
    ;
    assert(q * h == h * q && (q + 1) * h == h * q + h) by (nonlinear_arith);
}

/// The timecode is written as large as fits in 85 percent of the width, at least
/// one pixel for each of the font, and 2.6 times as tall; it is thickened by half a
/// font pixel and stands in the middle of the frame.
pub proof fn timecode_is_large_and_centered(s: SourceState, elapsed_ms: nat)
    ensures
        ({
            let l = s.timecode_face(elapsed_ms);
            let wide = 6 * l.text.len() * l.xscale;
            let tall = 7 * l.yscale;
            &&& l.text == video::timecode(elapsed_ms)
            &&& l.xscale >= 1
            &&& l.xscale > 1 ==> 100 * wide <= 85 * s.width
            &&& 85 * s.width < 100 * (6 * l.text.len() * (l.xscale + 1))
            &&& 5 * l.yscale <= 13 * l.xscale < 5 * l.yscale + 5
            &&& 2 * l.weight <= l.xscale <= 2 * l.weight + 1
            &&& if wide < s.width {
                2 * l.x <= s.width - wide <= 2 * l.x + 1
            } else {
                l.x == 0
            }
            &&& if tall < s.height {
                2 * l.y <= s.height - tall <= 2 * l.y + 1
            } else {
                l.y == 0
            }
        }),
{
    let l = s.timecode_face(elapsed_ms);
    let n = l.text.len() as int;
    timecode_reads_back(elapsed_ms);
    let d = n * (font::GLYPH_W + 1);
    assert(d == n * 6);
    let a = s.width as int * 85 / 100;
    let q = a / d;
    lemma_fundamental_div_mod(a, d);
    lemma_mod_bound(a, d);
    let xs = l.xscale;
    assert(n * (font::GLYPH_W + 1) * xs == 6 * n * xs);
    assert(d * q <= a < d * (q + 1)) by (nonlinear_arith)
        requires
            d * q + a % d == a,
            0 <= a % d < d,
    ;
    assert(q <= xs);
    assert(d * (q + 1) <= d * (xs + 1)) by (nonlinear_arith)
        requires
            q <= xs,
            d > 0,
    ;
    assert(q >= 0) by (nonlinear_arith)
        requires
            a < d * (q + 1),
            a >= 0,
            d > 0,
    ;
}

/// The shadow of the timecode is the timecode, a third of a font pixel to the right
/// and down.
pub proof fn shadow_follows_the_timecode(s: SourceState, elapsed_ms: nat, x: int, y: int)
    ensures
        ({
            let l = s.timecode_face(elapsed_ms);
            let shadow = s.timecode_shadow(elapsed_ms);
            let (dx, dy) = (shadow.x - l.x, shadow.y - l.y);
            &&& 3 * dx <= l.xscale < 3 * dx + 3
            &&& 3 * dy <= l.yscale < 3 * dy + 3
            &&& shadow.covers(x, y) == l.covers(x - dx, y - dy)
        }),
{
    let l = s.timecode_face(elapsed_ms);
    let shadow = s.timecode_shadow(elapsed_ms);
    let (dx, dy) = (shadow.x - l.x, shadow.y - l.y);
    if shadow.covers(x, y) {
        let (k, row, col) = choose|k: int, row: int, col: int| #[trigger] shadow.dot(k, row, col, x, y);
        assert(l.dot(k, row, col, x - dx, y - dy));
    }
    if l.covers(x - dx, y - dy) {
        let (k, row, col) = choose|k: int, row: int, col: int| #[trigger] l.dot(k, row, col, x - dx, y - dy);
        assert(shadow.dot(k, row, col, x, y));
    }
}

/// Whether the lettering has a font pixel over `(x, y)`: in some character, a bit
/// of the glyph, from the left and from the top, whose pixels reach there. Font
/// pixels are `xscale` wide and `yscale` tall, characters are six of them apart,
/// and each font pixel is wider and taller by the weight.
pub open spec fn stroked(l: Lettering, x: int, y: int) -> bool {
    exists|k: int, row: int, col: int|
        0 <= k < l.text.len() && #[trigger] glyph_bit(l.text[k], row, col) && {
            let left = l.x + (6 * k + col) * l.xscale;
            let top = l.y + row * l.yscale;
            left <= x < left + l.xscale + l.weight && top <= y < top + l.yscale + l.weight
        }
}

/// Whether the glyph for `ch` has a pixel in row `row` from the top and column `col`
/// from the left.
pub open spec fn glyph_bit(ch: char, row: int, col: int) -> bool {
    &&& 0 <= row < 7
    &&& 0 <= col < 5
    &&& exists|i: int|
        0 <= i < font::GLYPHS && #[trigger] font::CHARS[i] == ch && font::ROWS[i][row] as int / place_value(col) % 2
            == 1
}

/// What column `col` of five counts in a row of a glyph.
pub open spec fn place_value(col: int) -> int {
    if col == 0 {
        16
    } else if col == 1 {
        8
    } else if col == 2 {
        4
    } else if col == 3 {
        2
    } else {
        1
    }
}

/// A text is drawn in the font: it covers the pixels that a font pixel of one of its
/// characters reaches.
pub proof fn strokes_are_font_pixels(l: Lettering, x: int, y: int)
    ensures
        l.covers(x, y) <==> stroked(l, x, y),
{
    if l.covers(x, y) {
        let (k, row, col) = choose|k: int, row: int, col: int| #[trigger] l.dot(k, row, col, x, y);
        let rows = font::rows_of(l.text[k])->0;
        let i = lemma_glyph(l.text[k], 0);
        lemma_lit(rows[row], col);
        assert(font::CHARS[i] == l.text[k]);
        assert(glyph_bit(l.text[k], row, col));
        lemma_left(k, col, l.xscale);
    }
    if stroked(l, x, y) {
        let (k, row, col) = choose|k: int, row: int, col: int|
            0 <= k < l.text.len() && #[trigger] glyph_bit(l.text[k], row, col) && {
                let left = l.x + (6 * k + col) * l.xscale;
                let top = l.y + row * l.yscale;
                left <= x < left + l.xscale + l.weight && top <= y < top + l.yscale + l.weight
            };
        let i = choose|i: int|
            0 <= i < font::GLYPHS && #[trigger] font::CHARS[i] == l.text[k] && font::ROWS[i][row] as int / place_value(
                col,
            ) % 2 == 1;
        lemma_found(l.text[k], i, 0);
        lemma_lit(font::ROWS[i][row], col);
        lemma_left(k, col, l.xscale);
        assert(l.dot(k, row, col, x, y));
    }
}

proof fn lemma_left(k: int, col: int, xscale: int)
    ensures
        (6 * k + col) * xscale == k * ((font::GLYPH_W + 1) * xscale) + col * xscale,
{
    assert((6 * k + col) * xscale == k * (6 * xscale) + col * xscale) by (nonlinear_arith);
}

/// The font holds no character twice.
proof fn lemma_chars_apart(i: int, j: int)
    requires
        0 <= i < font::GLYPHS,
        0 <= j < font::GLYPHS,
        font::CHARS[i] == font::CHARS[j],
    ensures
        i == j,
{
}

proof fn lemma_glyph(ch: char, from: int) -> (i: int)
    requires
        0 <= from,
        font::rows_from(ch, from) is Some,
    ensures
        from <= i < font::GLYPHS,
        font::CHARS[i] == ch,
        font::rows_from(ch, from) == Some(font::ROWS[i]),
    decreases font::GLYPHS - from,
{
    if font::CHARS[from] == ch {
        from
    } else {
        lemma_glyph(ch, from + 1)
    }
}

proof fn lemma_found(ch: char, i: int, from: int)
    requires
        0 <= from <= i < font::GLYPHS,
        font::CHARS[i] == ch,
    ensures
        font::rows_from(ch, from) == Some(font::ROWS[i]),
    decreases font::GLYPHS - from,
{
    if font::CHARS[from] == ch {
        lemma_chars_apart(from, i);
    } else {
        lemma_found(ch, i, from + 1);
    }
}

proof fn lemma_lit(bits: u8, col: int)
    requires
        0 <= col < 5,
    ensures
        font::is_lit(bits, col) <==> bits as int / place_value(col) % 2 == 1,
{
    assert(bits & (1u8 << 4usize) != 0 <==> bits / 16 % 2 == 1) by (bit_vector);
    assert(bits & (1u8 << 3usize) != 0 <==> bits / 8 % 2 == 1) by (bit_vector);
    assert(bits & (1u8 << 2usize) != 0 <==> bits / 4 % 2 == 1) by (bit_vector);
    assert(bits & (1u8 << 1usize) != 0 <==> bits / 2 % 2 == 1) by (bit_vector);
    assert(bits & (1u8 << 0usize) != 0 <==> bits / 1 % 2 == 1) by (bit_vector);
}

/// A timecode reads back: from its end, three digits of milliseconds, two of
/// seconds, two of minutes, and what remains are the hours, at least two digits.
pub proof fn timecode_reads_back(ms: nat)
    ensures
        ({
            let t = video::timecode(ms);
            let n = t.len() as int;
            let (h, m, s, f) = (t.subrange(0, n - 10), t.subrange(n - 9, n - 7), t.subrange(n - 6, n - 4), t.subrange(n - 3, n));
            &&& n >= 12
            &&& t[n - 10] == ':' && t[n - 7] == ':' && t[n - 4] == '.'
            &&& all_digits(h) && all_digits(m) && all_digits(s) && all_digits(f)
            &&& value(m) < 60 && value(s) < 60 && value(f) < 1000
            &&& ms == ((value(h) * 60 + value(m)) * 60 + value(s)) * 1000 + value(f)
            &&& n > 12 ==> h[0] != '0'
        }),
{
    let t = video::timecode(ms);
    let n = t.len() as int;
    let (a, b, c, d) = (ms / 3_600_000, ms / 60_000 % 60, ms / 1_000 % 60, ms % 1_000);
    text::laws::padded_reads_back(a, 2);
    text::laws::padded_reads_back(b, 2);
    text::laws::padded_reads_back(c, 2);
    text::laws::padded_reads_back(d, 3);
    text::lemma_decimal_len(a);
    text::lemma_decimal_len(b);
    text::lemma_decimal_len(c);
    text::lemma_decimal_len(d);
    text::laws::decimal_reads_back(a);
    assert(t.subrange(0, n - 10) =~= text::padded(a, 2));
    assert(t.subrange(n - 9, n - 7) =~= text::padded(b, 2));
    assert(t.subrange(n - 6, n - 4) =~= text::padded(c, 2));
    assert(t.subrange(n - 3, n) =~= text::padded(d, 3));
    assert(ms / 1_000 / 60 == ms / 60_000);
    assert(ms / 60_000 / 60 == ms / 3_600_000);
}

/// The captions stand 16 pixels from the left edge, the label as far from the top
/// and the counter as far from the bottom; a font pixel is three wide and tall.
pub proof fn captions_stand_in_the_corners(s: SourceState)
    ensures
        s.label().x == 16 && s.label().y == 16,
        s.counter().x == 16 && s.counter().y + 7 * 3 + 16 == s.height,
        s.label().xscale == 3 && s.label().yscale == 3 && s.label().weight == 1,
        s.counter().xscale == 3 && s.counter().yscale == 3 && s.counter().weight == 1,
{
}

/// The label tells the width, the height and the frame rate, and the counter the
/// number of the frame: each number reads back.
pub proof fn captions_read_back(s: SourceState)
    ensures
        ({
            let l = s.label().text;
            let (w, h, r) = (text::decimal(s.width), text::decimal(s.height), text::decimal(s.fps));
            let (a, b) = (6 + w.len() as int, 7 + w.len() + h.len() as int);
            let c = s.counter().text;
            &&& l.take(6) == seq!['V', 'I', 'R', 'O', 'H', ' ']
            &&& l.len() == b + 1 + r.len() + 3
            &&& value(l.subrange(6, a)) == s.width && all_digits(l.subrange(6, a))
            &&& l[a] == 'X'
            &&& value(l.subrange(a + 1, b)) == s.height && all_digits(l.subrange(a + 1, b))
            &&& l[b] == ' '
            &&& value(l.subrange(b + 1, l.len() - 3)) == s.fps && all_digits(l.subrange(b + 1, l.len() - 3))
            &&& l.skip(l.len() - 3) == seq!['F', 'P', 'S']
            &&& c.take(6) == seq!['F', 'R', 'A', 'M', 'E', ' ']
            &&& value(c.skip(6)) == s.frame_no && all_digits(c.skip(6))
        }),
{
    reveal_strlit("VIROH ");
    reveal_strlit("FPS");
    reveal_strlit("FRAME ");
    text::laws::decimal_reads_back(s.width);
    text::laws::decimal_reads_back(s.height);
    text::laws::decimal_reads_back(s.fps);
    text::laws::decimal_reads_back(s.frame_no);
    let l = s.label().text;
    let (w, h, r) = (text::decimal(s.width), text::decimal(s.height), text::decimal(s.fps));
    let (a, b) = (6 + w.len() as int, 7 + w.len() + h.len() as int);
    let c = s.counter().text;
    assert(l.take(6) =~= seq!['V', 'I', 'R', 'O', 'H', ' ']);
    assert(l.subrange(6, a) =~= w);
    assert(l.subrange(a + 1, b) =~= h);
    assert(l.subrange(b + 1, l.len() - 3) =~= r);
    assert(l.skip(l.len() - 3) =~= seq!['F', 'P', 'S']);
    assert(c.take(6) =~= seq!['F', 'R', 'A', 'M', 'E', ' ']);
    assert(c.skip(6) =~= text::decimal(s.frame_no));
}

/// What lies on top is seen: the captions in gray and in yellow, the timecode in
/// green on black, the border, the sweep bar and the background, in this order.
pub proof fn what_lies_on_top_is_seen(s: SourceState, elapsed_ms: nat, f: &Frame, x: int, y: int)
    requires
        s.pictured(elapsed_ms, f),
        f.has(x, y),
    ensures
        f.width == s.width && f.height == s.height,
        ({
            let p = f.pixel(x, y);
            let label = stroked(s.label(), x, y);
            let counter = stroked(s.counter(), x, y);
            let time = stroked(s.timecode_face(elapsed_ms), x, y);
            let shadow = stroked(s.timecode_shadow(elapsed_ms), x, y);
            let bare = !label && !counter && !time && !shadow && !s.on_panel(elapsed_ms, x, y);
            &&& counter ==> p == (180u8, 180u8, 180u8)
            &&& label && !counter ==> p == (200u8, 200u8, 80u8)
            &&& time && !label && !counter ==> p == (80u8, 255u8, 120u8)
            &&& !time && !label && !counter && (shadow || s.on_panel(elapsed_ms, x, y)) ==> p == (0u8, 0u8, 0u8)
            &&& bare && s.on_border(x, y) ==> p == (80u8, 80u8, 80u8)
            &&& bare && !s.on_border(x, y) && s.in_sweep(elapsed_ms, x, y) ==> p == (40u8, 120u8, 200u8)
            &&& bare && !s.on_border(x, y) && !s.in_sweep(elapsed_ms, x, y) ==> p == s.background(y)
        }),
{
    strokes_are_font_pixels(s.label(), x, y);
    strokes_are_font_pixels(s.counter(), x, y);
    strokes_are_font_pixels(s.timecode_face(elapsed_ms), x, y);
    strokes_are_font_pixels(s.timecode_shadow(elapsed_ms), x, y);
    assert(f.pixel(x, y) == s.pattern(elapsed_ms, x, y));
}

/// The panel behind the timecode is the box that holds its characters: six font
/// pixels for each, and seven down, with the thickening.
pub proof fn panel_holds_the_characters(s: SourceState, elapsed_ms: nat, x: int, y: int)
    ensures
        ({
            let l = s.timecode_face(elapsed_ms);
            s.on_panel(elapsed_ms, x, y) <==> 0 <= x - l.x < 6 * l.text.len() * l.xscale && 0 <= y - l.y < 7 * l.yscale
                + l.weight
        }),
{
    let l = s.timecode_face(elapsed_ms);
    assert(l.text.len() * (font::GLYPH_W + 1) == 6 * l.text.len());
}

/// The digits of the font, row by row from the top, with the leftmost column first.
pub proof fn digits_look_like_digits()
    ensures
        looks('0', seq![0b01110, 0b10001, 0b10011, 0b10101, 0b11001, 0b10001, 0b01110]),
        looks('1', seq![0b00100, 0b01100, 0b00100, 0b00100, 0b00100, 0b00100, 0b01110]),
        looks('2', seq![0b01110, 0b10001, 0b00001, 0b00010, 0b00100, 0b01000, 0b11111]),
        looks('3', seq![0b11111, 0b00010, 0b00100, 0b00010, 0b00001, 0b10001, 0b01110]),
        looks('4', seq![0b00010, 0b00110, 0b01010, 0b10010, 0b11111, 0b00010, 0b00010]),
        looks('5', seq![0b11111, 0b10000, 0b11110, 0b00001, 0b00001, 0b10001, 0b01110]),
        looks('6', seq![0b00110, 0b01000, 0b10000, 0b11110, 0b10001, 0b10001, 0b01110]),
        looks('7', seq![0b11111, 0b00001, 0b00010, 0b00100, 0b01000, 0b01000, 0b01000]),
        looks('8', seq![0b01110, 0b10001, 0b10001, 0b01110, 0b10001, 0b10001, 0b01110]),
        looks('9', seq![0b01110, 0b10001, 0b10001, 0b01111, 0b00001, 0b00010, 0b01100]),
        looks(':', seq![0b00000, 0b01100, 0b01100, 0b00000, 0b01100, 0b01100, 0b00000]),
        looks('.', seq![0b00000, 0b00000, 0b00000, 0b00000, 0b00000, 0b01100, 0b01100]),
{
    lemma_found('0', 0, 0);
    lemma_found('1', 1, 0);
    lemma_found('2', 2, 0);
    lemma_found('3', 3, 0);
    lemma_found('4', 4, 0);
    lemma_found('5', 5, 0);
    lemma_found('6', 6, 0);
    lemma_found('7', 7, 0);
    lemma_found('8', 8, 0);
    lemma_found('9', 9, 0);
    lemma_found(':', 36, 0);
    lemma_found('.', 37, 0);
}

/// Whether the font has a glyph for `ch` with these rows.
pub open spec fn looks(ch: char, rows: Seq<u8>) -> bool {
    font::rows_of(ch) matches Some(r) && r@ == rows
}

/// The pixels of a frame lie row by row from the top, each row from the left, and
/// each pixel is red, green and blue.
pub proof fn pixels_lie_row_by_row(f: &Frame, x: int, y: int)
    requires
        f.wf(),
        f.has(x, y),
    ensures
        ({
            let i = 3 * (y * f.width + x);
            &&& 0 <= i && i + 3 <= f.rgb@.len()
            &&& f.pixel(x, y) == (f.rgb@[i], f.rgb@[i + 1], f.rgb@[i + 2])
        }),
{
    let (w, h) = (f.width as int, f.height as int);
    assert(0 <= y * w + x && y * w + x + 1 <= w * h) by (nonlinear_arith)
        requires
            0 <= x < w,
            0 <= y < h,
    ;
}

} // verus!
