//! What holds of every test picture.

pub use crate::text::laws::value;

use crate::binary64;
use crate::font;
use crate::text;
use crate::video;
use crate::video::Frame;
use crate::video::Lettering;
use crate::video::Rgb;
use crate::video::SourceState;
use vstd::arithmetic::div_mod::*;
use vstd::arithmetic::mul::*;
use vstd::arithmetic::power2::*;
use vstd::prelude::*;

verus! {

/// A decimal number stands for itself.
proof fn lemma_value(n: nat)
    ensures
        value(text::decimal(n)) == n,
{
    text::laws::decimal_reads_back(n);
}

/// A padded number stands for itself.
proof fn lemma_padded(n: nat, width: nat)
    ensures
        value(text::padded(n, width)) == n,
        text::padded(n, width).len() >= width,
        n < 100 && width == 2 ==> text::padded(n, width).len() == 2,
        n < 1000 && width == 3 ==> text::padded(n, width).len() == 3,
        forall|i: int| 0 <= i < text::padded(n, width).len() ==> '0' <= #[trigger] text::padded(n, width)[i] <= '9',
{
    text::laws::padded_reads_back(n, width);
    text::lemma_decimal_len(n);
}

/// Below a hundred hours a timecode is twelve characters long, and reads
/// `HH:MM:SS.mmm`.
pub proof fn timecode_has_its_form(ms: nat)
    requires
        ms < 360_000_000,
    ensures
        ({
            let t = video::timecode(ms);
            &&& t.len() == 12
            &&& t[2] == ':' && t[5] == ':' && t[8] == '.'
            &&& value(t.subrange(0, 2)) == ms / 3_600_000
            &&& value(t.subrange(3, 5)) == ms / 60_000 % 60
            &&& value(t.subrange(6, 8)) == ms / 1_000 % 60
            &&& value(t.subrange(9, 12)) == ms % 1_000
            &&& forall|i: int|
                0 <= i < 12 && i != 2 && i != 5 && i != 8 ==> '0' <= #[trigger] t[i] <= '9'
        }),
{
    let t = video::timecode(ms);
    let (h, m, s, f) = (
        text::padded(ms / 3_600_000, 2),
        text::padded(ms / 60_000 % 60, 2),
        text::padded(ms / 1_000 % 60, 2),
        text::padded(ms % 1_000, 3),
    );
    lemma_padded(ms / 3_600_000, 2);
    lemma_padded(ms / 60_000 % 60, 2);
    lemma_padded(ms / 1_000 % 60, 2);
    lemma_padded(ms % 1_000, 3);
    assert(t.subrange(0, 2) =~= h);
    assert(t.subrange(3, 5) =~= m);
    assert(t.subrange(6, 8) =~= s);
    assert(t.subrange(9, 12) =~= f);
    assert forall|i: int| 0 <= i < 12 && i != 2 && i != 5 && i != 8 implies '0' <= #[trigger] t[i] <= '9' by {
        if i < 2 {
            assert(t[i] == h[i]);
        } else if i < 5 {
            assert(t[i] == m[i - 3]);
        } else if i < 8 {
            assert(t[i] == s[i - 6]);
        } else {
            assert(t[i] == f[i - 9]);
        }
    }
}

/// The elapsed time can be read off its timecode: different times have different
/// timecodes.
pub proof fn timecode_tells_the_time(a: nat, b: nat)
    requires
        video::timecode(a) == video::timecode(b),
    ensures
        a == b,
{
    lemma_parts(a);
    lemma_parts(b);
    lemma_whole(a);
    lemma_whole(b);
}

/// The parts of a timecode, from its end.
proof fn lemma_parts(ms: nat)
    ensures
        ({
            let t = video::timecode(ms);
            let n = t.len() as int;
            &&& n >= 12
            &&& value(t.subrange(0, n - 10)) == ms / 3_600_000
            &&& value(t.subrange(n - 9, n - 7)) == ms / 60_000 % 60
            &&& value(t.subrange(n - 6, n - 4)) == ms / 1_000 % 60
            &&& value(t.subrange(n - 3, n)) == ms % 1_000
        }),
{
    let t = video::timecode(ms);
    let n = t.len() as int;
    lemma_padded(ms / 3_600_000, 2);
    lemma_padded(ms / 60_000 % 60, 2);
    lemma_padded(ms / 1_000 % 60, 2);
    lemma_padded(ms % 1_000, 3);
    assert(t.subrange(0, n - 10) =~= text::padded(ms / 3_600_000, 2));
    assert(t.subrange(n - 9, n - 7) =~= text::padded(ms / 60_000 % 60, 2));
    assert(t.subrange(n - 6, n - 4) =~= text::padded(ms / 1_000 % 60, 2));
    assert(t.subrange(n - 3, n) =~= text::padded(ms % 1_000, 3));
}

/// Hours, minutes, seconds and milliseconds make up the time.
proof fn lemma_whole(ms: nat)
    ensures
        ms == ms / 3_600_000 * 3_600_000 + ms / 60_000 % 60 * 60_000 + ms / 1_000 % 60 * 1_000 + ms % 1_000,
{
    assert(ms / 1_000 / 60 == ms / 60_000);
    assert(ms / 60_000 / 60 == ms / 3_600_000);
}

/// The sweep bar returns after its period.
pub proof fn sweep_is_periodic(s: SourceState, elapsed_ms: nat)
    ensures
        s.sweep_x(elapsed_ms + s.sweep_period()) == s.sweep_x(elapsed_ms),
{
    lemma_mod_add_multiples_vanish(elapsed_ms as int, s.sweep_period() as int);
}

/// The sweep bar starts at the left edge and never passes the right one.
pub proof fn sweep_stays_in_the_frame(s: SourceState, elapsed_ms: nat)
    requires
        s.fps <= u32::MAX,
        s.width <= binary64::HIGH,
        s.width <= usize::MAX,
    ensures
        s.sweep_x(0) == 0,
        s.sweep_x(elapsed_ms) <= s.width,
{
    let p = s.sweep_period();
    let x = elapsed_ms % p;
    binary64::lemma_fraction(x, p, s.width);
    binary64::lemma_of_nat(s.width);
    lemma_small_mod(0, p);
    binary64::lemma_of_nat(0);
    let zero = binary64::of_nat(0);
    let phase = binary64::quotient(zero, binary64::of_nat(p));
    assert(phase.m == 0 && phase.e == 0);
    let r = binary64::product(phase, binary64::of_nat(s.width));
    lemma_mul_basics(binary64::of_nat(s.width).m as int);
    assert(r.m == 0 && r.e == 0);
    lemma_mul_basics(pow2(0) as int);
    assert(binary64::floor(r) == 0);
}

/// The sweep bar moves from left to right: within a period it never moves back.
pub proof fn sweep_moves_right(s: SourceState, a: nat, b: nat)
    requires
        s.fps <= u32::MAX,
        s.width <= u64::MAX,
        a <= b < s.sweep_period(),
    ensures
        s.sweep_x(a) <= s.sweep_x(b),
{
    let p = s.sweep_period();
    lemma_small_mod(a, p);
    lemma_small_mod(b, p);
    let (x, y, d, w) = (binary64::of_nat(a), binary64::of_nat(b), binary64::of_nat(p), binary64::of_nat(s.width));
    binary64::lemma_of_nat(a);
    binary64::lemma_of_nat(b);
    binary64::lemma_of_nat(p);
    binary64::lemma_of_nat(s.width);
    let (u, v) = (binary64::quotient(x, d), binary64::quotient(y, d));
    let (l, r) = (binary64::product(u, w), binary64::product(v, w));
    if a == 0 || s.width == 0 {
        if a == 0 {
            assert(u.m == 0 && u.e == 0);
        }
        lemma_mul_basics(w.m as int);
        lemma_mul_basics(u.m as int);
        assert(l.m == 0 && l.e == 0);
        lemma_mul_basics(pow2(0) as int);
        assert(binary64::floor(l) == 0);
    } else {
        let (k, j) = (x.e - d.e, y.e - d.e);
        let c = binary64::unit(d.e);
        let one = binary64::unit(0);
        assert(x.m <= binary64::HIGH * binary64::HIGH);
        assert(y.m <= binary64::HIGH * binary64::HIGH);
        lemma_pow2_pos((d.e + binary64::SCALE) as nat);
        lemma_pow2_pos(binary64::SCALE as nat);
        // a <= b, as doubles
        assert(a * one <= b * one) by (nonlinear_arith)
            requires
                a <= b,
                one > 0,
        ;
        assert(x.m * binary64::unit(x.e) <= y.m * binary64::unit(y.e));
        // divided by the same double
        binary64::lemma_units(k, d.e);
        binary64::lemma_units(j, d.e);
        assert(k + d.e == x.e && j + d.e == y.e);
        lemma_divide(
            x.m as int,
            y.m as int,
            binary64::unit(x.e) as int,
            binary64::unit(y.e) as int,
            binary64::unit(k) as int,
            binary64::unit(j) as int,
            c as int,
            one as int,
        );
        assert(x.m * binary64::unit(k) * d.m <= y.m * binary64::unit(j) * d.m) by (nonlinear_arith)
            requires
                x.m * binary64::unit(k) <= y.m * binary64::unit(j),
        ;
        binary64::lemma_monotone(x.m, d.m, k, y.m, d.m, j);
        binary64::lemma_exponent(x.m, d.m, k);
        binary64::lemma_exponent(y.m, d.m, j);
        assert(binary64::scaled(u) <= binary64::scaled(v));
        // multiplied by the same double
        binary64::lemma_units(u.e, w.e);
        binary64::lemma_units(v.e, w.e);
        lemma_multiply(
            u.m as int,
            v.m as int,
            w.m as int,
            binary64::unit(u.e) as int,
            binary64::unit(v.e) as int,
            binary64::unit(u.e + w.e) as int,
            binary64::unit(v.e + w.e) as int,
            binary64::unit(w.e) as int,
            one as int,
        );
        assert(0 < u.m * w.m <= binary64::HIGH * binary64::HIGH) by (nonlinear_arith)
            requires
                0 < u.m <= binary64::HIGH,
                0 < w.m <= binary64::HIGH,
        ;
        assert(0 < v.m * w.m <= binary64::HIGH * binary64::HIGH) by (nonlinear_arith)
            requires
                0 < v.m <= binary64::HIGH,
                0 < w.m <= binary64::HIGH,
        ;
        binary64::lemma_monotone(u.m * w.m, 1, u.e + w.e, v.m * w.m, 1, v.e + w.e);
        binary64::lemma_exponent(u.m * w.m, 1, u.e + w.e);
        binary64::lemma_exponent(v.m * w.m, 1, v.e + w.e);
        binary64::lemma_floor_monotone(l, r);
    }
}

/// An order of scaled numbers stays when both scales are divided by the same.
proof fn lemma_divide(m: int, n: int, um: int, un: int, k: int, j: int, c: int, one: int)
    requires
        m * um <= n * un,
        um * one == k * c,
        un * one == j * c,
        c > 0,
        one > 0,
    ensures
        m * k <= n * j,
{
    assert(m * um * one <= n * un * one) by (nonlinear_arith)
        requires
            m * um <= n * un,
            one > 0,
    ;
    assert(m * um * one == m * (um * one) && n * un * one == n * (un * one)) by (nonlinear_arith);
    assert(m * (k * c) == m * k * c && n * (j * c) == n * j * c) by (nonlinear_arith);
    assert(m * k <= n * j) by (nonlinear_arith)
        requires
            m * k * c <= n * j * c,
            c > 0,
    ;
}

/// An order of scaled numbers stays when both are multiplied by the same.
proof fn lemma_multiply(m: int, n: int, w: int, um: int, un: int, pm: int, pn: int, c: int, one: int)
    requires
        m * um <= n * un,
        pm * one == um * c,
        pn * one == un * c,
        w >= 0,
        c >= 0,
        one > 0,
    ensures
        m * w * pm * 1 <= n * w * pn * 1,
{
    assert(m * um * (w * c) <= n * un * (w * c)) by (nonlinear_arith)
        requires
            m * um <= n * un,
            w >= 0,
            c >= 0,
    ;
    assert(m * um * (w * c) == m * w * (um * c) && n * un * (w * c) == n * w * (un * c)) by (nonlinear_arith);
    assert(m * w * (pm * one) == m * w * pm * one && n * w * (pn * one) == n * w * pn * one) by (nonlinear_arith);
    assert(m * w * pm <= n * w * pn) by (nonlinear_arith)
        requires
            m * w * pm * one <= n * w * pn * one,
            one > 0,
    ;
}

/// The rows between which a line of text lies.
proof fn lemma_rows(l: Lettering, x: int, y: int)
    requires
        l.covers(x, y),
        l.yscale >= 0,
        l.weight >= 0,
    ensures
        l.y <= y < l.y + font::GLYPH_H * l.yscale + l.weight,
{
    let (k, row, col) = choose|k: int, row: int, col: int| #[trigger] l.dot(k, row, col, x, y);
    assert(0 <= row * l.yscale && row * l.yscale + l.yscale <= font::GLYPH_H * l.yscale) by (nonlinear_arith)
        requires
            0 <= row < font::GLYPH_H,
            l.yscale >= 0,
    ;
}

/// The timecode's font pixels are at most a 7200th of 85 widths wide, or one
/// pixel.
proof fn lemma_xscale(s: SourceState, elapsed_ms: nat)
    ensures
        s.timecode_xscale(elapsed_ms) >= 1,
        s.timecode_xscale(elapsed_ms) == 1 || 7200 * s.timecode_xscale(elapsed_ms) <= 85 * s.width,
        s.width * 85 / 100 >= video::timecode(elapsed_ms).len() * 6 ==> video::timecode(elapsed_ms).len() * 6
            * s.timecode_xscale(elapsed_ms) <= s.width * 85 / 100,
{
    let n = video::timecode(elapsed_ms).len() as int;
    let a = s.width as int * 85 / 100;
    let xs = s.timecode_xscale(elapsed_ms);
    lemma_parts(elapsed_ms);
    let d = n * (font::GLYPH_W + 1);
    assert(d == n * 6);
    lemma_fundamental_div_mod(a, d);
    let q = a / d;
    assert(d * q <= a);
    if q >= 1 {
        assert(72 * q <= d * q) by (nonlinear_arith)
            requires
                d >= 72,
                q >= 1,
        ;
    }
    if a >= d {
        lemma_div_non_zero(a, d);
    }
}

/// The sweep bar never crosses the timecode, its shadow or its panel, in frames that are at
/// most 2.25 times as wide as they are tall.
///
/// In wider frames the timecode can reach into the strips that the bar crosses.
pub proof fn sweep_never_crosses_the_timecode(s: SourceState, elapsed_ms: nat, x: int, y: int)
    requires
        video::drawable(s.width, s.height),
        4 * s.width <= 9 * s.height,
        s.timecode_face(elapsed_ms).covers(x, y) || s.timecode_shadow(elapsed_ms).covers(x, y) || s.on_panel(
            elapsed_ms,
            x,
            y,
        ),
    ensures
        !s.in_sweep(elapsed_ms, x, y),
{
    let face = s.timecode_face(elapsed_ms);
    let shadow = s.timecode_shadow(elapsed_ms);
    let xs = face.xscale;
    let ys = face.yscale;
    lemma_xscale(s, elapsed_ms);
    if face.covers(x, y) {
        lemma_rows(face, x, y);
    } else if shadow.covers(x, y) {
        lemma_rows(shadow, x, y);
    }
    let h = s.height as int;
    let strip = s.strip();
    assert(ys == xs * 13 / 5);
    assert(800 * xs <= 22 * h || xs == 1) by {
        assert(7200 * xs * 4 <= 85 * (9 * h) || xs == 1);
    }
    let th = 7 * ys;
    assert(font::GLYPH_H * ys == th);
    assert(10 * th <= 182 * xs);
    assert(th <= h);
    assert(face.y == (h - th) / 2);
    assert(face.y >= strip);
    assert(face.y + th + xs / 2 + ys / 3 <= h - strip);
}

/// Every stroke of the timecode lies on its panel.
pub proof fn timecode_lies_on_its_panel(s: SourceState, elapsed_ms: nat, x: int, y: int)
    requires
        s.timecode_face(elapsed_ms).covers(x, y),
    ensures
        s.on_panel(elapsed_ms, x, y),
{
    let face = s.timecode_face(elapsed_ms);
    lemma_xscale(s, elapsed_ms);
    lemma_rows(face, x, y);
    let (k, row, col) = choose|k: int, row: int, col: int| #[trigger] face.dot(k, row, col, x, y);
    let (n, xs) = (face.text.len() as int, face.xscale);
    assert(0 <= k * (6 * xs) && 0 <= col * xs <= 4 * xs && k * (6 * xs) + 6 * xs <= n * 6 * xs) by (nonlinear_arith)
        requires
            0 <= k,
            k + 1 <= n,
            0 <= col <= 4,
            xs >= 1,
    ;
}

/// Where a timecode fits in 85% of the width at all, it is scaled to fill no more
/// than that.
pub proof fn timecode_fits_the_width(s: SourceState, elapsed_ms: nat)
    requires
        s.width * 85 / 100 >= video::timecode(elapsed_ms).len() * 6,
    ensures
        ({
            let face = s.timecode_face(elapsed_ms);
            let wide = face.text.len() * (font::GLYPH_W + 1) * face.xscale;
            100 * wide <= 85 * s.width && 0 <= face.x && face.x + wide <= s.width
        }),
{
    lemma_xscale(s, elapsed_ms);
}

/// Frames are numbered: two states of a source show the same counter only where
/// they have drawn the same number of frames.
pub proof fn frames_are_numbered(a: SourceState, b: SourceState)
    requires
        a.counter_text() == b.counter_text(),
    ensures
        a.frame_no == b.frame_no,
{
    let n = "FRAME "@.len() as int;
    assert(a.counter_text().skip(n) =~= text::decimal(a.frame_no));
    assert(b.counter_text().skip(n) =~= text::decimal(b.frame_no));
    lemma_value(a.frame_no);
    lemma_value(b.frame_no);
}

/// Frames of one size with the same pixels hold the same bytes.
proof fn lemma_same_pixels(f: &Frame, g: &Frame)
    requires
        f.wf(),
        g.resembles(f),
        forall|x: int, y: int| f.has(x, y) ==> #[trigger] f.pixel(x, y) == g.pixel(x, y),
    ensures
        f.rgb@ == g.rgb@,
{
    let (w, h) = (f.width as int, f.height as int);
    assert forall|i: int| 0 <= i < f.rgb@.len() implies f.rgb@[i] == g.rgb@[i] by {
        let p = i / 3;
        assert(w > 0) by (nonlinear_arith)
            requires
                0 <= i < w * h * 3,
                w >= 0,
        ;
        let (x, y) = (p % w, p / w);
        lemma_fundamental_div_mod(p, w);
        lemma_mod_bound(p, w);
        assert(0 <= y < h) by (nonlinear_arith)
            requires
                0 <= p < w * h,
                p == w * y + x,
                0 <= x < w,
                w > 0,
        ;
        lemma_mul_is_commutative(w, y);
        assert(video::offset(w, x, y) == 3 * p);
        assert(f.has(x, y) && g.has(x, y));
        assert(f.pixel(x, y) == g.pixel(x, y));
    }
    assert(f.rgb@ =~= g.rgb@);
}

/// There is one test picture for a state of the source and an elapsed time.
pub proof fn picture_is_unique(s: SourceState, elapsed_ms: nat, f: &Frame, g: &Frame)
    requires
        s.pictured(elapsed_ms, f),
        s.pictured(elapsed_ms, g),
    ensures
        f.width == g.width,
        f.height == g.height,
        f.rgb@ == g.rgb@,
{
    assert forall|x: int, y: int| f.has(x, y) implies #[trigger] f.pixel(x, y) == g.pixel(x, y) by {
        assert(g.has(x, y));
    }
    lemma_same_pixels(f, g);
}

/// A text covers what its two parts cover, the second one starting where the
/// first one ends.
proof fn lemma_parts_cover(first: Lettering, more: Seq<char>, x: int, y: int)
    ensures
        ({
            let whole = Lettering { text: first.text + more, ..first };
            whole.covers(x, y) == (first.covers(x, y) || first.followed_by(more).covers(x, y))
        }),
{
    let whole = Lettering { text: first.text + more, ..first };
    let second = first.followed_by(more);
    let n = first.text.len() as int;
    let adv = (font::GLYPH_W + 1) * first.xscale;
    if whole.covers(x, y) {
        let (k, row, col) = choose|k: int, row: int, col: int| #[trigger] whole.dot(k, row, col, x, y);
        if k < n {
            assert(first.dot(k, row, col, x, y));
        } else {
            lemma_mul_is_distributive_sub_other_way(adv, k, n);
            assert(second.dot(k - n, row, col, x, y));
        }
    }
    if first.covers(x, y) {
        let (k, row, col) = choose|k: int, row: int, col: int| #[trigger] first.dot(k, row, col, x, y);
        assert(whole.dot(k, row, col, x, y));
    }
    if second.covers(x, y) {
        let (k, row, col) = choose|k: int, row: int, col: int| #[trigger] second.dot(k, row, col, x, y);
        lemma_mul_is_distributive_add_other_way(adv, k, n);
        assert(whole.dot(k + n, row, col, x, y));
    }
}

/// Drawing a text is drawing its first part, and then the rest where that part
/// ends: the frame and the column past the text are the same.
pub proof fn text_is_drawn_in_parts(
    first: Lettering,
    more: Seq<char>,
    c: Rgb,
    before: &Frame,
    between: &Frame,
    after: &Frame,
    whole: &Frame,
)
    requires
        before.wf(),
        between.lettered(before, first, c),
        after.lettered(between, first.followed_by(more), c),
        whole.lettered(before, (Lettering { text: first.text + more, ..first }), c),
    ensures
        after.resembles(whole),
        after.rgb@ == whole.rgb@,
        first.followed_by(more).end() == (Lettering { text: first.text + more, ..first }).end(),
{
    let adv = (font::GLYPH_W + 1) * first.xscale;
    lemma_mul_is_distributive_add_other_way(adv, first.text.len() as int, more.len() as int);
    assert forall|x: int, y: int| whole.has(x, y) implies #[trigger] whole.pixel(x, y) == after.pixel(x, y) by {
        lemma_parts_cover(first, more, x, y);
        assert(before.has(x, y) && between.has(x, y));
        assert(between.pixel(x, y) == between.pixel(x, y));
    }
    lemma_same_pixels(whole, after);
}

/// Drawing no text changes no pixel and moves no column.
pub proof fn no_text_draws_nothing(l: Lettering, c: Rgb, before: &Frame, after: &Frame)
    requires
        l.text.len() == 0,
        before.wf(),
        after.lettered(before, l, c),
    ensures
        after.rgb@ == before.rgb@,
        l.end() == l.x,
        forall|x: int, y: int| !l.covers(x, y),
{
    assert forall|x: int, y: int| before.has(x, y) implies #[trigger] before.pixel(x, y) == after.pixel(x, y) by {
        assert(!l.covers(x, y));
    }
    lemma_same_pixels(before, after);
}

} // verus!
