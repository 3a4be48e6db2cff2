//! How the grid fits the terminal and the image.

use crate::binary64;
use crate::render;
use vstd::arithmetic::div_mod::*;
use vstd::arithmetic::mul::*;
use vstd::arithmetic::power2::*;
use vstd::prelude::*;

verus! {

/// The grid never exceeds the terminal, and fills it in one direction.
///
/// From 2^52 columns on, doubles no longer hold halves of a column and the
/// rounded product of rows and ratio can come out a column too wide.
pub proof fn grid_fits(img_w: usize, img_h: usize, term_cols: usize, term_rows: usize)
    requires
        0 < img_w,
        0 < img_h,
        0 < term_cols < binary64::LOW,
        0 < term_rows,
    ensures
        ({
            let (cols, rows) = render::grid(img_w as nat, img_h as nat, term_cols as nat, term_rows as nat);
            &&& 1 <= cols <= term_cols
            &&& 1 <= rows <= term_rows
            &&& cols == term_cols || rows == term_rows
        }),
{
    let ratio = binary64::product(
        binary64::quotient(binary64::of_nat(img_w as nat), binary64::of_nat(img_h as nat)),
        binary64::of_nat(render::CHAR_ASPECT as nat),
    );
    let rows = binary64::floor(binary64::quotient(binary64::of_nat(term_cols as nat), ratio));
    if binary64::saturated(rows) > term_rows {
        lemma_ratio(img_w as nat, img_h as nat);
        lemma_columns(term_cols as nat, term_rows as nat, ratio);
    }
}

/// The ratio of columns to rows is a positive number of moderate size.
proof fn lemma_ratio(img_w: nat, img_h: nat)
    requires
        0 < img_w <= u64::MAX,
        0 < img_h <= u64::MAX,
    ensures
        ({
            let ratio = binary64::product(
                binary64::quotient(binary64::of_nat(img_w), binary64::of_nat(img_h)),
                binary64::of_nat(render::CHAR_ASPECT as nat),
            );
            &&& 0 < ratio.m <= binary64::HIGH
            &&& -530 <= ratio.e <= 530
        }),
{
    let w = binary64::of_nat(img_w);
    let h = binary64::of_nat(img_h);
    let aspect = binary64::of_nat(render::CHAR_ASPECT as nat);
    binary64::lemma_of_nat(img_w);
    binary64::lemma_of_nat(img_h);
    binary64::lemma_of_nat(render::CHAR_ASPECT as nat);
    assert(w.m <= binary64::HIGH * binary64::HIGH);
    binary64::lemma_exponent(w.m, h.m, w.e - h.e);
    let sides = binary64::quotient(w, h);
    assert(0 < sides.m * aspect.m <= binary64::HIGH * binary64::HIGH) by (nonlinear_arith)
        requires
            0 < sides.m <= binary64::HIGH,
            0 < aspect.m <= binary64::HIGH,
    ;
    binary64::lemma_exponent(sides.m * aspect.m, 1, sides.e + aspect.e);
}

/// Where the rows that fit the columns exceed the terminal, the columns that
/// fit the terminal's rows do not.
proof fn lemma_columns(cols: nat, rows: nat, ratio: binary64::Dyadic)
    requires
        0 < cols < binary64::LOW,
        0 < rows <= u64::MAX,
        0 < ratio.m <= binary64::HIGH,
        -530 <= ratio.e <= 530,
        binary64::floor(binary64::quotient(binary64::of_nat(cols), ratio)) > rows,
    ensures
        binary64::floor(binary64::product(binary64::of_nat(rows), ratio)) <= cols,
{
    let a = binary64::of_nat(cols);
    let t = binary64::of_nat(rows);
    let q = binary64::quotient(a, ratio);
    let p = binary64::product(t, ratio);
    let u = binary64::unit(0);
    let half = binary64::unit(-1);
    lemma_pow2_pos(binary64::SCALE as nat);
    binary64::lemma_of_nat(cols);
    binary64::lemma_of_nat(rows);
    assert(a.m <= binary64::HIGH * binary64::HIGH);
    binary64::lemma_exponent(a.m, ratio.m, a.e - ratio.e);
    binary64::lemma_error(a.m, ratio.m, a.e - ratio.e);
    binary64::lemma_floor(q);

    // rounding `rows` stays below the representable `q`
    binary64::lemma_exact(q.m, q.e);
    assert(rows * u <= binary64::scaled(q)) by {
        lemma_mul_inequality(rows as int, binary64::floor(q) as int, u as int);
    }
    assert(rows <= binary64::HIGH * binary64::HIGH);
    assert(q.m <= binary64::HIGH * binary64::HIGH);
    binary64::lemma_monotone(rows, 1, 0, q.m, 1, q.e);
    assert(binary64::scaled(t) <= binary64::scaled(q));

    // so the product is at most `cols` and half a column
    let x = (t.m * ratio.m) * binary64::unit(t.e + ratio.e);
    let n = a.m * binary64::unit(a.e - ratio.e);
    let r = binary64::unit(ratio.e);
    binary64::lemma_units(t.e, ratio.e);
    binary64::lemma_units(a.e - ratio.e, ratio.e);
    assert(a.e - ratio.e + ratio.e == a.e);
    assert(n * r == cols * u * u) by {
        let (k, w) = (binary64::unit(a.e - ratio.e), binary64::unit(a.e));
        assert(a.m * k * r == a.m * (k * r)) by (nonlinear_arith);
        assert(a.m * (w * u) == a.m * w * u) by (nonlinear_arith);
    }
    lemma_cross(x as int, t, q, ratio, n as int, r as int, u as int, cols as int);
    assert(2 * half == u) by {
        lemma_pow2_unfold(binary64::SCALE as nat);
    }
    assert(x <= (2 * cols + 1) * half) by (nonlinear_arith)
        requires
            2 * x <= (2 * cols + 1) * u,
            2 * half == u,
    ;
    assert(0 < t.m * ratio.m <= binary64::HIGH * binary64::HIGH) by (nonlinear_arith)
        requires
            0 < t.m <= binary64::HIGH,
            0 < ratio.m <= binary64::HIGH,
    ;
    assert(2 * cols + 1 <= binary64::HIGH);
    assert(2 * cols + 1 <= binary64::HIGH * binary64::HIGH);
    binary64::lemma_exact(2 * cols + 1, -1);
    binary64::lemma_monotone(t.m * ratio.m, 1, t.e + ratio.e, 2 * cols + 1, 1, -1);
    binary64::lemma_exponent(t.m * ratio.m, 1, t.e + ratio.e);
    binary64::lemma_floor(p);
    let f = binary64::floor(p);
    if f >= cols + 1 {
        assert(f * u >= (cols + 1) * u) by {
            lemma_mul_inequality(cols as int + 1, f as int, u as int);
        }
        assert((2 * cols + 1) * half < (cols + 1) * u) by (nonlinear_arith)
            requires
                2 * half == u,
                u > 0,
        ;
    }
}

/// The product of the rounded rows with the ratio, from the rounding error of
/// the quotient.
proof fn lemma_cross(
    x: int,
    t: binary64::Dyadic,
    q: binary64::Dyadic,
    ratio: binary64::Dyadic,
    n: int,
    r: int,
    u: int,
    cols: int,
)
    requires
        u > 0,
        r >= 0,
        0 < cols < binary64::LOW,
        binary64::scaled(t) <= binary64::scaled(q),
        2 * (binary64::scaled(q) * ratio.m - n) <= binary64::unit(q.e) * ratio.m,
        binary64::LOW * binary64::unit(q.e) * ratio.m <= n,
        r == binary64::unit(ratio.e),
        x == (t.m * ratio.m) * binary64::unit(t.e + ratio.e),
        binary64::unit(t.e + ratio.e) * u == binary64::unit(t.e) * r,
        n * r == cols * u * u,
    ensures
        2 * x <= (2 * cols + 1) * u,
{
    let low = binary64::LOW as int;
    let st = binary64::scaled(t) as int;
    let sq = binary64::scaled(q) as int;
    let m = ratio.m as int;
    let w = binary64::unit(t.e) as int;
    let v = binary64::unit(t.e + ratio.e) as int;
    let e = binary64::unit(q.e) as int * m;
    assert(low * e <= n) by {
        lemma_mul_is_associative(low, binary64::unit(q.e) as int, m);
    }
    // 2 low sq m <= (2 low + 1) n
    assert(2 * low * (sq * m) <= (2 * low + 1) * n) by (nonlinear_arith)
        requires
            2 * (sq * m - n) <= e,
            low * e <= n,
            low > 0,
    ;
    assert(x * u == st * m * r) by {
        assert(x * u == (t.m * m) * (v * u)) by (nonlinear_arith)
            requires
                x == (t.m * m) * v,
        ;
        assert((t.m * m) * (w * r) == (t.m * w) * m * r) by (nonlinear_arith);
        assert(st == t.m * w);
    }
    assert(st * m * r <= sq * m * r) by (nonlinear_arith)
        requires
            st <= sq,
            m >= 0,
            r >= 0,
    ;
    assert(2 * low * (sq * m) * r <= (2 * low + 1) * n * r) by (nonlinear_arith)
        requires
            2 * low * (sq * m) <= (2 * low + 1) * n,
            r >= 0,
    ;
    assert(2 * low * (sq * m) * r == 2 * low * (sq * m * r)) by (nonlinear_arith);
    assert(2 * low * (x * u) <= 2 * low * (sq * m * r)) by (nonlinear_arith)
        requires
            x * u <= sq * m * r,
            low > 0,
    ;
    assert((2 * low + 1) * n * r == (2 * low + 1) * (n * r)) by (nonlinear_arith);
    assert((2 * low + 1) * (cols * u * u) <= low * (2 * cols + 1) * u * u) by (nonlinear_arith)
        requires
            0 < cols < low,
            u > 0,
    ;
    assert(2 * low * (x * u) == low * u * (2 * x)) by (nonlinear_arith);
    assert(low * (2 * cols + 1) * u * u == low * u * ((2 * cols + 1) * u)) by (nonlinear_arith);
    assert(2 * x <= (2 * cols + 1) * u) by (nonlinear_arith)
        requires
            low * u * (2 * x) <= low * u * ((2 * cols + 1) * u),
            low * u > 0,
    ;
}

/// Whether `a` and `b` are the same up to the rounding of six doubles.
spec fn about(a: int, b: int) -> bool {
    let (f, g) = (sixth(binary64::HIGH as int), sixth(binary64::HIGH + 1));
    a * f <= b * g && b * f <= a * g
}

spec fn sixth(x: int) -> int {
    x * x * x * x * x * x
}

/// `a` and `b` differ by at most one part in 2^53.
spec fn near(a: int, b: int) -> bool {
    let h = binary64::HIGH as int;
    h * a <= (h + 1) * b && h * b <= (h + 1) * a
}

/// Four numbers rounded one from the other, as the ratio is: `a` over `b` to `s`,
/// and twice `s` to `r`.
proof fn lemma_ratio_error(w: int, h: int, a: int, b: int, s: int, r: int, u: int)
    requires
        w > 0,
        h > 0,
        a >= 0,
        b >= 0,
        s >= 0,
        r >= 0,
        u > 0,
        near(a, w * u),
        near(b, h * u),
        near(s * b, a * u),
        near(r, 2 * s),
    ensures
        ({
            let (f, g) = (binary64::HIGH as int, binary64::HIGH + 1);
            &&& r * h * (f * f * f * f) <= 2 * w * u * (g * g * g * g)
            &&& 2 * w * u * (f * f * f * f) <= r * h * (g * g * g * g)
        }),
{
    let (f, g) = (binary64::HIGH as int, binary64::HIGH + 1);
    lemma_chain(w, h, a, b, s, r, u, f, g);
    lemma_chain_back(w, h, a, b, s, r, u, g, f);
}

/// One direction of the chain of roundings: each step gains at most `g` over `f`.
proof fn lemma_chain(w: int, h: int, a: int, b: int, s: int, r: int, u: int, f: int, g: int)
    requires
        w > 0,
        h > 0,
        a >= 0,
        b >= 0,
        s >= 0,
        r >= 0,
        u > 0,
        f > 0,
        g > 0,
        f * a <= g * (w * u),
        f * (h * u) <= g * b,
        f * (s * b) <= g * (a * u),
        f * r <= g * (2 * s),
    ensures
        r * h * (f * f * f * f) <= 2 * w * u * (g * g * g * g),
{
    // r f <= 2 s g
    assert(f * r * (b * f) <= g * (2 * s) * (b * f)) by (nonlinear_arith)
        requires
            f * r <= g * (2 * s),
            b * f >= 0,
    ;
    assert(g * (2 * s) * (b * f) == 2 * g * (f * (s * b))) by (nonlinear_arith);
    assert(2 * g * (f * (s * b)) <= 2 * g * (g * (a * u))) by (nonlinear_arith)
        requires
            f * (s * b) <= g * (a * u),
            g > 0,
    ;
    // r b f^2 <= 2 a u g^2
    assert(f * r * (b * f) * f <= 2 * g * (g * (a * u)) * f) by (nonlinear_arith)
        requires
            f * r * (b * f) <= 2 * g * (g * (a * u)),
            f > 0,
    ;
    assert(2 * g * (g * (a * u)) * f == 2 * g * g * u * (f * a)) by (nonlinear_arith);
    assert(2 * g * g * u * (f * a) <= 2 * g * g * u * (g * (w * u))) by (nonlinear_arith)
        requires
            f * a <= g * (w * u),
            g > 0,
            u > 0,
    ;
    // r b f^3 <= 2 w u^2 g^3
    assert(f * r * (b * f) * f * g <= 2 * g * g * u * (g * (w * u)) * g) by (nonlinear_arith)
        requires
            f * r * (b * f) * f <= 2 * g * g * u * (g * (w * u)),
            g > 0,
    ;
    assert(f * r * (b * f) * f * g == r * (f * f * f) * (g * b)) by (nonlinear_arith);
    assert(r * (f * f * f) * (f * (h * u)) <= r * (f * f * f) * (g * b)) by (nonlinear_arith)
        requires
            f * (h * u) <= g * b,
            r * (f * f * f) >= 0,
    ;
    assert(r * (f * f * f) * (f * (h * u)) == r * h * (f * f * f * f) * u) by (nonlinear_arith);
    assert(2 * g * g * u * (g * (w * u)) * g == 2 * w * u * (g * g * g * g) * u) by (nonlinear_arith);
    assert(r * h * (f * f * f * f) <= 2 * w * u * (g * g * g * g)) by (nonlinear_arith)
        requires
            r * h * (f * f * f * f) * u <= 2 * w * u * (g * g * g * g) * u,
            u > 0,
    ;
}

/// The other direction: each step gains at least `g` over `f`.
proof fn lemma_chain_back(w: int, h: int, a: int, b: int, s: int, r: int, u: int, f: int, g: int)
    requires
        w > 0,
        h > 0,
        a >= 0,
        b >= 0,
        s >= 0,
        r >= 0,
        u > 0,
        f > 0,
        g > 0,
        f * a >= g * (w * u),
        f * (h * u) >= g * b,
        f * (s * b) >= g * (a * u),
        f * r >= g * (2 * s),
    ensures
        r * h * (f * f * f * f) >= 2 * w * u * (g * g * g * g),
{
    // r f >= 2 s g
    assert(f * r * (b * f) >= g * (2 * s) * (b * f)) by (nonlinear_arith)
        requires
            f * r >= g * (2 * s),
            b * f >= 0,
    ;
    assert(g * (2 * s) * (b * f) == 2 * g * (f * (s * b))) by (nonlinear_arith);
    assert(2 * g * (f * (s * b)) >= 2 * g * (g * (a * u))) by (nonlinear_arith)
        requires
            f * (s * b) >= g * (a * u),
            g > 0,
    ;
    // r b f^2 >= 2 a u g^2
    assert(f * r * (b * f) * f >= 2 * g * (g * (a * u)) * f) by (nonlinear_arith)
        requires
            f * r * (b * f) >= 2 * g * (g * (a * u)),
            f > 0,
    ;
    assert(2 * g * (g * (a * u)) * f == 2 * g * g * u * (f * a)) by (nonlinear_arith);
    assert(2 * g * g * u * (f * a) >= 2 * g * g * u * (g * (w * u))) by (nonlinear_arith)
        requires
            f * a >= g * (w * u),
            g > 0,
            u > 0,
    ;
    // r b f^3 >= 2 w u^2 g^3
    assert(f * r * (b * f) * f * g >= 2 * g * g * u * (g * (w * u)) * g) by (nonlinear_arith)
        requires
            f * r * (b * f) * f >= 2 * g * g * u * (g * (w * u)),
            g > 0,
    ;
    assert(f * r * (b * f) * f * g == r * (f * f * f) * (g * b)) by (nonlinear_arith);
    assert(r * (f * f * f) * (f * (h * u)) >= r * (f * f * f) * (g * b)) by (nonlinear_arith)
        requires
            f * (h * u) >= g * b,
            r * (f * f * f) >= 0,
    ;
    assert(r * (f * f * f) * (f * (h * u)) == r * h * (f * f * f * f) * u) by (nonlinear_arith);
    assert(2 * g * g * u * (g * (w * u)) * g == 2 * w * u * (g * g * g * g) * u) by (nonlinear_arith);
    assert(r * h * (f * f * f * f) >= 2 * w * u * (g * g * g * g)) by (nonlinear_arith)
        requires
            r * h * (f * f * f * f) * u >= 2 * w * u * (g * g * g * g) * u,
            u > 0,
    ;
}

/// A rounded quotient is near the quotient of the scaled numbers.
proof fn lemma_quotient_near(a: binary64::Dyadic, b: binary64::Dyadic)
    requires
        0 < a.m <= binary64::HIGH,
        0 < b.m <= binary64::HIGH,
        -1_000 <= a.e <= 1_000,
        -1_000 <= b.e <= 1_000,
    ensures
        near(
            (binary64::scaled(binary64::quotient(a, b)) * binary64::scaled(b)) as int,
            (binary64::scaled(a) * binary64::unit(0)) as int,
        ),
{
    let h = binary64::HIGH as int;
    let q = binary64::scaled(binary64::quotient(a, b)) as int;
    let k = binary64::unit(a.e - b.e) as int;
    let c = binary64::unit(b.e) as int;
    let (m, n) = (a.m as int, b.m as int);
    let u = binary64::unit(0) as int;
    assert(a.m <= binary64::HIGH * binary64::HIGH);
    binary64::lemma_relative(a.m, b.m, a.e - b.e);
    binary64::lemma_units(a.e - b.e, b.e);
    assert(a.e - b.e + b.e == a.e);
    let (x, y) = (q * n, m * k);
    assert(q * (n * c) == x * c) by (nonlinear_arith)
        requires
            x == q * n,
    ;
    assert(y * c == m * (k * c)) by (nonlinear_arith)
        requires
            y == m * k,
    ;
    let e = binary64::unit(a.e) as int;
    assert(m * (e * u) == m * e * u) by (nonlinear_arith);
    assert(h * (x * c) <= (h + 1) * (y * c) && h * (y * c) <= (h + 1) * (x * c)) by (nonlinear_arith)
        requires
            h * x <= (h + 1) * y,
            h * y <= (h + 1) * x,
            c >= 0,
    ;
}

/// A rounded product is near the product of the scaled numbers.
proof fn lemma_product_near(a: binary64::Dyadic, b: binary64::Dyadic)
    requires
        0 < a.m <= binary64::HIGH,
        0 < b.m <= binary64::HIGH,
        -1_000 <= a.e <= 1_000,
        -1_000 <= b.e <= 1_000,
    ensures
        near(
            (binary64::scaled(binary64::product(a, b)) * binary64::unit(0)) as int,
            (binary64::scaled(a) * binary64::scaled(b)) as int,
        ),
{
    let h = binary64::HIGH as int;
    let p = binary64::scaled(binary64::product(a, b)) as int;
    let k = binary64::unit(a.e + b.e) as int;
    let (c, d) = (binary64::unit(a.e) as int, binary64::unit(b.e) as int);
    let (m, n) = (a.m as int, b.m as int);
    let u = binary64::unit(0) as int;
    assert(0 < a.m * b.m <= binary64::HIGH * binary64::HIGH) by (nonlinear_arith)
        requires
            0 < a.m <= binary64::HIGH,
            0 < b.m <= binary64::HIGH,
    ;
    binary64::lemma_relative(a.m * b.m, 1, a.e + b.e);
    binary64::lemma_units(a.e, b.e);
    let y = m * n * k;
    assert(p * 1 == p);
    assert(y * u == m * n * (k * u)) by (nonlinear_arith)
        requires
            y == m * n * k,
    ;
    assert(m * n * (c * d) == (m * c) * (n * d)) by (nonlinear_arith);
    assert(h * (p * u) <= (h + 1) * (y * u) && h * (y * u) <= (h + 1) * (p * u)) by (nonlinear_arith)
        requires
            h * p <= (h + 1) * y,
            h * y <= (h + 1) * p,
            u >= 0,
    ;
}

/// A rounded integer is near the integer.
proof fn lemma_integer_near(n: nat)
    requires
        0 < n <= u64::MAX,
    ensures
        near(binary64::scaled(binary64::of_nat(n)) as int, (n * binary64::unit(0)) as int),
{
    assert(n <= binary64::HIGH * binary64::HIGH);
    binary64::lemma_relative(n, 1, 0);
    let r = binary64::scaled(binary64::of_nat(n)) as int;
    assert(r * 1 == r);
}

/// The ratio of columns to rows that the grid is laid out with.
spec fn ratio_of(img_w: nat, img_h: nat) -> binary64::Dyadic {
    binary64::product(
        binary64::quotient(binary64::of_nat(img_w), binary64::of_nat(img_h)),
        binary64::of_nat(render::CHAR_ASPECT as nat),
    )
}

/// The ratio is twice the width over the height, up to four roundings.
proof fn lemma_ratio_near(img_w: nat, img_h: nat)
    requires
        0 < img_w <= u64::MAX,
        0 < img_h <= u64::MAX,
    ensures
        ({
            let (f, g) = (binary64::HIGH as int, binary64::HIGH + 1);
            let r = binary64::scaled(ratio_of(img_w, img_h)) as int;
            let u = binary64::unit(0) as int;
            &&& r * img_h * (f * f * f * f) <= 2 * img_w * u * (g * g * g * g)
            &&& 2 * img_w * u * (f * f * f * f) <= r * img_h * (g * g * g * g)
        }),
{
    let w = binary64::of_nat(img_w);
    let h = binary64::of_nat(img_h);
    let two = binary64::of_nat(render::CHAR_ASPECT as nat);
    let sides = binary64::quotient(w, h);
    let u = binary64::unit(0) as int;
    lemma_pow2_pos(binary64::SCALE as nat);
    binary64::lemma_of_nat(img_w);
    binary64::lemma_of_nat(img_h);
    binary64::lemma_of_nat(render::CHAR_ASPECT as nat);
    assert(w.m <= binary64::HIGH * binary64::HIGH);
    binary64::lemma_exponent(w.m, h.m, w.e - h.e);
    lemma_integer_near(img_w);
    lemma_integer_near(img_h);
    lemma_quotient_near(w, h);
    lemma_product_near(sides, two);
    let s = binary64::scaled(sides) as int;
    let r = binary64::scaled(ratio_of(img_w, img_h)) as int;
    assert(binary64::scaled(two) == 2 * u);
    assert(near(r, 2 * s)) by {
        let f = binary64::HIGH as int;
        assert(s * (2 * u) == 2 * s * u) by (nonlinear_arith);
        assert(f * r <= (f + 1) * (2 * s) && f * (2 * s) <= (f + 1) * r) by (nonlinear_arith)
            requires
                f * (r * u) <= (f + 1) * (2 * s * u),
                f * (2 * s * u) <= (f + 1) * (r * u),
                u > 0,
        ;
    }
    lemma_ratio_error(
        img_w as int,
        img_h as int,
        binary64::scaled(w) as int,
        binary64::scaled(h) as int,
        s,
        r,
        u,
    );
}

/// Two more roundings: a size over the ratio.
proof fn lemma_rows_error(w: int, h: int, t: int, a: int, q: int, r: int, u: int)
    requires
        w > 0,
        h > 0,
        t > 0,
        u > 0,
        a >= 0,
        q >= 0,
        r >= 0,
        near(a, t * u),
        near(q * r, a * u),
        ({
            let (f, g) = (binary64::HIGH as int, binary64::HIGH + 1);
            &&& r * h * (f * f * f * f) <= 2 * w * u * (g * g * g * g)
            &&& 2 * w * u * (f * f * f * f) <= r * h * (g * g * g * g)
        }),
    ensures
        about(q * (2 * w), t * h * u),
{
    let (f, g) = (binary64::HIGH as int, binary64::HIGH + 1);
    // q r f^2 <= t u^2 g^2, and back
    lemma_two_steps(q * r, a, t, u, f, g);
    lemma_six(q, r, w, h, t, u, f, g);
    assert(t * u * u * (f * f) <= q * r * (g * g)) by {
        assert(f * (a * u) * f <= (g * (q * r)) * f) by (nonlinear_arith)
            requires
                f * (a * u) <= g * (q * r),
                f > 0,
        ;
        assert(f * (t * u) * (u * f) <= g * a * (u * f)) by (nonlinear_arith)
            requires
                f * (t * u) <= g * a,
                u * f >= 0,
        ;
        assert(f * (t * u) * (u * f) == t * u * u * (f * f)) by (nonlinear_arith);
        assert(g * a * (u * f) == g * (f * (a * u))) by (nonlinear_arith);
        assert(g * (f * (a * u)) <= g * (g * (q * r))) by (nonlinear_arith)
            requires
                f * (a * u) <= g * (q * r),
                g > 0,
        ;
        assert(g * (g * (q * r)) == q * r * (g * g)) by (nonlinear_arith);
    }
    lemma_six_back(q, r, w, h, t, u, f, g);
}

proof fn lemma_two_steps(x: int, a: int, t: int, u: int, f: int, g: int)
    requires
        f > 0,
        g > 0,
        u > 0,
        f * x <= g * (a * u),
        f * a <= g * (t * u),
    ensures
        x * (f * f) <= t * u * u * (g * g),
{
    assert(f * x * f <= g * (a * u) * f) by (nonlinear_arith)
        requires
            f * x <= g * (a * u),
            f > 0,
    ;
    assert(g * (a * u) * f == g * u * (f * a)) by (nonlinear_arith);
    assert(g * u * (f * a) <= g * u * (g * (t * u))) by (nonlinear_arith)
        requires
            f * a <= g * (t * u),
            g > 0,
            u > 0,
    ;
    assert(g * u * (g * (t * u)) == t * u * u * (g * g)) by (nonlinear_arith);
    assert(f * x * f == x * (f * f)) by (nonlinear_arith);
}

/// The same factors in another order.
proof fn lemma_regroup(t: int, u: int, h: int, x: int, y: int)
    ensures
        t * u * u * x * (h * y) == t * h * u * (x * y) * u,
{
    let (a, k) = (t * u * u, x * y);
    lemma_mul_is_associative(a, x, h * y);
    assert(x * (h * y) == h * k) by (nonlinear_arith)
        requires
            k == x * y,
    ;
    lemma_mul_is_associative(a, h, k);
    assert(a * h == t * h * u * u) by (nonlinear_arith)
        requires
            a == t * u * u,
    ;
    let b = t * h * u;
    lemma_mul_is_associative(b, u, k);
    lemma_mul_is_commutative(u, k);
    lemma_mul_is_associative(b, k, u);
}

/// Six roundings in one direction.
proof fn lemma_six(q: int, r: int, w: int, h: int, t: int, u: int, f: int, g: int)
    requires
        q >= 0,
        h > 0,
        u > 0,
        f > 0,
        g > 0,
        q * r * (f * f) <= t * u * u * (g * g),
        2 * w * u * (f * f * f * f) <= r * h * (g * g * g * g),
    ensures
        q * (2 * w) * sixth(f) <= t * h * u * sixth(g),
{
    let (f2, f4, g2, g4) = (f * f, f * f * f * f, g * g, g * g * g * g);
    lemma_mul_nonnegative(q, f2);
    assert(q * f2 * (2 * w * u * f4) <= q * f2 * (r * h * g4)) by (nonlinear_arith)
        requires
            2 * w * u * f4 <= r * h * g4,
            q * f2 >= 0,
    ;
    assert(q * f2 * (r * h * g4) == q * r * f2 * (h * g4)) by (nonlinear_arith);
    assert(h * g4 >= 0) by (nonlinear_arith)
        requires
            h > 0,
            g > 0,
            g4 == g * g * g * g,
    ;
    assert(q * r * f2 * (h * g4) <= t * u * u * g2 * (h * g4)) by (nonlinear_arith)
        requires
            q * r * f2 <= t * u * u * g2,
            h * g4 >= 0,
    ;
    assert(q * f2 * (2 * w * u * f4) == q * (2 * w) * (f2 * f4) * u) by (nonlinear_arith);
    lemma_regroup(t, u, h, g2, g4);
    assert(f2 * f4 == sixth(f)) by (nonlinear_arith)
        requires
            f2 == f * f,
            f4 == f * f * f * f,
    ;
    assert(g2 * g4 == sixth(g)) by (nonlinear_arith)
        requires
            g2 == g * g,
            g4 == g * g * g * g,
    ;
    let (l, m) = (q * (2 * w) * sixth(f), t * h * u * sixth(g));
    assert(l <= m) by (nonlinear_arith)
        requires
            l * u <= m * u,
            u > 0,
    ;
}

/// Six roundings in the other direction.
proof fn lemma_six_back(q: int, r: int, w: int, h: int, t: int, u: int, f: int, g: int)
    requires
        q >= 0,
        h > 0,
        u > 0,
        f > 0,
        g > 0,
        t * u * u * (f * f) <= q * r * (g * g),
        r * h * (f * f * f * f) <= 2 * w * u * (g * g * g * g),
    ensures
        t * h * u * sixth(f) <= q * (2 * w) * sixth(g),
{
    let (f2, f4, g2, g4) = (f * f, f * f * f * f, g * g, g * g * g * g);
    lemma_mul_nonnegative(q, g2);
    assert(q * g2 * (r * h * f4) <= q * g2 * (2 * w * u * g4)) by (nonlinear_arith)
        requires
            r * h * f4 <= 2 * w * u * g4,
            q * g2 >= 0,
    ;
    assert(q * g2 * (r * h * f4) == q * r * g2 * (h * f4)) by (nonlinear_arith);
    assert(h * f4 >= 0) by (nonlinear_arith)
        requires
            h > 0,
            f > 0,
            f4 == f * f * f * f,
    ;
    assert(t * u * u * f2 * (h * f4) <= q * r * g2 * (h * f4)) by (nonlinear_arith)
        requires
            t * u * u * f2 <= q * r * g2,
            h * f4 >= 0,
    ;
    assert(q * g2 * (2 * w * u * g4) == q * (2 * w) * (g2 * g4) * u) by (nonlinear_arith);
    lemma_regroup(t, u, h, f2, f4);
    assert(f2 * f4 == sixth(f)) by (nonlinear_arith)
        requires
            f2 == f * f,
            f4 == f * f * f * f,
    ;
    assert(g2 * g4 == sixth(g)) by (nonlinear_arith)
        requires
            g2 == g * g,
            g4 == g * g * g * g,
    ;
    let (l, m) = (t * h * u * sixth(f), q * (2 * w) * sixth(g));
    assert(l <= m) by (nonlinear_arith)
        requires
            l * u <= m * u,
            u > 0,
    ;
}

/// Two more roundings: a size times the ratio.
proof fn lemma_cols_error(w: int, h: int, t: int, a: int, p: int, r: int, u: int)
    requires
        w > 0,
        h > 0,
        t > 0,
        u > 0,
        a >= 0,
        p >= 0,
        r >= 0,
        near(a, t * u),
        near(p * u, a * r),
        ({
            let (f, g) = (binary64::HIGH as int, binary64::HIGH + 1);
            &&& r * h * (f * f * f * f) <= 2 * w * u * (g * g * g * g)
            &&& 2 * w * u * (f * f * f * f) <= r * h * (g * g * g * g)
        }),
    ensures
        about(p * h, t * (2 * w) * u),
{
    let (f, g) = (binary64::HIGH as int, binary64::HIGH + 1);
    lemma_times(p, a, t, r, u, f, g);
    lemma_times_six(p, t, r, w, h, u, f, g);
    lemma_times_back(p, a, t, r, u, f, g);
    lemma_times_six_back(p, t, r, w, h, u, f, g);
}

proof fn lemma_times(p: int, a: int, t: int, r: int, u: int, f: int, g: int)
    requires
        f > 0,
        g > 0,
        u > 0,
        r >= 0,
        f * (p * u) <= g * (a * r),
        f * a <= g * (t * u),
    ensures
        p * (f * f) <= t * r * (g * g),
{
    assert(f * (p * u) * f <= g * (a * r) * f) by (nonlinear_arith)
        requires
            f * (p * u) <= g * (a * r),
            f > 0,
    ;
    assert(g * (a * r) * f == g * r * (f * a)) by (nonlinear_arith);
    assert(g * r * (f * a) <= g * r * (g * (t * u))) by (nonlinear_arith)
        requires
            f * a <= g * (t * u),
            g > 0,
            r >= 0,
    ;
    assert(g * r * (g * (t * u)) == t * r * (g * g) * u) by (nonlinear_arith);
    assert(f * (p * u) * f == p * (f * f) * u) by (nonlinear_arith);
    let (x, y) = (p * (f * f), t * r * (g * g));
    assert(x <= y) by (nonlinear_arith)
        requires
            x * u <= y * u,
            u > 0,
    ;
}

proof fn lemma_times_back(p: int, a: int, t: int, r: int, u: int, f: int, g: int)
    requires
        f > 0,
        g > 0,
        u > 0,
        r >= 0,
        f * (a * r) <= g * (p * u),
        f * (t * u) <= g * a,
    ensures
        t * r * (f * f) <= p * (g * g),
{
    assert(f * (t * u) * (r * f) <= g * a * (r * f)) by (nonlinear_arith)
        requires
            f * (t * u) <= g * a,
            f > 0,
            r >= 0,
    ;
    assert(g * a * (r * f) == g * (f * (a * r))) by (nonlinear_arith);
    assert(g * (f * (a * r)) <= g * (g * (p * u))) by (nonlinear_arith)
        requires
            f * (a * r) <= g * (p * u),
            g > 0,
    ;
    assert(g * (g * (p * u)) == p * (g * g) * u) by (nonlinear_arith);
    assert(f * (t * u) * (r * f) == t * r * (f * f) * u) by (nonlinear_arith);
    let (x, y) = (t * r * (f * f), p * (g * g));
    assert(x <= y) by (nonlinear_arith)
        requires
            x * u <= y * u,
            u > 0,
    ;
}

proof fn lemma_times_six(p: int, t: int, r: int, w: int, h: int, u: int, f: int, g: int)
    requires
        t > 0,
        h > 0,
        f > 0,
        g > 0,
        p * (f * f) <= t * r * (g * g),
        r * h * (f * f * f * f) <= 2 * w * u * (g * g * g * g),
    ensures
        p * h * sixth(f) <= t * (2 * w) * u * sixth(g),
{
    let (f2, f4, g2, g4) = (f * f, f * f * f * f, g * g, g * g * g * g);
    assert(h * f4 >= 0) by (nonlinear_arith)
        requires
            h > 0,
            f > 0,
            f4 == f * f * f * f,
    ;
    assert(p * f2 * (h * f4) <= t * r * g2 * (h * f4)) by (nonlinear_arith)
        requires
            p * f2 <= t * r * g2,
            h * f4 >= 0,
    ;
    assert(t * r * g2 * (h * f4) == t * g2 * (r * h * f4)) by (nonlinear_arith);
    assert(t * g2 >= 0) by (nonlinear_arith)
        requires
            t > 0,
            g > 0,
            g2 == g * g,
    ;
    assert(t * g2 * (r * h * f4) <= t * g2 * (2 * w * u * g4)) by (nonlinear_arith)
        requires
            r * h * f4 <= 2 * w * u * g4,
            t * g2 >= 0,
    ;
    assert(p * f2 * (h * f4) == p * h * (f2 * f4)) by (nonlinear_arith);
    assert(t * g2 * (2 * w * u * g4) == t * (2 * w) * u * (g2 * g4)) by (nonlinear_arith);
    assert(f2 * f4 == sixth(f)) by (nonlinear_arith)
        requires
            f2 == f * f,
            f4 == f * f * f * f,
    ;
    assert(g2 * g4 == sixth(g)) by (nonlinear_arith)
        requires
            g2 == g * g,
            g4 == g * g * g * g,
    ;
}

proof fn lemma_times_six_back(p: int, t: int, r: int, w: int, h: int, u: int, f: int, g: int)
    requires
        t > 0,
        h > 0,
        f > 0,
        g > 0,
        t * r * (f * f) <= p * (g * g),
        2 * w * u * (f * f * f * f) <= r * h * (g * g * g * g),
    ensures
        t * (2 * w) * u * sixth(f) <= p * h * sixth(g),
{
    let (f2, f4, g2, g4) = (f * f, f * f * f * f, g * g, g * g * g * g);
    assert(h * g4 >= 0) by (nonlinear_arith)
        requires
            h > 0,
            g > 0,
            g4 == g * g * g * g,
    ;
    assert(t * r * f2 * (h * g4) <= p * g2 * (h * g4)) by (nonlinear_arith)
        requires
            t * r * f2 <= p * g2,
            h * g4 >= 0,
    ;
    assert(t * r * f2 * (h * g4) == t * f2 * (r * h * g4)) by (nonlinear_arith);
    assert(t * f2 >= 0) by (nonlinear_arith)
        requires
            t > 0,
            f > 0,
            f2 == f * f,
    ;
    assert(t * f2 * (2 * w * u * f4) <= t * f2 * (r * h * g4)) by (nonlinear_arith)
        requires
            2 * w * u * f4 <= r * h * g4,
            t * f2 >= 0,
    ;
    assert(p * g2 * (h * g4) == p * h * (g2 * g4)) by (nonlinear_arith);
    assert(t * f2 * (2 * w * u * f4) == t * (2 * w) * u * (f2 * f4)) by (nonlinear_arith);
    assert(f2 * f4 == sixth(f)) by (nonlinear_arith)
        requires
            f2 == f * f,
            f4 == f * f * f * f,
    ;
    assert(g2 * g4 == sixth(g)) by (nonlinear_arith)
        requires
            g2 == g * g,
            g4 == g * g * g * g,
    ;
}

/// The sixth power of one more, by comparison.
proof fn lemma_sixth(h: int)
    requires
        h >= 64,
    ensures
        sixth(h) > 0,
        sixth(h + 1) * h <= sixth(h) * (h + 8),
{
    let h2 = h * h;
    let h3 = h2 * h;
    let h4 = h3 * h;
    let h5 = h4 * h;
    assert(h2 >= 64 * h && h2 > 0) by (nonlinear_arith)
        requires
            h >= 64,
            h2 == h * h,
    ;
    assert(h3 >= 64 * h2) by (nonlinear_arith)
        requires
            h >= 64,
            h2 > 0,
            h3 == h2 * h,
    ;
    assert(h4 >= 64 * h3) by (nonlinear_arith)
        requires
            h >= 64,
            h3 > 0,
            h4 == h3 * h,
    ;
    assert(h5 >= 64 * h4) by (nonlinear_arith)
        requires
            h >= 64,
            h4 > 0,
            h5 == h4 * h,
    ;
    let g = h + 1;
    let g2 = h2 + 2 * h + 1;
    let g3 = h3 + 3 * h2 + 3 * h + 1;
    assert(g * g == g2) by (nonlinear_arith)
        requires
            g == h + 1,
            g2 == h * h + 2 * h + 1,
    ;
    assert(g2 * g == g3) by (nonlinear_arith)
        requires
            g == h + 1,
            g2 == h2 + 2 * h + 1,
            h2 == h * h,
            g3 == h2 * h + 3 * h2 + 3 * h + 1,
    ;
    assert(g3 * g3 == h3 * h3 + 6 * h5 + 15 * h4 + 20 * h3 + 15 * h2 + 6 * h + 1) by {
        let t = 3 * h2 + 3 * h + 1;
        assert((h3 + t) * (h3 + t) == h3 * h3 + 2 * (h3 * t) + t * t) by (nonlinear_arith);
        assert(h3 * t == 3 * h5 + 3 * h4 + h3) by (nonlinear_arith)
            requires
                t == 3 * h2 + 3 * h + 1,
                h3 == h2 * h,
                h4 == h3 * h,
                h5 == h4 * h,
                h2 == h * h,
        ;
        assert(t * t == 9 * h4 + 18 * h3 + 15 * h2 + 6 * h + 1) by (nonlinear_arith)
            requires
                t == 3 * h2 + 3 * h + 1,
                h2 == h * h,
                h3 == h2 * h,
                h4 == h3 * h,
        ;
    }
    assert(sixth(h) == h3 * h3 && sixth(h) == h5 * h) by (nonlinear_arith)
        requires
            sixth(h) == h * h * h * h * h * h,
            h2 == h * h,
            h3 == h2 * h,
            h4 == h3 * h,
            h5 == h4 * h,
    ;
    assert(sixth(g) == g3 * g3) by (nonlinear_arith)
        requires
            sixth(g) == g * g * g * g * g * g,
            g * g == g2,
            g2 * g == g3,
    ;
    let s = sixth(h);
    assert(sixth(g) <= s + 8 * h5);
    assert(sixth(g) * h <= (s + 8 * h5) * h) by (nonlinear_arith)
        requires
            sixth(g) <= s + 8 * h5,
            h > 0,
    ;
    assert((s + 8 * h5) * h == s * (h + 8)) by (nonlinear_arith)
        requires
            s == h5 * h,
    ;
    assert(s > 0) by (nonlinear_arith)
        requires
            s == h5 * h,
            h5 > 0,
            h > 0,
    ;
}

/// Six roundings change a number by less than four parts in 2^52.
proof fn lemma_loosen(a: int, b: int)
    requires
        a >= 0,
        b >= 0,
        about(a, b),
    ensures
        a * binary64::LOW <= b * (binary64::LOW + 4),
        b * binary64::LOW <= a * (binary64::LOW + 4),
{
    let (f, g) = (sixth(binary64::HIGH as int), sixth(binary64::HIGH + 1));
    let low = binary64::LOW as int;
    assert(f > 0 && g * low <= f * (low + 4)) by {
        let h = binary64::HIGH as int;
        lemma_sixth(h);
        assert(h == 2 * low);
        assert(g * low <= f * (low + 4)) by (nonlinear_arith)
            requires
                g * h <= f * (h + 8),
                h == 2 * low,
        ;
    }
    assert(a * f * low <= b * g * low && b * f * low <= a * g * low) by (nonlinear_arith)
        requires
            a * f <= b * g,
            b * f <= a * g,
            low > 0,
    ;
    assert(b * g * low <= b * (f * (low + 4)) && a * g * low <= a * (f * (low + 4))) by (nonlinear_arith)
        requires
            g * low <= f * (low + 4),
            a >= 0,
            b >= 0,
    ;
    assert(a * low <= b * (low + 4) && b * low <= a * (low + 4)) by (nonlinear_arith)
        requires
            a * f * low <= b * (f * (low + 4)),
            b * f * low <= a * (f * (low + 4)),
            f > 0,
    ;
}

/// From a scaled number to its integer part.
proof fn lemma_integer_part(n: int, x: int, k: int, y: int, u: int)
    requires
        u > 0,
        k > 0,
        n >= 0,
        n * u <= x < (n + 1) * u,
        about(x * k, y * u),
        y >= 0,
    ensures
        n * k * binary64::LOW <= y * (binary64::LOW + 4),
        y * binary64::LOW < (n + 1) * k * (binary64::LOW + 4),
{
    let low = binary64::LOW as int;
    assert(0 <= n * u && 0 <= x * k && 0 <= y * u) by (nonlinear_arith)
        requires
            u > 0,
            n >= 0,
            k > 0,
            n * u <= x,
            y >= 0,
    ;
    lemma_loosen(x * k, y * u);
    assert(n * k * low * u <= x * k * low) by (nonlinear_arith)
        requires
            n * u <= x,
            k > 0,
            low > 0,
    ;
    assert(x * k * (low + 4) < (n + 1) * k * (low + 4) * u) by (nonlinear_arith)
        requires
            x < (n + 1) * u,
            k > 0,
            low > 0,
    ;
    assert(y * u * (low + 4) == y * (low + 4) * u && y * u * low == y * low * u) by (nonlinear_arith);
    let (a, b, c, d) = (n * k * low, y * (low + 4), y * low, (n + 1) * k * (low + 4));
    assert(a <= b) by (nonlinear_arith)
        requires
            a * u <= b * u,
            u > 0,
    ;
    assert(c < d) by (nonlinear_arith)
        requires
            c * u < d * u,
            u > 0,
    ;
}

/// Whether a grid shows an image in its aspect ratio: a cell being twice as tall
/// as wide, the side that is fitted is a cell short at most, up to four parts in
/// 2^52 for the rounding of doubles. One cell is the least that is shown.
pub open spec fn fitted(short: nat, full: nat, a: nat, b: nat) -> bool {
    &&& short == 1 || short * a * binary64::LOW <= full * b * (binary64::LOW + 4)
    &&& full * b * binary64::LOW < (short + 1) * a * (binary64::LOW + 4)
}

/// The two candidates for a fitted side, with the bounds that the rounding of
/// doubles leaves.
proof fn grid_parts(img_w: usize, img_h: usize, term_cols: usize, term_rows: usize)
    requires
        0 < img_w,
        0 < img_h,
        0 < term_cols,
        0 < term_rows,
    ensures
        ({
            let ratio = ratio_of(img_w as nat, img_h as nat);
            let rows = binary64::floor(binary64::quotient(binary64::of_nat(term_cols as nat), ratio));
            let cols = binary64::floor(binary64::product(binary64::of_nat(term_rows as nat), ratio));
            let low = binary64::LOW as int;
            &&& rows * (2 * img_w) * low <= term_cols * img_h * (low + 4)
            &&& term_cols * img_h * low < (rows + 1) * (2 * img_w) * (low + 4)
            &&& cols * img_h * low <= term_rows * (2 * img_w) * (low + 4)
            &&& term_rows * (2 * img_w) * low < (cols + 1) * img_h * (low + 4)
        }),
{
    let (w, h, tc, tr) = (img_w as nat, img_h as nat, term_cols as nat, term_rows as nat);
    let ratio = ratio_of(w, h);
    let u = binary64::unit(0) as int;
    let r = binary64::scaled(ratio) as int;
    lemma_pow2_pos(binary64::SCALE as nat);
    lemma_ratio(w, h);
    lemma_ratio_near(w, h);
    let a = binary64::of_nat(tc);
    let q = binary64::quotient(a, ratio);
    binary64::lemma_of_nat(tc);
    assert(a.m <= binary64::HIGH * binary64::HIGH);
    binary64::lemma_exponent(a.m, ratio.m, a.e - ratio.e);
    lemma_integer_near(tc);
    lemma_quotient_near(a, ratio);
    lemma_rows_error(w as int, h as int, tc as int, binary64::scaled(a) as int, binary64::scaled(q) as int, r, u);
    binary64::lemma_floor(q);
    lemma_mul_nonnegative(tc as int, h as int);
    lemma_integer_part(binary64::floor(q) as int, binary64::scaled(q) as int, 2 * w as int, (tc * h) as int, u);
    let t = binary64::of_nat(tr);
    let p = binary64::product(t, ratio);
    binary64::lemma_of_nat(tr);
    lemma_integer_near(tr);
    lemma_product_near(t, ratio);
    lemma_cols_error(w as int, h as int, tr as int, binary64::scaled(t) as int, binary64::scaled(p) as int, r, u);
    assert(0 < t.m * ratio.m <= binary64::HIGH * binary64::HIGH) by (nonlinear_arith)
        requires
            0 < t.m <= binary64::HIGH,
            0 < ratio.m <= binary64::HIGH,
    ;
    binary64::lemma_exponent(t.m * ratio.m, 1, t.e + ratio.e);
    binary64::lemma_floor(p);
    lemma_mul_nonnegative(tr as int, 2 * w as int);
    lemma_integer_part(binary64::floor(p) as int, binary64::scaled(p) as int, h as int, (tr * (2 * w)) as int, u);
}

/// The grid keeps the image's aspect ratio: it fills the terminal in one
/// direction and is fitted in the other.
pub proof fn grid_keeps_the_aspect_ratio(img_w: usize, img_h: usize, term_cols: usize, term_rows: usize)
    requires
        0 < img_w,
        0 < img_h,
        0 < term_cols < binary64::LOW,
        0 < term_rows < usize::MAX,
    ensures
        ({
            let (cols, rows) = render::grid(img_w as nat, img_h as nat, term_cols as nat, term_rows as nat);
            ||| cols == term_cols && fitted(rows, cols, 2 * img_w as nat, img_h as nat)
            ||| rows == term_rows && fitted(cols, rows, img_h as nat, 2 * img_w as nat)
        }),
{
    let (w, h, tc, tr) = (img_w as nat, img_h as nat, term_cols as nat, term_rows as nat);
    let ratio = ratio_of(w, h);
    grid_parts(img_w, img_h, term_cols, term_rows);
    let rows = binary64::floor(binary64::quotient(binary64::of_nat(tc), ratio));
    if binary64::saturated(rows) <= tr {
        if rows == 0 {
            assert(2 * (2 * w as int) * (binary64::LOW + 4) >= 1 * (2 * w as int) * (binary64::LOW + 4));
        }
    } else {
        lemma_ratio(w, h);
        lemma_columns(tc, tr, ratio);
        let cols = binary64::floor(binary64::product(binary64::of_nat(tr), ratio));
        if cols == 0 {
            assert(2 * (h as int) * (binary64::LOW + 4) >= 1 * (h as int) * (binary64::LOW + 4));
        }
    }
}

/// Below 2^48 the rounding of doubles can only take a whole cell away, and only
/// where the fitted side would be a whole number of cells.
proof fn lemma_whole_cells(short: int, k: int, full: int)
    requires
        short >= 0,
        0 < k < 0x1_0000_0000_0000,
        0 <= full < 0x1_0000_0000_0000,
        short * k * binary64::LOW <= full * (binary64::LOW + 4),
        full * binary64::LOW < (short + 1) * k * (binary64::LOW + 4),
    ensures
        short * k <= full <= (short + 1) * k,
        full % k != 0 ==> short == full / k,
        full % k == 0 ==> short == full / k || short == full / k - 1,
{
    let low = binary64::LOW as int;
    let x = short * k;
    assert(x >= 0) by (nonlinear_arith)
        requires
            x == short * k,
            short >= 0,
            k > 0,
    ;
    assert((short + 1) * k == x + k) by (nonlinear_arith)
        requires
            x == short * k,
    ;
    let y = x + k;
    assert(full * (low + 4) == full * low + 4 * full && (full + 1) * low == full * low + low) by (nonlinear_arith);
    assert(y * (low + 4) == y * low + 4 * y && (y + 1) * low == y * low + low) by (nonlinear_arith);
    if x >= full + 1 {
        lemma_mul_inequality(full + 1, x, low);
    }
    if full >= y + 1 {
        lemma_mul_inequality(y + 1, full, low);
    }
    assert(x <= full <= y);
    lemma_fundamental_div_mod(full, k);
    let (q, r) = (full / k, full % k);
    assert(q * k + r == full && 0 <= r < k) by {
        lemma_mul_is_commutative(q, k);
        lemma_mod_bound(full, k);
    }
    assert(short <= q && q <= short + 1 && (q == short + 1 ==> r == 0)) by (nonlinear_arith)
        requires
            short * k <= full,
            full <= (short + 1) * k,
            q * k + r == full,
            0 <= r < k,
            k > 0,
    ;
}

/// The grid in integers, for sizes below 2^23: the fitted side has as many whole
/// cells as the aspect ratio allows, and at least one. This leaves out sizes at
/// which the ratio allows a whole number of cells exactly: there the fitted side
/// can come out one cell less.
pub proof fn grid_in_integers(img_w: usize, img_h: usize, term_cols: usize, term_rows: usize)
    requires
        0 < img_w < 0x80_0000,
        0 < img_h < 0x80_0000,
        0 < term_cols < 0x80_0000,
        0 < term_rows < 0x80_0000,
    ensures
        ({
            let (cols, rows) = render::grid(img_w as nat, img_h as nat, term_cols as nat, term_rows as nat);
            let by_cols = term_cols * img_h;
            let by_rows = term_rows * (2 * img_w);
            let most_rows = by_cols / (2 * img_w as int);
            let most_cols = by_rows / (img_h as int);
            by_cols % (2 * img_w as int) != 0 ==> if most_rows <= term_rows {
                cols == term_cols && rows == render::positive(most_rows as nat)
            } else {
                rows == term_rows && (by_rows % (img_h as int) != 0 ==> cols == render::positive(most_cols as nat))
            }
        }),
{
    let (w, h, tc, tr) = (img_w as nat, img_h as nat, term_cols as nat, term_rows as nat);
    grid_parts(img_w, img_h, term_cols, term_rows);
    let ratio = ratio_of(w, h);
    let rows = binary64::floor(binary64::quotient(binary64::of_nat(tc), ratio));
    let cols = binary64::floor(binary64::product(binary64::of_nat(tr), ratio));
    assert(0 <= tc * h < 0x1_0000_0000_0000 && 0 <= tr * (2 * w) < 0x1_0000_0000_0000) by (nonlinear_arith)
        requires
            0 < w < 0x80_0000,
            0 < h < 0x80_0000,
            0 < tc < 0x80_0000,
            0 < tr < 0x80_0000,
    ;
    lemma_whole_cells(rows as int, 2 * w as int, (tc * h) as int);
    lemma_whole_cells(cols as int, h as int, (tr * (2 * w)) as int);
    if rows > tr {
        lemma_ratio(w, h);
        lemma_columns(tc, tr, ratio);
    }
}

/// The part `x / p` of a size `w`, as doubles go: what comes out, without the
/// fraction, is that part up to four parts in 2^52.
pub proof fn fraction_is_near(x: nat, p: nat, w: nat)
    requires
        0 < x <= p <= u64::MAX,
        0 < w <= u64::MAX,
    ensures
        ({
            let n = binary64::floor(
                binary64::product(binary64::quotient(binary64::of_nat(x), binary64::of_nat(p)), binary64::of_nat(w)),
            );
            let low = binary64::LOW as int;
            &&& n * p * low <= w * x * (low + 4)
            &&& w * x * low < (n + 1) * p * (low + 4)
        }),
{
    let (a, b, c) = (binary64::of_nat(x), binary64::of_nat(p), binary64::of_nat(w));
    let phase = binary64::quotient(a, b);
    let r = binary64::product(phase, c);
    let u = binary64::unit(0) as int;
    lemma_pow2_pos(binary64::SCALE as nat);
    binary64::lemma_of_nat(x);
    binary64::lemma_of_nat(p);
    binary64::lemma_of_nat(w);
    assert(a.m <= binary64::HIGH * binary64::HIGH);
    binary64::lemma_exponent(a.m, b.m, a.e - b.e);
    lemma_integer_near(x);
    lemma_integer_near(p);
    lemma_integer_near(w);
    lemma_quotient_near(a, b);
    lemma_product_near(phase, c);
    assert(0 < phase.m * c.m <= binary64::HIGH * binary64::HIGH) by (nonlinear_arith)
        requires
            0 < phase.m <= binary64::HIGH,
            0 < c.m <= binary64::HIGH,
    ;
    binary64::lemma_exponent(phase.m * c.m, 1, phase.e + c.e);
    binary64::lemma_floor(r);
    let (xs, ps, ws) = (binary64::scaled(a) as int, binary64::scaled(b) as int, binary64::scaled(c) as int);
    let s = binary64::scaled(phase) as int;
    let t = binary64::scaled(r) as int;
    let h = binary64::HIGH as int;
    assert(near(2 * s, 2 * s));
    lemma_ratio_error(x as int, p as int, xs, ps, s, 2 * s, u);
    assert(near(2 * t * u, ws * (2 * s))) by {
        assert(2 * t * u == 2 * (t * u) && ws * (2 * s) == 2 * (s * ws)) by (nonlinear_arith);
    }
    lemma_cols_error(x as int, p as int, w as int, ws, 2 * t, 2 * s, u);
    let y = (w * x) as int;
    assert(about(t * p, y * u)) by {
        let (f, g) = (sixth(h), sixth(h + 1));
        let (k, l) = (t * p, y * u);
        assert(2 * t * p == 2 * k && w * (2 * x) * u == 2 * l) by (nonlinear_arith)
            requires
                k == t * p,
                l == w * x * u,
        ;
        assert(2 * k * f == 2 * (k * f) && 2 * l * g == 2 * (l * g) && 2 * l * f == 2 * (l * f) && 2 * k * g == 2 * (k
            * g)) by (nonlinear_arith);
    }
    lemma_mul_nonnegative(w as int, x as int);
    lemma_integer_part(binary64::floor(r) as int, t, p as int, y, u);
}

/// The same in integers, for products below 2^48: as many as fit, or one less where
/// they fit exactly.
pub proof fn fraction_in_integers(x: nat, p: nat, w: nat)
    requires
        0 < x <= p < 0x1_0000_0000_0000,
        0 < w,
        w * x < 0x1_0000_0000_0000,
    ensures
        ({
            let n = binary64::floor(
                binary64::product(binary64::quotient(binary64::of_nat(x), binary64::of_nat(p)), binary64::of_nat(w)),
            );
            &&& (w * x) % p != 0 ==> n == w * x / p
            &&& (w * x) % p == 0 ==> n == w * x / p || n == w * x / p - 1
        }),
{
    assert(w <= w * x) by (nonlinear_arith)
        requires
            x >= 1,
            w >= 0,
    ;
    fraction_is_near(x, p, w);
    let n = binary64::floor(
        binary64::product(binary64::quotient(binary64::of_nat(x), binary64::of_nat(p)), binary64::of_nat(w)),
    );
    lemma_whole_cells(n as int, p as int, (w * x) as int);
}

} // verus!
