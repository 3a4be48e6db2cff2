//! Arithmetic of IEEE 754 binary64 numbers, carried out on integers.
//!
//! The renderer lays its picture out with double-precision quotients and
//! products of sizes. Such values are never negative, never subnormal and never
//! overflow, so each of them is a significand of 53 bits times a power of two,
//! and each operation is the exact result rounded to the nearest such value,
//! ties to the even significand.

use vstd::arithmetic::div_mod::*;
use vstd::arithmetic::mul::*;
use vstd::arithmetic::power2::*;
use vstd::prelude::*;

verus! {

/// Half of the range of a full significand: 2^52.
pub const LOW: u128 = 0x10_0000_0000_0000;

/// One past the largest significand: 2^53.
pub const HIGH: u128 = 0x20_0000_0000_0000;

/// The number `m * 2^e`.
pub struct Dyadic {
    pub m: nat,
    pub e: int,
}

/// `n / d` rounded to an integer, ties to the even one.
pub open spec fn half_even(n: nat, d: nat) -> nat {
    let q = n / d;
    let r = n % d;
    if 2 * r > d || (2 * r == d && q % 2 == 1) {
        q + 1
    } else {
        q
    }
}

/// The binary64 number nearest to `(n / d) * 2^e`: the quotient is scaled until
/// it lies between 2^52 and 2^53, then rounded to an integer.
pub open spec fn nearest(n: nat, d: nat, e: int) -> Dyadic
    decreases
        (if LOW * d <= n < HIGH * d { 0int } else { 1int }),
        (if n < LOW * d { LOW * d - n } else { n - LOW * d }),
{
    if n == 0 || d == 0 {
        Dyadic { m: 0, e: 0 }
    } else if n < LOW * d {
        nearest(2 * n, d, e - 1)
    } else if n >= HIGH * d {
        nearest(n, 2 * d, e + 1)
    } else {
        Dyadic { m: half_even(n, d), e }
    }
}

/// The integer `n` as a binary64 number.
pub open spec fn of_nat(n: nat) -> Dyadic {
    nearest(n, 1, 0)
}

/// The binary64 quotient of `a` and `b`.
pub open spec fn quotient(a: Dyadic, b: Dyadic) -> Dyadic {
    nearest(a.m, b.m, a.e - b.e)
}

/// The binary64 product of `a` and `b`.
pub open spec fn product(a: Dyadic, b: Dyadic) -> Dyadic {
    nearest(a.m * b.m, 1, a.e + b.e)
}

/// The largest integer that is not above `a`.
pub open spec fn floor(a: Dyadic) -> nat {
    if a.e >= 0 {
        a.m * pow2(a.e as nat)
    } else {
        a.m / pow2((-a.e) as nat)
    }
}

/// `n` as a machine size, or the largest one where it does not fit.
pub open spec fn saturated(n: nat) -> nat {
    if n <= usize::MAX {
        n
    } else {
        usize::MAX as nat
    }
}

/// A non-negative binary64 number: `m * 2^e`.
#[derive(Clone, Copy)]
pub struct Binary64 {
    m: u64,
    e: i32,
}

impl View for Binary64 {
    type V = Dyadic;

    closed spec fn view(&self) -> Dyadic {
        Dyadic { m: self.m as nat, e: self.e as int }
    }
}

impl Binary64 {
    /// The significand has at most 53 bits, and the exponent lies within
    /// `bound` of zero.
    pub open spec fn within(&self, bound: int) -> bool {
        &&& self@.m <= HIGH
        &&& -bound <= self@.e <= bound
    }

    /// The number nearest to `(n / d) * 2^e`.
    fn nearest(n: u128, d: u128, e: i32) -> (r: Binary64)
        requires
            n <= HIGH * HIGH,
            0 < d <= HIGH,
            -10_000 <= e <= 10_000,
        ensures
            r@ == nearest(n as nat, d as nat, e as int),
            r@.m <= HIGH,
            r@.m == 0 <==> n == 0,
            n != 0 ==> e - 107 <= r@.e <= e + 107,
            n == 0 ==> r@.e == 0,
    {
        if n == 0 {
            return Binary64 { m: 0, e: 0 };
        }
        let mut num: u128 = n;
        let mut den: u128 = d;
        let mut exp: i32 = e;
        assert(pow2(0) == 1) by { lemma2_to64(); }
        assert(HIGH * HIGH == pow2(106)) by {
            lemma2_to64();
            lemma2_to64_rest();
            lemma_pow2_adds(53, 53);
        }
        while num < LOW * den
            invariant
                0 < num <= HIGH * HIGH,
                0 < den <= HIGH,
                -10_000 <= e <= 10_000,
                exp <= e,
                pow2((e - exp) as nat) <= num,
                HIGH * HIGH == pow2(106),
                e - exp <= 106,
                nearest(num as nat, den as nat, exp as int) == nearest(n as nat, d as nat, e as int),
            decreases HIGH * den - num,
        {
            proof {
                lemma_pow2_unfold((e - exp + 1) as nat);
                if e - exp + 1 > 106 {
                    lemma_pow2_strictly_increases(106, (e - exp + 1) as nat);
                }
            }
            num = num * 2;
            exp = exp - 1;
        }
        let ghost down = exp as int;
        while num >= HIGH * den
            invariant
                0 < num <= HIGH * HIGH,
                LOW * den <= num,
                0 < den <= 2 * HIGH,
                -10_000 <= e <= 10_000,
                e - 106 <= down <= e,
                down <= exp <= down + 106,
                pow2((exp - down) as nat) <= den,
                nearest(num as nat, den as nat, exp as int) == nearest(n as nat, d as nat, e as int),
            decreases num - LOW * den,
        {
            proof {
                lemma_pow2_unfold((exp - down + 1) as nat);
                if exp - down + 1 > 106 {
                    lemma_pow2_strictly_increases(106, (exp - down + 1) as nat);
                    assert(HIGH * HIGH == pow2(106)) by {
                        lemma2_to64();
                        lemma2_to64_rest();
                        lemma_pow2_adds(53, 53);
                    }
                }
            }
            den = den * 2;
            exp = exp + 1;
        }
        let q: u128 = num / den;
        let r: u128 = num % den;
        proof {
            lemma_fundamental_div_mod(num as int, den as int);
            lemma_quotient_range(num as int, den as int);
        }
        let m: u128 = if 2 * r > den || (2 * r == den && q % 2 == 1) { q + 1 } else { q };
        Binary64 { m: m as u64, e: exp }
    }

    /// The integer `n` as a binary64 number.
    pub fn of_usize(n: usize) -> (r: Binary64)
        ensures
            r@ == of_nat(n as nat),
            r.within(107),
            r@.m == 0 <==> n == 0,
    {
        Self::nearest(n as u128, 1, 0)
    }

    /// The integer `n` as a binary64 number.
    pub fn of_u64(n: u64) -> (r: Binary64)
        ensures
            r@ == of_nat(n as nat),
            r.within(107),
            r@.m == 0 <==> n == 0,
    {
        Self::nearest(n as u128, 1, 0)
    }

    /// The quotient of `self` and `other`.
    pub fn over(self, other: Binary64) -> (r: Binary64)
        requires
            self.within(1_000),
            other.within(1_000),
            other@.m > 0,
        ensures
            r@ == quotient(self@, other@),
            r@.m <= HIGH,
            r@.m == 0 <==> self@.m == 0,
            r@.m > 0 ==> self@.e - other@.e - 107 <= r@.e <= self@.e - other@.e + 107,
            r@.m == 0 ==> r@.e == 0,
    {
        Self::nearest(self.m as u128, other.m as u128, self.e - other.e)
    }

    /// The product of `self` and `other`.
    pub fn times(self, other: Binary64) -> (r: Binary64)
        requires
            self.within(1_000),
            other.within(1_000),
        ensures
            r@ == product(self@, other@),
            r@.m <= HIGH,
            r@.m == 0 <==> self@.m * other@.m == 0,
            r@.m > 0 ==> self@.e + other@.e - 107 <= r@.e <= self@.e + other@.e + 107,
            r@.m == 0 ==> r@.e == 0,
    {
        proof {
            lemma_mul_upper_bound(self.m as int, HIGH as int, other.m as int, HIGH as int);
        }
        Self::nearest(self.m as u128 * other.m as u128, 1, self.e + other.e)
    }

    /// The integer part, or the largest size where it does not fit.
    pub fn to_usize(self) -> (r: usize)
        requires
            self.within(10_000),
        ensures
            r == saturated(floor(self@)),
    {
        let mut v: u128 = self.m as u128;
        let mut i: i32 = 0;
        proof {
            lemma2_to64();
            lemma_mul_basics(self.m as int);
            lemma_div_basics(self.m as int);
            assert(pow2(i as nat) == 1);
        }
        if self.e >= 0 {
            while i < self.e && v <= usize::MAX as u128
                invariant
                    0 <= i <= self.e <= 10_000,
                    v == self.m * pow2(i as nat),
                    v <= 2 * 0xffff_ffff_ffff_ffff,
                decreases self.e - i,
            {
                proof {
                    lemma_pow2_unfold((i + 1) as nat);
                    lemma_mul_is_associative(self.m as int, pow2(i as nat) as int, 2);
                    lemma_mul_is_commutative(pow2(i as nat) as int, 2);
                }
                v = v * 2;
                i = i + 1;
            }
            if v > usize::MAX as u128 {
                proof {
                    if i < self.e {
                        lemma_pow2_strictly_increases(i as nat, self.e as nat);
                    }
                    lemma_mul_inequality(pow2(i as nat) as int, pow2(self.e as nat) as int, self.m as int);
                    lemma_mul_is_commutative(pow2(i as nat) as int, self.m as int);
                    lemma_mul_is_commutative(pow2(self.e as nat) as int, self.m as int);
                }
                return usize::MAX;
            }
            v as usize
        } else {
            while i < -self.e
                invariant
                    0 <= i <= -self.e <= 10_000,
                    v == self.m as nat / pow2(i as nat),
                decreases -self.e - i,
            {
                proof {
                    lemma_pow2_unfold((i + 1) as nat);
                    lemma_pow2_pos(i as nat);
                    lemma_div_denominator(self.m as int, pow2(i as nat) as int, 2);
                    lemma_mul_is_commutative(pow2(i as nat) as int, 2);
                }
                v = v / 2;
                i = i + 1;
            }
            if v > usize::MAX as u128 {
                return usize::MAX;
            }
            v as usize
        }
    }
}

/// How many nanoseconds in a second.
pub const NANOS: u128 = 1_000_000_000;

/// `a` seconds, for `a` below 2^53, to the nearest nanosecond, ties to the even
/// one.
pub open spec fn nanos(a: Dyadic) -> nat {
    half_even(a.m * NANOS as nat, pow2((-a.e) as nat))
}

impl Binary64 {
    /// The number of seconds to the nearest nanosecond.
    pub fn to_nanos(self) -> (r: u64)
        requires
            self@.m <= HIGH,
            self@.e < 0,
            nanos(self@) <= u64::MAX,
        ensures
            r == nanos(self@),
    {
        let n: u128 = self.m as u128 * NANOS;
        let mut d: u128 = 1;
        let mut i: i32 = 0;
        proof {
            lemma2_to64();
            lemma_pow2_pos(100);
        }
        while i < 100 && self.e < -i
            invariant
                0 <= i <= 100,
                self.e <= -i,
                d == pow2(i as nat),
                d <= pow2(100),
            decreases 100 - i,
        {
            proof {
                lemma_pow2_unfold((i + 1) as nat);
                lemma_pow2_adds(50, 50);
                lemma2_to64_rest();
                if i + 1 < 100 {
                    lemma_pow2_strictly_increases((i + 1) as nat, 100);
                }
            }
            d = d * 2;
            i = i + 1;
        }
        proof {
            lemma_pow2_pos((-self.e) as nat);
            lemma_pow2_adds(50, 50);
            lemma2_to64_rest();
        }
        if self.e < -i {
            // less than half a nanosecond
            proof {
                let full = pow2((-self.e) as nat);
                lemma_pow2_strictly_increases(100, (-self.e) as nat);
                lemma_basic_div(n as int, full as int);
                lemma_small_mod(n as nat, full);
            }
            return 0;
        }
        let q: u128 = n / d;
        let r: u128 = n % d;
        let rounded: u128 = if 2 * r > d || (2 * r == d && q % 2 == 1) { q + 1 } else { q };
        rounded as u64
    }
}

/// A quotient of numbers `LOW * den <= num < HIGH * den` lies from `LOW` up to
/// `HIGH`.
proof fn lemma_quotient_range(num: int, den: int)
    requires
        0 < den,
        LOW * den <= num < HIGH * den,
    ensures
        LOW <= num / den < HIGH,
{
    assert(LOW <= num / den < HIGH) by (nonlinear_arith)
        requires
            0 < den,
            LOW * den <= num < HIGH * den,
    ;
}

/// The exponent by which values are scaled up to integers in order to compare
/// them.
pub const SCALE: i32 = 5_000;

/// The value of `a`, scaled by 2^SCALE.
pub open spec fn scaled(a: Dyadic) -> nat {
    a.m * pow2((a.e + SCALE) as nat)
}

/// 2^e, scaled by 2^SCALE.
pub open spec fn unit(e: int) -> nat {
    pow2((e + SCALE) as nat)
}

/// The numerator of a quotient `n / d` that is rounded with exponent `j`.
spec fn numerator(n: nat, j: int) -> nat {
    if j < 0 {
        n * pow2((-j) as nat)
    } else {
        n
    }
}

/// The denominator of a quotient `n / d` that is rounded with exponent `j`.
spec fn denominator(d: nat, j: int) -> nat {
    if j > 0 {
        d * pow2(j as nat)
    } else {
        d
    }
}

/// What is rounded to an integer is the quotient, scaled by the exponent of the
/// result, and lies from 2^52 up to 2^53.
proof fn lemma_normal_form(n: nat, d: nat, e: int)
    requires
        n > 0,
        d > 0,
    ensures
        ({
            let r = nearest(n, d, e);
            let num = numerator(n, r.e - e);
            let den = denominator(d, r.e - e);
            &&& den > 0
            &&& LOW * den <= num < HIGH * den
            &&& r.m == half_even(num, den)
        }),
    decreases
        (if LOW * d <= n < HIGH * d { 0int } else { 1int }),
        (if n < LOW * d { LOW * d - n } else { n - LOW * d }),
{
    let r = nearest(n, d, e);
    lemma2_to64();
    if n < LOW * d {
        lemma_normal_form(2 * n, d, e - 1);
        lemma_falls(2 * n, d, e - 1);
        let j = r.e - (e - 1);
        lemma_pow2_unfold((1 - j) as nat);
        assert(n * pow2((1 - j) as nat) == (2 * n) * pow2((-j) as nat)) by (nonlinear_arith)
            requires
                pow2((1 - j) as nat) == 2 * pow2((-j) as nat),
        ;
        if j == 0 {
            assert(pow2((-j) as nat) == 1);
            lemma_mul_basics(2 * n as int);
        }
        assert(numerator(n, r.e - e) == numerator(2 * n, j));
    } else if n >= HIGH * d {
        lemma_normal_form(n, 2 * d, e + 1);
        lemma_rises(n, 2 * d, e + 1);
        let j = r.e - (e + 1);
        lemma_pow2_unfold((j + 1) as nat);
        assert(d * pow2((j + 1) as nat) == (2 * d) * pow2(j as nat)) by (nonlinear_arith)
            requires
                pow2((j + 1) as nat) == 2 * pow2(j as nat),
        ;
        if j == 0 {
            assert(pow2(j as nat) == 1);
            lemma_mul_basics(2 * d as int);
        }
        assert(denominator(d, r.e - e) == denominator(2 * d, j));
    }
}

/// A quotient below 2^53 is never scaled down.
proof fn lemma_falls(n: nat, d: nat, e: int)
    requires
        0 < n < HIGH * d,
    ensures
        nearest(n, d, e).e <= e,
    decreases
        (if LOW * d <= n < HIGH * d { 0int } else { 1int }),
        HIGH * d - n,
{
    if n < LOW * d {
        lemma_falls(2 * n, d, e - 1);
    }
}

/// A quotient of at least 2^52 is never scaled up.
proof fn lemma_rises(n: nat, d: nat, e: int)
    requires
        0 < d,
        LOW * d <= n,
    ensures
        nearest(n, d, e).e >= e,
    decreases n - LOW * d,
{
    if n >= HIGH * d {
        lemma_rises(n, 2 * d, e + 1);
    }
}

/// The exponent moves by no more than the operands have bits.
pub proof fn lemma_exponent(n: nat, d: nat, e: int)
    requires
        0 < n <= HIGH * HIGH,
        0 < d <= HIGH,
    ensures
        e - 106 <= nearest(n, d, e).e <= e + 106,
        LOW <= nearest(n, d, e).m <= HIGH,
{
    let r = nearest(n, d, e);
    let j = r.e - e;
    lemma_normal_form(n, d, e);
    let num = numerator(n, j);
    let den = denominator(d, j);
    lemma_quotient_range(num as int, den as int);
    assert(HIGH * HIGH == pow2(106)) by {
        lemma2_to64();
        lemma2_to64_rest();
        lemma_pow2_adds(53, 53);
    }
    if j < -106 {
        lemma_pow2_strictly_increases(106, (-j) as nat);
        assert(n * pow2((-j) as nat) >= pow2((-j) as nat)) by (nonlinear_arith)
            requires
                n >= 1,
        ;
        assert(HIGH * d <= HIGH * HIGH);
    }
    if j > 106 {
        lemma_pow2_strictly_increases(106, j as nat);
        assert(d * pow2(j as nat) >= pow2(j as nat)) by (nonlinear_arith)
            requires
                d >= 1,
        ;
    }
}

/// The value that is rounded, in terms of the result's own unit.
proof fn lemma_same_value(n: nat, d: nat, e: int)
    requires
        n > 0,
        d > 0,
        e + SCALE >= 0,
        nearest(n, d, e).e + SCALE >= 0,
    ensures
        ({
            let r = nearest(n, d, e);
            let num = numerator(n, r.e - e);
            let den = denominator(d, r.e - e);
            num * unit(r.e) * d == n * unit(e) * den
        }),
{
    let r = nearest(n, d, e);
    let j = r.e - e;
    if j < 0 {
        lemma_pow2_adds((-j) as nat, (r.e + SCALE) as nat);
        let a = pow2((-j) as nat);
        let b = unit(r.e);
        assert(n * a * b * d == n * (a * b) * d) by (nonlinear_arith);
        assert(a * b == unit(e));
    } else if j > 0 {
        lemma_pow2_adds(j as nat, (e + SCALE) as nat);
        let a = pow2(j as nat);
        let b = unit(e);
        assert(n * (a * b) * d == n * b * (d * a)) by (nonlinear_arith);
        assert(a * b == unit(r.e));
    }
}

/// Rounding changes a value by half a unit of the result at most.
pub proof fn lemma_error(n: nat, d: nat, e: int)
    requires
        0 < n <= HIGH * HIGH,
        0 < d <= HIGH,
        106 <= e + SCALE,
    ensures
        ({
            let r = nearest(n, d, e);
            &&& 2 * (scaled(r) * d - n * unit(e)) <= unit(r.e) * d
            &&& 2 * (n * unit(e) - scaled(r) * d) <= unit(r.e) * d
            &&& LOW * unit(r.e) * d <= n * unit(e) < HIGH * unit(r.e) * d
        }),
{
    let r = nearest(n, d, e);
    lemma_exponent(n, d, e);
    lemma_normal_form(n, d, e);
    lemma_same_value(n, d, e);
    let num = numerator(n, r.e - e);
    let den = denominator(d, r.e - e);
    let u = unit(r.e);
    let v = n * unit(e);
    lemma_pow2_pos((r.e + SCALE) as nat);
    lemma_fundamental_div_mod(num as int, den as int);
    let m = r.m;
    assert(2 * (m * den - num) <= den && 2 * (num - m * den) <= den) by {
        let q = num / den;
        assert((q + 1) * den == q * den + den) by (nonlinear_arith);
        assert(den * q == q * den) by (nonlinear_arith);
    }
    // num * u * d == v * den
    assert(2 * (m * u * d - v) <= u * d) by (nonlinear_arith)
        requires
            num * u * d == v * den,
            2 * (m * den - num) <= den,
            den > 0,
            u > 0,
            d > 0,
    {
        assert(2 * (m * den - num) * (u * d) <= den * (u * d));
        assert(2 * (m * den - num) * (u * d) == (2 * (m * u * d - v)) * den);
        assert((2 * (m * u * d - v)) * den <= (u * d) * den);
    }
    assert(2 * (v - m * u * d) <= u * d) by (nonlinear_arith)
        requires
            num * u * d == v * den,
            2 * (num - m * den) <= den,
            den > 0,
            u > 0,
            d > 0,
    {
        assert(2 * (num - m * den) * (u * d) <= den * (u * d));
        assert(2 * (num - m * den) * (u * d) == (2 * (v - m * u * d)) * den);
        assert((2 * (v - m * u * d)) * den <= (u * d) * den);
    }
    assert(LOW * u * d <= v < HIGH * u * d) by (nonlinear_arith)
        requires
            num * u * d == v * den,
            LOW * den <= num < HIGH * den,
            den > 0,
            u > 0,
            d > 0,
    {
        assert((LOW * den) * (u * d) <= num * (u * d));
        assert(num * (u * d) < (HIGH * den) * (u * d));
        assert((LOW * u * d) * den <= v * den);
        assert(v * den < (HIGH * u * d) * den);
    }
}

/// Rounding to an integer keeps the order of quotients.
proof fn lemma_half_even_monotone(n1: nat, d1: nat, n2: nat, d2: nat)
    requires
        d1 > 0,
        d2 > 0,
        n1 * d2 <= n2 * d1,
    ensures
        half_even(n1, d1) <= half_even(n2, d2),
{
    let q1 = n1 / d1;
    let r1 = n1 % d1;
    let q2 = n2 / d2;
    let r2 = n2 % d2;
    lemma_fundamental_div_mod(n1 as int, d1 as int);
    lemma_fundamental_div_mod(n2 as int, d2 as int);
    // (q1 - q2) * d1 * d2 <= r2 * d1 - r1 * d2
    assert((q1 - q2) * (d1 * d2) <= r2 * d1 - r1 * d2) by (nonlinear_arith)
        requires
            n1 == d1 * q1 + r1,
            n2 == d2 * q2 + r2,
            n1 * d2 <= n2 * d1,
    ;
    assert(r2 * d1 - r1 * d2 < d1 * d2) by (nonlinear_arith)
        requires
            0 <= r1,
            0 <= r2 < d2,
            d1 > 0,
    ;
    if q1 > q2 {
        assert((q1 - q2) * (d1 * d2) >= d1 * d2) by (nonlinear_arith)
            requires
                q1 - q2 >= 1,
                d1 > 0,
                d2 > 0,
        ;
    } else if q1 == q2 {
        assert(r1 * d2 <= r2 * d1) by {
            assert((q1 - q2) * (d1 * d2) == 0) by (nonlinear_arith)
                requires
                    q1 - q2 == 0,
            ;
        }
        assert(2 * r1 > d1 ==> 2 * r2 > d2) by (nonlinear_arith)
            requires
                r1 * d2 <= r2 * d1,
                d1 > 0,
                d2 > 0,
        ;
        assert(2 * r1 >= d1 ==> 2 * r2 >= d2) by (nonlinear_arith)
            requires
                r1 * d2 <= r2 * d1,
                d1 > 0,
                d2 > 0,
        ;
    }
}

/// Rounding keeps the order of values: if `(n1 / d1) * 2^e1` is not above
/// `(n2 / d2) * 2^e2`, then neither is what it is rounded to.
pub proof fn lemma_monotone(n1: nat, d1: nat, e1: int, n2: nat, d2: nat, e2: int)
    requires
        0 < n1 <= HIGH * HIGH,
        0 < d1 <= HIGH,
        0 < n2 <= HIGH * HIGH,
        0 < d2 <= HIGH,
        106 <= e1 + SCALE,
        106 <= e2 + SCALE,
        n1 * unit(e1) * d2 <= n2 * unit(e2) * d1,
    ensures
        scaled(nearest(n1, d1, e1)) <= scaled(nearest(n2, d2, e2)),
{
    let r1 = nearest(n1, d1, e1);
    let r2 = nearest(n2, d2, e2);
    lemma_exponent(n1, d1, e1);
    lemma_exponent(n2, d2, e2);
    lemma_error(n1, d1, e1);
    lemma_error(n2, d2, e2);
    let u1 = unit(r1.e);
    let u2 = unit(r2.e);
    lemma_pow2_pos((r1.e + SCALE) as nat);
    lemma_pow2_pos((r2.e + SCALE) as nat);
    if r1.e < r2.e {
        lemma_unit_gap(r1.e, r2.e);
        assert(r1.m * u1 <= r2.m * u2) by (nonlinear_arith)
            requires
                r1.m <= HIGH,
                r2.m >= LOW,
                HIGH == 2 * LOW,
                u2 >= 2 * u1,
                u1 > 0,
        {
            assert(r1.m * u1 <= HIGH * u1);
            assert(LOW * u2 <= r2.m * u2);
            assert(HIGH * u1 <= LOW * u2);
        }
    } else if r1.e > r2.e {
        lemma_unit_gap(r2.e, r1.e);
        let v1 = n1 * unit(e1);
        let v2 = n2 * unit(e2);
        assert(false) by (nonlinear_arith)
            requires
                v1 * d2 <= v2 * d1,
                LOW * u1 * d1 <= v1,
                v2 < HIGH * u2 * d2,
                HIGH == 2 * LOW,
                u1 >= 2 * u2,
                u2 > 0,
                d1 > 0,
                d2 > 0,
        {
            assert((LOW * u1 * d1) * d2 <= v1 * d2);
            assert(v2 * d1 < (HIGH * u2 * d2) * d1);
            assert((HIGH * u2) * (d1 * d2) <= (LOW * u1) * (d1 * d2)) by (nonlinear_arith)
                requires
                    u1 >= 2 * u2,
                    HIGH == 2 * LOW,
                    d1 > 0,
                    d2 > 0,
            ;
            assert((LOW * u1 * d1) * d2 == (LOW * u1) * (d1 * d2));
            assert((HIGH * u2 * d2) * d1 == (HIGH * u2) * (d1 * d2));
        }
    } else {
        lemma_normal_form(n1, d1, e1);
        lemma_normal_form(n2, d2, e2);
        lemma_same_value(n1, d1, e1);
        lemma_same_value(n2, d2, e2);
        let num1 = numerator(n1, r1.e - e1);
        let den1 = denominator(d1, r1.e - e1);
        let num2 = numerator(n2, r2.e - e2);
        let den2 = denominator(d2, r2.e - e2);
        let v1 = n1 * unit(e1);
        let v2 = n2 * unit(e2);
        lemma_cross(num1 as int, den1 as int, num2 as int, den2 as int, u1 as int, d1 as int, d2 as int, v1 as int, v2 as int);
        lemma_half_even_monotone(num1, den1, num2, den2);
        lemma_mul_inequality(r1.m as int, r2.m as int, u1 as int);
    }
}

/// Two quotients compare as the values that they stand for.
proof fn lemma_cross(num1: int, den1: int, num2: int, den2: int, u: int, d1: int, d2: int, v1: int, v2: int)
    requires
        num1 * u * d1 == v1 * den1,
        num2 * u * d2 == v2 * den2,
        v1 * d2 <= v2 * d1,
        u > 0,
        d1 > 0,
        d2 > 0,
        den1 > 0,
        den2 > 0,
    ensures
        num1 * den2 <= num2 * den1,
{
    let w = u * (d1 * d2);
    let dens = den1 * den2;
    assert(w > 0) by (nonlinear_arith)
        requires
            u > 0,
            d1 > 0,
            d2 > 0,
            w == u * (d1 * d2),
    ;
    assert(dens > 0) by (nonlinear_arith)
        requires
            den1 > 0,
            den2 > 0,
            dens == den1 * den2,
    ;
    assert((num1 * den2) * (u * (d1 * d2)) == (num1 * u * d1) * (d2 * den2)) by (nonlinear_arith);
    assert((num2 * den1) * (u * (d1 * d2)) == (num2 * u * d2) * (d1 * den1)) by (nonlinear_arith);
    assert((v1 * den1) * (d2 * den2) == (v1 * d2) * (den1 * den2)) by (nonlinear_arith);
    assert((v2 * den2) * (d1 * den1) == (v2 * d1) * (den1 * den2)) by (nonlinear_arith);
    lemma_mul_inequality(v1 * d2, v2 * d1, dens);
    if num1 * den2 > num2 * den1 {
        lemma_mul_strict_inequality(num2 * den1, num1 * den2, w);
    }
}

/// Units grow at least twofold from one exponent to a larger one.
proof fn lemma_unit_gap(low: int, high: int)
    requires
        0 <= low + SCALE,
        low < high,
    ensures
        unit(high) >= 2 * unit(low),
{
    lemma_pow2_unfold((low + 1 + SCALE) as nat);
    if low + 1 < high {
        lemma_pow2_strictly_increases((low + 1 + SCALE) as nat, (high + SCALE) as nat);
    }
}

/// A value whose significand has 53 bits at most is not changed by rounding.
pub proof fn lemma_exact(m: nat, e: int)
    requires
        0 < m <= HIGH,
        106 <= e + SCALE,
    ensures
        scaled(nearest(m, 1, e)) == m * unit(e),
{
    let r = nearest(m, 1, e);
    let j = r.e - e;
    assert(m <= HIGH * HIGH);
    lemma_exponent(m, 1, e);
    lemma_normal_form(m, 1, e);
    lemma_same_value(m, 1, e);
    let num = numerator(m, j);
    let den = denominator(1, j);
    lemma_mul_basics(m as int * unit(e) as int);
    lemma_mul_basics(num as int * unit(r.e) as int);
    if j <= 0 {
        lemma_div_basics(num as int);
        lemma_small_mod(0, 1);
        assert(num % 1 == 0) by { lemma_mod_self_0(1); lemma_fundamental_div_mod(num as int, 1); }
        assert(r.m == num);
        lemma_mul_basics(m as int);
    } else {
        lemma2_to64();
        assert(den == pow2(j as nat));
        if j > 1 {
            lemma_pow2_strictly_increases(1, j as nat);
            assert(den >= 3);
        }
        assert(den == 2);
        assert(m == HIGH);
        assert(r.m == LOW);
        lemma_pow2_unfold((r.e + SCALE) as nat);
        assert(LOW * unit(r.e) == HIGH * unit(e)) by (nonlinear_arith)
            requires
                unit(r.e) == 2 * unit(e),
                HIGH == 2 * LOW,
        ;
    }
}

/// The integer part of a value, in terms of scaled values.
pub proof fn lemma_floor(a: Dyadic)
    requires
        a.e + SCALE >= 0,
    ensures
        floor(a) * unit(0) <= scaled(a) < (floor(a) + 1) * unit(0),
{
    let u = unit(0);
    lemma_pow2_pos(SCALE as nat);
    if a.e >= 0 {
        lemma_pow2_adds(a.e as nat, SCALE as nat);
        let p = pow2(a.e as nat);
        assert(a.m * (p * u) == (a.m * p) * u) by (nonlinear_arith);
        assert((a.m * p + 1) * u == (a.m * p) * u + u) by (nonlinear_arith);
    } else {
        let p = pow2((-a.e) as nat);
        let w = unit(a.e);
        lemma_pow2_pos((-a.e) as nat);
        lemma_pow2_pos((a.e + SCALE) as nat);
        lemma_pow2_adds((-a.e) as nat, (a.e + SCALE) as nat);
        lemma_fundamental_div_mod(a.m as int, p as int);
        let f = a.m / p;
        assert(f * (p * w) <= a.m * w < (f + 1) * (p * w)) by (nonlinear_arith)
            requires
                a.m == p * f + a.m % p,
                0 <= a.m % p < p,
                w > 0,
        ;
    }
}

/// Units multiply as powers of two do.
pub proof fn lemma_units(a: int, b: int)
    requires
        a + SCALE >= 0,
        b + SCALE >= 0,
        a + b + SCALE >= 0,
    ensures
        unit(a + b) * unit(0) == unit(a) * unit(b),
{
    lemma_pow2_adds((a + b + SCALE) as nat, SCALE as nat);
    lemma_pow2_adds((a + SCALE) as nat, (b + SCALE) as nat);
}

/// The integer part keeps the order of values.
pub proof fn lemma_floor_monotone(a: Dyadic, b: Dyadic)
    requires
        a.e + SCALE >= 0,
        b.e + SCALE >= 0,
        scaled(a) <= scaled(b),
    ensures
        floor(a) <= floor(b),
{
    lemma_floor(a);
    lemma_floor(b);
    lemma_pow2_pos(SCALE as nat);
    if floor(a) >= floor(b) + 1 {
        lemma_mul_inequality(floor(b) as int + 1, floor(a) as int, unit(0) as int);
    }
}

/// Sizes up to 2^53 are binary64 numbers themselves; larger ones are rounded to
/// less than twice themselves.
pub proof fn lemma_of_nat(n: nat)
    requires
        n <= u64::MAX,
    ensures
        n <= HIGH ==> scaled(of_nat(n)) == n * unit(0) && floor(of_nat(n)) == n,
        floor(of_nat(n)) <= 2 * n,
        -106 <= of_nat(n).e <= 106,
        of_nat(n).m <= HIGH,
        of_nat(n).m == 0 <==> n == 0,
{
    let r = of_nat(n);
    lemma_pow2_pos(SCALE as nat);
    if n == 0 {
        assert(floor(r) == 0) by {
            lemma_mul_basics(pow2(0) as int);
        }
        lemma_mul_basics(unit(0) as int);
    } else {
        lemma_exponent(n, 1, 0);
        lemma_error(n, 1, 0);
        lemma_floor(r);
        let u = unit(0);
        let w = unit(r.e);
        if n <= HIGH {
            lemma_exact(n, 0);
            assert(floor(r) == n) by (nonlinear_arith)
                requires
                    floor(r) * u <= n * u < (floor(r) + 1) * u,
                    u > 0,
            ;
        }
        assert(floor(r) <= 2 * n) by (nonlinear_arith)
            requires
                floor(r) * u <= scaled(r),
                2 * (scaled(r) * 1 - n * u) <= w * 1,
                LOW * w * 1 <= n * u,
                LOW >= 1,
                u > 0,
                w >= 0,
        {
            assert(w <= n * u) by (nonlinear_arith)
                requires
                    LOW * w * 1 <= n * u,
                    LOW >= 1,
                    w >= 0,
            ;
            assert(floor(r) * u <= 2 * n * u);
        }
    }
}

/// A fraction `x / p` of at most one, taken of the size `w`, is at most `w`, as
/// binary64 arithmetic goes.
pub proof fn lemma_fraction(x: nat, p: nat, w: nat)
    requires
        x <= p <= HIGH,
        0 < p,
        w <= u64::MAX,
    ensures
        floor(product(quotient(of_nat(x), of_nat(p)), of_nat(w))) <= floor(of_nat(w)),
{
    let a = of_nat(x);
    let b = of_nat(p);
    let f = quotient(a, b);
    let s = of_nat(w);
    let r = product(f, s);
    lemma_of_nat(x);
    lemma_of_nat(p);
    lemma_of_nat(w);
    let u = unit(0);
    lemma_pow2_pos(SCALE as nat);
    if x == 0 || w == 0 {
        if x == 0 {
            assert(f.m == 0);
        }
        lemma_mul_basics(f.m as int);
        lemma_mul_basics(s.m as int);
        assert(f.m * s.m == 0);
        assert(r.m == 0 && r.e == 0);
        lemma_mul_basics(pow2(0) as int);
    } else {
        lemma_mul_upper_bound(a.m as int, HIGH as int, 1, HIGH as int);
        lemma_mul_basics(a.m as int);
        lemma_exponent(a.m, b.m, a.e - b.e);
        // f <= 1
        assert(a.m * unit(a.e - b.e) * 1 <= 1 * unit(0) * b.m) by {
            lemma_units(a.e - b.e, b.e);
            lemma_pow2_pos((b.e + SCALE) as nat);
            let ua = unit(a.e);
            let ub = unit(b.e);
            let uq = unit(a.e - b.e);
            assert(a.m * uq * 1 <= 1 * u * b.m) by (nonlinear_arith)
                requires
                    ua * u == uq * ub,
                    a.m * ua == x * u,
                    b.m * ub == p * u,
                    x <= p,
                    ub > 0,
                    u > 0,
            {
                assert((a.m * uq) * ub == (a.m * ua) * u);
                assert((x * u) * u <= (p * u) * u);
                assert((b.m * ub) * u == (u * b.m) * ub);
                assert((a.m * uq) * ub <= (u * b.m) * ub);
            }
        }
        lemma_monotone(a.m, b.m, a.e - b.e, 1, 1, 0);
        lemma_exact(1, 0);
        lemma_mul_basics(u as int);
        assert(f.m * unit(f.e) <= u);
        // r <= s
        lemma_mul_upper_bound(f.m as int, HIGH as int, s.m as int, HIGH as int);
        lemma_mul_strictly_positive(f.m as int, s.m as int);
        lemma_units(f.e, s.e);
        let uf = unit(f.e);
        let us = unit(s.e);
        let up = unit(f.e + s.e);
        assert((f.m * s.m) * up * 1 <= s.m * us * 1) by (nonlinear_arith)
            requires
                up * u == uf * us,
                f.m * uf <= u,
                u > 0,
                us >= 0,
        {
            assert(((f.m * s.m) * up) * u == (f.m * uf) * (s.m * us));
            assert((f.m * uf) * (s.m * us) <= u * (s.m * us));
            assert(((f.m * s.m) * up) * u <= (s.m * us) * u);
        }
        lemma_mul_upper_bound(s.m as int, HIGH as int, 1, HIGH as int);
        lemma_mul_basics(s.m as int);
        lemma_monotone(f.m * s.m, 1, f.e + s.e, s.m, 1, s.e);
        lemma_exact(s.m, s.e);
        lemma_exponent(f.m * s.m, 1, f.e + s.e);
        lemma_floor_monotone(r, s);
    }
}

/// One over a positive integer is a number below 2^53 and at most one; times the
/// integer it is one, up to half a unit in its last place for each.
pub proof fn lemma_reciprocal(n: nat)
    requires
        0 < n <= HIGH,
    ensures
        ({
            let q = quotient(of_nat(1), of_nat(n));
            let one = pow2((-q.e) as nat);
            &&& LOW <= q.m <= HIGH
            &&& q.e < 0
            &&& q.m <= one
            &&& 2 * (q.m * n - one) <= n
            &&& 2 * (one - q.m * n) <= n
            &&& nanos(q) <= NANOS
        }),
{
    let a = of_nat(1);
    let b = of_nat(n);
    let q = quotient(a, b);
    let u = unit(0);
    lemma_of_nat(1);
    lemma_of_nat(n);
    lemma_pow2_pos(SCALE as nat);
    assert(a.m <= HIGH * HIGH);
    lemma_exponent(a.m, b.m, a.e - b.e);
    let k = unit(a.e - b.e);
    let w = unit(b.e);
    lemma_pow2_pos((b.e + SCALE) as nat);
    lemma_units(a.e - b.e, b.e);
    assert(a.e - b.e + b.e == a.e);
    assert(a.m * k * w == u * u) by {
        assert(a.m * k * w == a.m * (k * w)) by (nonlinear_arith);
        assert(a.m * (unit(a.e) * u) == a.m * unit(a.e) * u) by (nonlinear_arith);
        assert(1 * u == u);
    }
    assert(a.m * k <= u * b.m) by {
        assert(1 * u * u <= n * u * u) by (nonlinear_arith)
            requires
                n >= 1,
                u > 0,
        ;
        assert(b.m * w * u == u * b.m * w) by (nonlinear_arith);
        assert(a.m * k <= u * b.m) by (nonlinear_arith)
            requires
                a.m * k * w <= u * b.m * w,
                w > 0,
        ;
    }
    assert(1 <= HIGH * HIGH);
    assert(a.m * k * 1 == a.m * k && 1 * u * b.m == u * b.m);
    lemma_monotone(a.m, b.m, a.e - b.e, 1, 1, 0);
    assert(scaled(q) <= u);
    let v = unit(q.e);
    lemma_pow2_pos((q.e + SCALE) as nat);
    if q.e >= 0 {
        if q.e > 0 {
            lemma_pow2_strictly_increases(SCALE as nat, (q.e + SCALE) as nat);
        }
        assert(q.m * v > u) by (nonlinear_arith)
            requires
                q.m > 1,
                v >= u,
                u > 0,
        ;
    }
    let p = pow2((-q.e) as nat);
    lemma_pow2_pos((-q.e) as nat);
    lemma_pow2_adds((-q.e) as nat, (q.e + SCALE) as nat);
    assert(q.m <= p) by (nonlinear_arith)
        requires
            q.m * v <= p * v,
            v > 0,
    ;
    lemma_at_most(q.m * NANOS as nat, p, NANOS as nat);
    lemma_error(a.m, b.m, a.e - b.e);
    lemma_reciprocal_error(q.m as int, n as int, p as int, v as int, u as int, w as int, b.m as int, (a.m * k) as int);
}

/// The error of a reciprocal, freed from its scale.
proof fn lemma_reciprocal_error(m: int, n: int, p: int, v: int, u: int, w: int, b: int, x: int)
    requires
        v > 0,
        w > 0,
        u == p * v,
        u > 0,
        b * w == n * u,
        x * w == u * u,
        2 * (m * v * b - x) <= v * b,
        2 * (x - m * v * b) <= v * b,
    ensures
        2 * (m * n - p) <= n,
        2 * (p - m * n) <= n,
{
    assert(m * v * b * w == m * v * (b * w)) by (nonlinear_arith);
    assert(v * b * w == v * (b * w)) by (nonlinear_arith);
    assert(2 * (m * v * b - x) * w <= v * b * w && 2 * (x - m * v * b) * w <= v * b * w) by (nonlinear_arith)
        requires
            2 * (m * v * b - x) <= v * b,
            2 * (x - m * v * b) <= v * b,
            w > 0,
    ;
    assert(2 * (m * v * b - x) * w == 2 * (m * v * b * w - x * w)) by (nonlinear_arith);
    assert(2 * (x - m * v * b) * w == 2 * (x * w - m * v * b * w)) by (nonlinear_arith);
    assert(m * v * (n * u) == (m * n) * (v * u)) by (nonlinear_arith);
    assert(u * u == p * (v * u)) by (nonlinear_arith)
        requires
            u == p * v,
    ;
    assert(v * (n * u) == n * (v * u)) by (nonlinear_arith);
    let t = v * u;
    lemma_mul_strictly_positive(v, u);
    assert(2 * ((m * n) * t - p * t) <= n * t);
    assert(2 * (p * t - (m * n) * t) <= n * t);
    assert(2 * (m * n - p) <= n && 2 * (p - m * n) <= n) by (nonlinear_arith)
        requires
            2 * ((m * n) * t - p * t) <= n * t,
            2 * (p * t - (m * n) * t) <= n * t,
            t > 0,
    ;
}

/// The rounded quotient is within one half of the quotient.
pub proof fn lemma_half_even(n: nat, d: nat)
    requires
        0 < d,
    ensures
        2 * (half_even(n, d) * d - n) <= d,
        2 * (n - half_even(n, d) * d) <= d,
{
    lemma_fundamental_div_mod(n as int, d as int);
    let q = n / d;
    assert((q + 1) * d == q * d + d) by (nonlinear_arith);
    lemma_mul_is_commutative(q as int, d as int);
}

/// Rounding a quotient of at most `k` gives at most `k`.
proof fn lemma_at_most(n: nat, d: nat, k: nat)
    requires
        0 < d,
        n <= d * k,
    ensures
        half_even(n, d) <= k,
{
    lemma_fundamental_div_mod(n as int, d as int);
    lemma_div_is_ordered(n as int, (d * k) as int, d as int);
    lemma_div_multiples_vanish(k as int, d as int);
    if n / d == k {
        assert(n % d == 0);
    }
}

/// Rounding changes a number by at most one part in 2^53, either way.
pub proof fn lemma_relative(n: nat, d: nat, e: int)
    requires
        0 < n <= HIGH * HIGH,
        0 < d <= HIGH,
        106 <= e + SCALE,
    ensures
        HIGH * (scaled(nearest(n, d, e)) * d) <= (HIGH + 1) * (n * unit(e)),
        HIGH * (n * unit(e)) <= (HIGH + 1) * (scaled(nearest(n, d, e)) * d),
{
    let r = nearest(n, d, e);
    lemma_error(n, d, e);
    lemma_exponent(n, d, e);
    let low = LOW as int;
    let s = (scaled(r) * d) as int;
    let x = (n * unit(e)) as int;
    let w = (unit(r.e) * d) as int;
    assert(low * w <= x) by {
        lemma_mul_is_associative(low, unit(r.e) as int, d as int);
    }
    assert(low * w <= s) by {
        let (m, u, k) = (r.m as int, unit(r.e) as int, d as int);
        assert(low * (u * k) <= m * u * k) by (nonlinear_arith)
            requires
                low <= m,
                u >= 0,
                k >= 0,
        ;
    }
    assert(2 * low * (s - x) <= low * w && 2 * low * (x - s) <= low * w) by (nonlinear_arith)
        requires
            2 * (s - x) <= w,
            2 * (x - s) <= w,
            low > 0,
    ;
    assert(2 * low * (s - x) == 2 * low * s - 2 * low * x) by (nonlinear_arith);
    assert(2 * low * (x - s) == 2 * low * x - 2 * low * s) by (nonlinear_arith);
}

} // verus!
