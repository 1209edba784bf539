//! How near the rounded arithmetic of `Real` stays to the exact numbers:
//! every result is the representable number nearest to the exact one.

use vstd::prelude::*;
use vstd::arithmetic::div_mod::lemma_fundamental_div_mod;
use vstd::arithmetic::power2::lemma2_to64;
use vstd::arithmetic::power2::lemma2_to64_rest;
use vstd::arithmetic::power2::lemma_pow2_adds;
use vstd::arithmetic::power2::lemma_pow2_pos;
use vstd::arithmetic::power2::lemma_pow2_strictly_increases;
use vstd::arithmetic::power2::pow2;
use crate::algebra::lemma_normal_of_wf;
use crate::number::bit_length;
use crate::number::floor_sqrt;
use crate::number::is_floor_sqrt;
use crate::number::leading_digits;
use crate::number::lemma_bit_length_bounds;
use crate::number::lemma_leading_digits_normal;
use crate::number::nearest_quotient;
use crate::number::with_rest;
use crate::number::Real;
use crate::number::SIG_MAX;

verus! {

/// How far apart two whole numbers are.
pub open spec fn distance(a: int, b: int) -> int {
    if a >= b {
        a - b
    } else {
        b - a
    }
}

/// The nearest quotient, scaled back, is at most half a divisor away from
/// the dividend; where it is exactly half a divisor away, it is even.
pub proof fn lemma_nearest_quotient(magnitude: nat, drop: nat)
    requires
        drop >= 1,
    ensures
        2 * distance(
            (nearest_quotient(magnitude, drop) * pow2(drop)) as int,
            magnitude as int,
        ) <= pow2(drop),
        2 * distance(
            (nearest_quotient(magnitude, drop) * pow2(drop)) as int,
            magnitude as int,
        ) == pow2(drop) ==> nearest_quotient(magnitude, drop) % 2 == 0,
{
    let unit = pow2(drop);
    lemma_pow2_pos(drop);
    let q = magnitude / unit;
    let rest = magnitude % unit;
    lemma_fundamental_div_mod(magnitude as int, unit as int);
    assert(0 <= rest < unit);
    assert((q + 1) * unit == q * unit + unit) by (nonlinear_arith);
    assert(unit * q == q * unit) by (nonlinear_arith);
}

/// Rounding goes to the nearest representable number: where the exact
/// number is neither flushed to zero nor saturated, the result carries
/// its sign, and the result's significand, scaled by the power of two by
/// which the exponent was raised, is at most half that power away from
/// the exact magnitude. Where the exponent was lowered instead, the
/// result is the exact number.
pub proof fn lemma_rounded_nearest(negative: bool, magnitude: nat, exponent: int)
    requires
        Real::rounded(negative, magnitude, exponent) != Real::spec_zero(),
        Real::rounded(negative, magnitude, exponent) != Real::spec_huge(negative),
    ensures
        ({
            let r = Real::rounded(negative, magnitude, exponent);
            let raised = r.exponent - exponent;
            &&& r.negative == negative
            &&& bit_length(magnitude) - 53 <= raised <= bit_length(magnitude) - 52
            &&& raised >= 0 ==> 2 * distance(
                r.significand * pow2(raised as nat),
                magnitude as int,
            ) <= pow2(raised as nat)
            &&& raised < 0 ==> r.significand == magnitude * pow2((-raised) as nat)
        }),
{
    reveal(Real::rounded);
    lemma2_to64();
    lemma2_to64_rest();
    lemma_leading_digits_normal(magnitude);
    let r = Real::rounded(negative, magnitude, exponent);
    let excess = bit_length(magnitude) - 53;
    let digits = leading_digits(magnitude);
    let raised = r.exponent - exponent;
    assert(raised == excess + (if digits > SIG_MAX { 1int } else { 0 }));
    if excess > 0 {
        let unit = pow2(excess as nat);
        lemma_pow2_pos(excess as nat);
        lemma_nearest_quotient(magnitude, excess as nat);
        assert(2 * distance((digits * unit) as int, magnitude as int) <= unit);
        if digits > SIG_MAX {
            lemma_pow2_adds(1, excess as nat);
            assert(r.significand * pow2((excess + 1) as nat) == digits * unit) by (nonlinear_arith)
                requires
                    r.significand == 0x10_0000_0000_0000,
                    digits == 0x20_0000_0000_0000,
                    pow2((excess + 1) as nat) == 2 * unit,
            ;
            assert(2 * distance(r.significand * pow2(raised as nat), magnitude as int) <= pow2(
                raised as nat,
            ));
        } else {
            assert(r.significand * pow2(raised as nat) == (digits * unit) as int);
        }
    } else if excess == 0 {
        let d = pow2(0);
        assert(magnitude * d == magnitude) by (nonlinear_arith)
            requires
                d == 1,
        ;
        assert(r.significand == magnitude);
        assert(r.significand * d == magnitude) by (nonlinear_arith)
            requires
                d == 1,
                r.significand == magnitude,
        ;
    } else {
        assert(r.significand == magnitude * pow2((-raised) as nat));
    }
}

/// The core of correct rounding after a division with rest. Let `2 n` be
/// the exact numerator over the divisor `b`, with `n = q b + rest`; let
/// `sticky` be `2 q`, plus one where there is a rest; and let `v`, a
/// multiple of four, be within half of `u = 4 w` of `sticky`. Then `v` is
/// within half of `u` of the exact quotient `2 n / b`.
proof fn lemma_division_core(v: int, w: int, q: int, b: int, rest: int, sticky: int)
    requires
        w >= 1,
        v % 4 == 0,
        b > 0,
        0 <= rest < b,
        q >= 0,
        sticky == (if rest != 0 { 2 * q + 1 } else { 2 * q }),
        2 * distance(v, sticky) <= 4 * w,
    ensures
        2 * distance(v * b, 2 * (q * b + rest)) <= 4 * w * b,
{
    if rest == 0 {
        assert(2 * distance(v * b, 2 * (q * b + rest)) <= 4 * w * b) by (nonlinear_arith)
            requires
                rest == 0,
                b > 0,
                2 * distance(v, 2 * q) <= 4 * w,
        ;
    } else {
        // `v` is even and `sticky` is odd, so they differ by an odd number,
        // which is at most `2 w - 1`.
        assert(distance(v, sticky) <= 2 * w - 1);
        if v > sticky {
            let t = v - 2 * q;
            assert(2 <= t <= 2 * w);
            assert(2 * distance(v * b, 2 * (q * b + rest)) <= 4 * w * b) by (nonlinear_arith)
                requires
                    t == v - 2 * q,
                    2 <= t <= 2 * w,
                    b > 0,
                    0 < rest < b,
            ;
        } else {
            let t = 2 * q - v;
            assert(0 <= t <= 2 * w - 2);
            assert(2 * distance(v * b, 2 * (q * b + rest)) <= 4 * w * b) by (nonlinear_arith)
                requires
                    t == 2 * q - v,
                    0 <= t <= 2 * w - 2,
                    b > 0,
                    0 < rest < b,
            ;
        }
    }
}

/// Division is correctly rounded: for nonzero operands in normal form
/// whose quotient is neither flushed to zero nor saturated, the result is
/// the representable number nearest to the exact quotient `a / b`. Stated
/// without fractions, over the significands: with `x` the number of
/// binary places by which the result's exponent exceeds `a.exponent -
/// b.exponent - 64`, the product `r · 2^x · b` is at most `2^x · b / 2`
/// away from `a · 2^64`.
pub proof fn lemma_div_correctly_rounded(a: Real, b: Real)
    requires
        a.wf(),
        b.wf(),
        a.significand != 0,
        b.significand != 0,
        a.spec_div(b) != Real::spec_zero(),
        a.spec_div(b) != Real::spec_huge(a.negative != b.negative),
    ensures
        ({
            let r = a.spec_div(b);
            let x = r.exponent - (a.exponent - b.exponent - 64);
            &&& r.negative == (a.negative != b.negative)
            &&& 11 <= x <= 13
            &&& 2 * distance(
                r.significand * pow2(x as nat) * b.significand,
                a.significand * pow2(64),
            ) <= pow2(x as nat) * b.significand
        }),
{
    lemma2_to64();
    lemma2_to64_rest();
    let n = (a.significand * pow2(63)) as nat;
    let d = b.significand as nat;
    let q = n / d;
    let rest = n % d;
    let sticky = with_rest(q, rest != 0);
    let e = a.exponent - b.exponent - 64;
    let r = a.spec_div(b);
    assert(r == Real::rounded(a.negative != b.negative, sticky, e));
    lemma_fundamental_div_mod(n as int, d as int);
    assert(d * q == q * d) by (nonlinear_arith);
    assert(pow2(62) <= q < pow2(64)) by {
        assert(0x4000_0000_0000_0000 * d <= n) by (nonlinear_arith)
            requires
                n == a.significand * 0x8000_0000_0000_0000,
                a.significand >= 0x10_0000_0000_0000,
                d <= 0x1f_ffff_ffff_ffff,
        ;
        assert(n < 0x1_0000_0000_0000_0000 * d) by (nonlinear_arith)
            requires
                n == a.significand * 0x8000_0000_0000_0000,
                a.significand <= 0x1f_ffff_ffff_ffff,
                d >= 0x10_0000_0000_0000,
        ;
        assert(0x4000_0000_0000_0000 <= n / d < 0x1_0000_0000_0000_0000) by (nonlinear_arith)
            requires
                d > 0,
                0x4000_0000_0000_0000 * d <= n < 0x1_0000_0000_0000_0000 * d,
        ;
    }
    assert(pow2(65) == 0x2_0000_0000_0000_0000) by {
        lemma_pow2_adds(64, 1);
    }
    lemma_bit_length_bounds(sticky, 65);
    lemma_bit_length_bounds(sticky, 64);
    lemma_rounded_nearest(a.negative != b.negative, sticky, e);
    let x = r.exponent - e;
    assert(11 <= x <= 13);
    let w = pow2((x - 2) as nat);
    lemma_pow2_pos((x - 2) as nat);
    lemma_pow2_adds(2, (x - 2) as nat);
    let unit = pow2(x as nat);
    assert(unit == 4 * w);
    let s = r.significand as int;
    let v = s * unit;
    assert(v == 4 * (s * w)) by (nonlinear_arith)
        requires
            v == s * unit,
            unit == 4 * w,
    ;
    lemma_division_core(v, w as int, q as int, d as int, rest as int, sticky as int);
    assert(a.significand * pow2(64) == 2 * (q * d + rest)) by {
        lemma_pow2_adds(63, 1);
        assert(a.significand * pow2(64) == 2 * (a.significand * pow2(63))) by (nonlinear_arith)
            requires
                pow2(64) == 2 * pow2(63),
        ;
    }
    assert(r.significand * pow2(x as nat) * b.significand == v * d);
    assert(pow2(x as nat) * b.significand == 4 * w * d) by (nonlinear_arith)
        requires
            unit == 4 * w,
            unit == pow2(x as nat),
            d == b.significand,
    ;
}

/// The core of correct rounding after a square root with rest. Let
/// `root` be the floor square root of `m`; let `sticky` be `2 root`, plus
/// one where the root is not exact; and let `v`, a multiple of four, be
/// within half of `u = 4 w` of `sticky`. Then `v` is within half of `u`
/// of the exact root of `4 m`.
proof fn lemma_root_core(v: int, w: int, root: int, m: int, sticky: int)
    requires
        w >= 1,
        v % 4 == 0,
        v >= 4 * w,
        root >= 0,
        root * root <= m < (root + 1) * (root + 1),
        sticky == (if root * root != m { 2 * root + 1 } else { 2 * root }),
        2 * distance(v, sticky) <= 4 * w,
    ensures
        (2 * v - 4 * w) * (2 * v - 4 * w) <= 16 * m,
        16 * m <= (2 * v + 4 * w) * (2 * v + 4 * w),
{
    let low = v - 2 * w;
    let high = v + 2 * w;
    assert(low >= 0);
    if root * root == m {
        assert(low <= 2 * root <= high);
        assert(low * low <= 4 * m <= high * high) by (nonlinear_arith)
            requires
                0 <= low <= 2 * root,
                2 * root <= high,
                root * root == m,
        ;
    } else {
        assert(distance(v, sticky) <= 2 * w - 1);
        assert(low <= 2 * root);
        assert(2 * root + 2 <= high);
        assert(low * low <= 4 * m <= high * high) by (nonlinear_arith)
            requires
                0 <= low <= 2 * root,
                2 * root + 2 <= high,
                root * root <= m < (root + 1) * (root + 1),
        ;
    }
    assert((2 * v - 4 * w) * (2 * v - 4 * w) == 4 * (low * low)) by (nonlinear_arith)
        requires
            low == v - 2 * w,
    ;
    assert((2 * v + 4 * w) * (2 * v + 4 * w) == 4 * (high * high)) by (nonlinear_arith)
        requires
            high == v + 2 * w,
    ;
}

/// Every whole number has a floor square root.
pub proof fn lemma_floor_sqrt_exists(n: nat)
    ensures
        is_floor_sqrt(floor_sqrt(n), n),
    decreases n,
{
    if n == 0 {
        assert(0nat * 0nat <= 0nat < (0nat + 1) * (0nat + 1)) by (nonlinear_arith);
        assert(is_floor_sqrt(0, 0));
    } else {
        lemma_floor_sqrt_exists((n - 1) as nat);
        let r = floor_sqrt((n - 1) as nat);
        if n < (r + 1) * (r + 1) {
            assert(is_floor_sqrt(r, n));
        } else {
            assert(is_floor_sqrt(r + 1, n)) by (nonlinear_arith)
                requires
                    r * r <= n - 1 < (r + 1) * (r + 1),
                    n >= (r + 1) * (r + 1),
            ;
        }
    }
}

/// The square root is correctly rounded: for a positive operand in normal
/// form the result is the representable number nearest to the exact root.
/// Stated without roots, over the significands: with `k` the shift that
/// makes the exponent even (62 or 63), `m = a · 2^k`, and `x` the number
/// of binary places by which the result's exponent exceeds `(a.exponent -
/// k) / 2 - 1`, the square of `2 r 2^x - 2^x` is at most `16 m`, which is
/// at most the square of `2 r 2^x + 2^x`: the exact root of `4 m` lies at
/// most `2^x / 2` from `r · 2^x`.
pub proof fn lemma_sqrt_correctly_rounded(a: Real)
    requires
        a.wf(),
        !a.negative,
        a.significand != 0,
    ensures
        ({
            let r = a.spec_sqrt();
            let k: int = if a.exponent % 2 == 0 { 62 } else { 63 };
            let x = r.exponent - ((a.exponent - k) / 2 - 1);
            let m = a.significand * pow2(k as nat);
            let v = r.significand * pow2(x as nat);
            &&& !r.negative
            &&& 6 <= x <= 7
            &&& (2 * v - pow2(x as nat)) * (2 * v - pow2(x as nat)) <= 16 * m
            &&& 16 * m <= (2 * v + pow2(x as nat)) * (2 * v + pow2(x as nat))
        }),
{
    lemma2_to64();
    lemma2_to64_rest();
    let k: int = if a.exponent % 2 == 0 { 62 } else { 63 };
    let m = (a.significand * pow2(k as nat)) as nat;
    let root = floor_sqrt(m);
    lemma_floor_sqrt_exists(m);
    let sticky = with_rest(root, root * root != m);
    let e = (a.exponent - k) / 2 - 1;
    let r = a.spec_sqrt();
    assert(r == Real::rounded(false, sticky, e));
    assert(pow2(114) == 0x4_0000_0000_0000_0000_0000_0000_0000) by {
        lemma_pow2_adds(57, 57);
    }
    assert(pow2(116) == 0x10_0000_0000_0000_0000_0000_0000_0000) by {
        lemma_pow2_adds(58, 58);
    }
    assert(pow2(114) <= m < pow2(116)) by (nonlinear_arith)
        requires
            m == a.significand * pow2(k as nat),
            0x10_0000_0000_0000 <= a.significand <= 0x1f_ffff_ffff_ffff,
            pow2(k as nat) == 0x4000_0000_0000_0000 || pow2(k as nat) == 0x8000_0000_0000_0000,
            pow2(114) == 0x4_0000_0000_0000_0000_0000_0000_0000,
            pow2(116) == 0x10_0000_0000_0000_0000_0000_0000_0000,
    ;
    assert(pow2(57) <= root < pow2(58)) by (nonlinear_arith)
        requires
            root * root <= m < (root + 1) * (root + 1),
            pow2(114) <= m < pow2(116),
            pow2(114) == pow2(57) * pow2(57),
            pow2(116) == pow2(58) * pow2(58),
            pow2(57) > 0,
            pow2(58) > 0,
    {
        lemma_pow2_adds(57, 57);
        lemma_pow2_adds(58, 58);
    }
    lemma_bit_length_bounds(sticky, 59);
    assert(bit_length(sticky) == 59);
    reveal(Real::rounded);
    lemma_leading_digits_normal(sticky);
    assert(r != Real::spec_zero());
    assert(r != Real::spec_huge(false));
    lemma_rounded_nearest(false, sticky, e);
    let x = r.exponent - e;
    assert(6 <= x <= 7);
    let w = pow2((x - 2) as nat);
    lemma_pow2_pos((x - 2) as nat);
    lemma_pow2_adds(2, (x - 2) as nat);
    let unit = pow2(x as nat);
    assert(unit == 4 * w);
    let s = r.significand as int;
    let v = s * unit;
    assert(v == 4 * (s * w) && v >= 4 * w) by (nonlinear_arith)
        requires
            v == s * unit,
            unit == 4 * w,
            s >= 1,
            w >= 1,
    ;
    lemma_root_core(v, w as int, root as int, m as int, sticky as int);
}

/// Absorbing a much smaller operand is rounding to the nearest: where
/// the exponents of two nonzero numbers in normal form lie more than 63
/// apart, the sum is the number with the larger exponent, and the other
/// is less than a thousandth of a unit in its last place.
pub proof fn lemma_absorbed_sum_is_nearest(a: Real, b: Real)
    requires
        a.wf(),
        b.wf(),
        a.significand != 0,
        b.significand != 0,
        a.exponent - b.exponent > 63,
    ensures
        a.spec_add(b) == a,
        b.spec_add(a) == a,
        1024 * b.significand < pow2((a.exponent - b.exponent) as nat),
{
    lemma_normal_of_wf(a);
    lemma2_to64();
    lemma2_to64_rest();
    lemma_pow2_strictly_increases(63, (a.exponent - b.exponent) as nat);
}

} // verus!
