//! Algebraic facts about the rounded arithmetic of `Real`.

use vstd::prelude::*;
use vstd::arithmetic::power2::lemma2_to64;
use vstd::arithmetic::power2::lemma2_to64_rest;
use vstd::arithmetic::power2::pow2;
use crate::number::floor_sqrt;
use crate::number::with_rest;
use crate::number::lemma_bit_length_bounds;
use crate::number::lemma_leading_digits_normal;
use crate::number::Real;
use crate::number::SIG_MIN;

verus! {

/// Every rounded value is in normal form, and it is zero or carries the
/// sign that was asked for.
pub proof fn lemma_rounded_wf(negative: bool, magnitude: nat, exponent: int)
    ensures
        Real::rounded(negative, magnitude, exponent).wf(),
        Real::rounded(negative, magnitude, exponent) == Real::spec_zero() || (Real::rounded(
            negative,
            magnitude,
            exponent,
        ).negative == negative && Real::rounded(negative, magnitude, exponent).significand
            >= SIG_MIN),
{
    reveal(Real::rounded);
    if magnitude > 0 {
        lemma_leading_digits_normal(magnitude);
    }
}

/// Rounding to the opposite sign gives the negated value.
pub proof fn lemma_rounded_neg(negative: bool, magnitude: nat, exponent: int)
    ensures
        Real::rounded(!negative, magnitude, exponent) == Real::rounded(
            negative,
            magnitude,
            exponent,
        ).spec_neg(),
{
    lemma_rounded_wf(negative, magnitude, exponent);
    lemma_rounded_wf(!negative, magnitude, exponent);
    reveal(Real::rounded);
}

/// A value in normal form is its own normal form.
pub proof fn lemma_normal_of_wf(a: Real)
    requires
        a.wf(),
    ensures
        a.normal() == a,
{
    reveal(Real::rounded);
    lemma2_to64();
    lemma2_to64_rest();
    if a.significand != 0 {
        lemma_bit_length_bounds(a.significand as nat, 53);
        let d = pow2(0);
        assert((a.significand as nat) * d == a.significand as nat) by (nonlinear_arith)
            requires
                d == 1,
        ;
    }
}

/// Negation preserves normal form and undoes itself.
pub proof fn lemma_neg_involution(a: Real)
    ensures
        a.spec_neg().spec_neg() == a,
        a.wf() ==> a.spec_neg().wf(),
        a.spec_neg().normal() == a.normal().spec_neg(),
{
    if a.significand != 0 {
        lemma_rounded_neg(a.negative, a.significand as nat, a.exponent as int);
    } else {
        reveal(Real::rounded);
    }
}

/// Addition does not depend on the order of its operands.
pub proof fn lemma_add_commutes(a: Real, b: Real)
    ensures
        a.spec_add(b) == b.spec_add(a),
{
    reveal(Real::rounded);
    if a.significand != 0 && b.significand != 0 && a.exponent == b.exponent {
        lemma2_to64();
        let d = pow2(0);
        assert(a.significand * d == a.significand && b.significand * d == b.significand)
            by (nonlinear_arith)
            requires
                d == 1,
        ;
    }
}

/// The sum of two negated numbers is the negated sum.
pub proof fn lemma_add_neg(a: Real, b: Real)
    ensures
        a.spec_neg().spec_add(b.spec_neg()) == a.spec_add(b).spec_neg(),
{
    lemma_neg_involution(a);
    lemma_neg_involution(b);
    if a.significand != 0 && b.significand != 0 {
        let hi = if a.exponent >= b.exponent { a } else { b };
        let lo = if a.exponent >= b.exponent { b } else { a };
        let gap = hi.exponent - lo.exponent;
        if gap <= 63 {
            let high = hi.significand * pow2(gap as nat);
            let low = lo.significand as int;
            assert(high >= 0) by (nonlinear_arith)
                requires
                    high == hi.significand * pow2(gap as nat),
            ;
            lemma_rounded_neg(hi.negative, (high + low) as nat, lo.exponent as int);
            lemma_rounded_neg(hi.negative, (high - low) as nat, lo.exponent as int);
            lemma_rounded_neg(lo.negative, (low - high) as nat, lo.exponent as int);
        }
    }
}

/// A number added to its negation is zero.
pub proof fn lemma_add_opposite(a: Real)
    ensures
        a.spec_add(a.spec_neg()) == Real::spec_zero(),
{
    reveal(Real::rounded);
    if a.significand != 0 {
        lemma2_to64();
        let d = pow2(0);
        assert(a.significand * d == a.significand) by (nonlinear_arith)
            requires
                d == 1,
        ;
    }
}

/// Swapping the operands of a difference negates it.
pub proof fn lemma_sub_swaps(a: Real, b: Real)
    ensures
        b.spec_sub(a) == a.spec_sub(b).spec_neg(),
{
    lemma_add_neg(a, b.spec_neg());
    lemma_neg_involution(b);
    lemma_add_commutes(a.spec_neg(), b);
}

/// Multiplication does not depend on the order of its operands.
pub proof fn lemma_mul_commutes(a: Real, b: Real)
    ensures
        a.spec_mul(b) == b.spec_mul(a),
{
    assert(a.significand * b.significand == b.significand * a.significand) by (nonlinear_arith);
}

/// Negating either factor negates the product.
pub proof fn lemma_mul_neg(a: Real, b: Real)
    ensures
        a.spec_neg().spec_mul(b) == a.spec_mul(b).spec_neg(),
        a.spec_mul(b.spec_neg()) == a.spec_mul(b).spec_neg(),
        a.spec_neg().spec_mul(b.spec_neg()) == a.spec_mul(b),
{
    let m = (a.significand * b.significand) as nat;
    let e = a.exponent + b.exponent;
    lemma_rounded_neg(a.negative != b.negative, m, e);
    lemma_rounded_neg(!(a.negative != b.negative), m, e);
    if a.significand == 0 || b.significand == 0 {
        assert(a.significand * b.significand == 0) by (nonlinear_arith)
            requires
                a.significand == 0 || b.significand == 0,
        ;
        reveal(Real::rounded);
    }
}

/// Negating the dividend negates the quotient.
pub proof fn lemma_div_neg(a: Real, b: Real)
    ensures
        a.spec_neg().spec_div(b) == a.spec_div(b).spec_neg(),
{
    if b.significand != 0 {
        let numerator = (a.significand * pow2(63)) as nat;
        let divisor = b.significand as nat;
        let q = with_rest(numerator / divisor, numerator % divisor != 0);
        let e = a.exponent - b.exponent - 64;
        lemma_rounded_neg(a.negative != b.negative, q, e);
        if a.significand == 0 {
            assert(a.significand * pow2(63) == 0) by (nonlinear_arith)
                requires
                    a.significand == 0,
            ;
            assert(0nat / divisor == 0 && 0nat % divisor == 0) by (nonlinear_arith)
                requires
                    divisor > 0,
            ;
            reveal(Real::rounded);
        }
    }
}

/// Every sum, product, quotient and root is in normal form.
pub proof fn lemma_results_wf(a: Real, b: Real)
    ensures
        a.spec_add(b).wf(),
        a.spec_sub(b).wf(),
        a.spec_mul(b).wf(),
        a.spec_div(b).wf(),
        a.spec_sqrt().wf(),
        a.normal().wf(),
{
    lemma_sum_wf(a, b);
    lemma_sum_wf(a, b.spec_neg());
    lemma_rounded_wf(
        a.negative != b.negative,
        (a.significand * b.significand) as nat,
        a.exponent + b.exponent,
    );
    let numerator = (a.significand * pow2(63)) as nat;
    let divisor = b.significand as nat;
    lemma_rounded_wf(
        a.negative != b.negative,
        with_rest(numerator / divisor, numerator % divisor != 0),
        a.exponent - b.exponent - 64,
    );
    let k: int = if a.exponent % 2 == 0 { 62 } else { 63 };
    let radicand = (a.significand * pow2(k as nat)) as nat;
    let root = floor_sqrt(radicand);
    lemma_rounded_wf(false, with_rest(root, root * root != radicand), (a.exponent - k) / 2 - 1);
    lemma_rounded_wf(a.negative, a.significand as nat, a.exponent as int);
}

/// Every sum is in normal form.
proof fn lemma_sum_wf(a: Real, b: Real)
    ensures
        a.spec_add(b).wf(),
{
    lemma_rounded_wf(a.negative, a.significand as nat, a.exponent as int);
    lemma_rounded_wf(b.negative, b.significand as nat, b.exponent as int);
    let hi = if a.exponent >= b.exponent { a } else { b };
    let lo = if a.exponent >= b.exponent { b } else { a };
    let gap = hi.exponent - lo.exponent;
    if gap >= 0 {
        let high = hi.significand * pow2(gap as nat);
        let low = lo.significand as int;
        lemma_rounded_wf(hi.negative, (high + low) as nat, lo.exponent as int);
        lemma_rounded_wf(hi.negative, (high - low) as nat, lo.exponent as int);
        lemma_rounded_wf(lo.negative, (low - high) as nat, lo.exponent as int);
    }
}

/// Adding zero to a value in normal form, or multiplying it by zero,
/// does what it does to a real number.
pub proof fn lemma_zero_laws(a: Real)
    requires
        a.wf(),
    ensures
        a.spec_add(Real::spec_zero()) == a,
        Real::spec_zero().spec_add(a) == a,
        a.spec_mul(Real::spec_zero()) == Real::spec_zero(),
        Real::spec_zero().spec_mul(a) == Real::spec_zero(),
{
    lemma_normal_of_wf(a);
    lemma_normal_of_wf(Real::spec_zero());
    assert(a.significand * 0 == 0 && 0 * a.significand == 0) by (nonlinear_arith);
    reveal(Real::rounded);
}

/// Decoding the bit pattern of a value gives back its normal form.
pub proof fn lemma_bits_round_trip(a: Real)
    ensures
        Real::spec_from_bits(a.spec_to_bits()) == a.normal(),
{
    lemma_rounded_wf(a.negative, a.significand as nat, a.exponent as int);
    let n = a.normal();
    if n.significand != 0 {
        let sign: int = if n.negative { 0x8000_0000_0000_0000int } else { 0 };
        let biased = n.exponent + 1075;
        let fraction = n.significand - 0x10_0000_0000_0000;
        let bits = sign + biased * 0x10_0000_0000_0000 + fraction;
        assert(1 <= biased <= 2046);
        assert(0 <= fraction < 0x10_0000_0000_0000);
        assert(bits / 0x10_0000_0000_0000 == (if n.negative { 2048int } else { 0 }) + biased);
        assert(bits % 0x10_0000_0000_0000 == fraction);
        assert(bits / 0x8000_0000_0000_0000 == (if n.negative { 1int } else { 0 }));
    }
}

} // verus!
