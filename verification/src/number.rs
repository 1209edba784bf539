//! A deterministic binary real-number type.
//!
//! A `Real` stands for the number `±significand · 2^exponent`. Every
//! operation computes the exact mathematical result and then rounds it to
//! the nearest number of 53 significant bits, a tie to the one whose last
//! bit is zero. Results too large to represent saturate at the largest
//! magnitude, results too small become zero. There are no infinities and
//! no not-a-number values. On numbers that stay in range the arithmetic
//! is that of IEEE 754 binary64.

use vstd::prelude::*;
use vstd::arithmetic::div_mod::lemma_div_denominator;
use vstd::arithmetic::power2::lemma2_to64;
use vstd::arithmetic::power2::lemma2_to64_rest;
use vstd::arithmetic::power2::lemma_pow2_adds;
use vstd::arithmetic::power2::lemma_pow2_pos;
use vstd::arithmetic::power2::lemma_pow2_strictly_increases;
use vstd::arithmetic::power2::lemma_pow2_unfold;
use vstd::arithmetic::power2::pow2;
use vstd::bits::lemma_u64_shl_is_mul;

verus! {

/// Smallest significand of a normalized nonzero value: `2^52`.
pub const SIG_MIN: u64 = 0x10_0000_0000_0000;

/// Largest significand of a normalized value: `2^53 - 1`.
pub const SIG_MAX: u64 = 0x1f_ffff_ffff_ffff;

/// Smallest exponent of a normalized nonzero value.
pub const EXP_MIN: i32 = -1074;

/// Largest exponent of a normalized value.
pub const EXP_MAX: i32 = 971;

/// The number `±significand · 2^exponent`.
#[derive(Clone, Copy, Debug, PartialEq, Eq, Structural)]
pub struct Real {
    pub negative: bool,
    pub significand: u64,
    pub exponent: i32,
}

/// Number of binary digits of `n`: zero for zero, else `floor(log2 n) + 1`.
pub open spec fn bit_length(n: nat) -> nat
    decreases n,
{
    if n == 0 {
        0
    } else {
        1 + bit_length(n / 2)
    }
}

/// A number below `2^k` has at most `k` binary digits, and one that is at
/// least `2^(k-1)` has at least `k`.
pub proof fn lemma_bit_length_bounds(n: nat, k: nat)
    ensures
        n < pow2(k) ==> bit_length(n) <= k,
        k >= 1 && n >= pow2((k - 1) as nat) ==> bit_length(n) >= k,
    decreases k,
{
    lemma_pow2_pos(k);
    if k == 0 {
        lemma2_to64();
    } else {
        lemma_pow2_unfold(k);
        if n > 0 {
            lemma_bit_length_bounds(n / 2, (k - 1) as nat);
            if k >= 2 {
                lemma_pow2_unfold((k - 1) as nat);
            } else {
                lemma2_to64();
            }
        } else {
            lemma_pow2_pos((k - 1) as nat);
        }
    }
}

/// Scaling by `2^0` changes nothing.
proof fn lemma_pow2_zero_is_unit(n: nat)
    ensures
        pow2(0) == 1,
        n / pow2(0) == n,
        n * pow2(0) == n,
{
    lemma2_to64();
    let d = pow2(0);
    assert(n / d == n && n * d == n) by (nonlinear_arith)
        requires
            d == 1,
    ;
}

/// Dropping the last `k` binary digits of a number of more than `k`
/// digits leaves `k` digits fewer.
pub proof fn lemma_bit_length_shift(n: nat, k: nat)
    requires
        n >= pow2(k),
    ensures
        bit_length(n) == k + bit_length(n / pow2(k)),
    decreases k,
{
    lemma_pow2_pos(k);
    if k == 0 {
        lemma_pow2_zero_is_unit(n);
    } else {
        lemma_pow2_unfold(k);
        lemma_pow2_pos((k - 1) as nat);
        lemma_bit_length_shift(n / 2, (k - 1) as nat);
        lemma_div_denominator(n as int, 2, pow2((k - 1) as nat) as int);
    }
}

/// A positive number lies between the two powers of two that its number
/// of binary digits names.
pub proof fn lemma_bit_length_brackets(n: nat)
    requires
        n > 0,
    ensures
        bit_length(n) >= 1,
        pow2((bit_length(n) - 1) as nat) <= n < pow2(bit_length(n)),
    decreases n,
{
    lemma2_to64();
    if n == 1 {
        assert(bit_length(0) == 0);
        assert(bit_length(1) == 1 + bit_length(0));
    } else {
        lemma_bit_length_brackets(n / 2);
        let l = bit_length(n / 2);
        assert(bit_length(n) == 1 + l);
        lemma_pow2_unfold(l);
        lemma_pow2_unfold((l + 1) as nat);
    }
}

/// The whole number nearest to `magnitude / 2^drop`; of two that are
/// equally near, the even one.
pub open spec fn nearest_quotient(magnitude: nat, drop: nat) -> nat {
    let unit = pow2(drop);
    let quotient = magnitude / unit;
    let rest = magnitude % unit;
    if 2 * rest > unit || (2 * rest == unit && quotient % 2 == 1) {
        quotient + 1
    } else {
        quotient
    }
}

/// A positive number brought to 53 binary digits: divided by the power of
/// two that leaves 53 digits and rounded to the nearest whole number, or
/// multiplied by the power of two that fills it up to 53 digits. Rounding
/// may carry into a 54th digit; the result is then `2^53`.
pub open spec fn leading_digits(magnitude: nat) -> nat {
    let excess = bit_length(magnitude) - 53;
    if excess > 0 {
        nearest_quotient(magnitude, excess as nat)
    } else {
        magnitude * pow2((-excess) as nat)
    }
}

/// The leading digits of a positive number lie between `2^52` and `2^53`.
pub proof fn lemma_leading_digits_normal(magnitude: nat)
    requires
        magnitude > 0,
    ensures
        SIG_MIN <= leading_digits(magnitude) <= SIG_MAX + 1,
        bit_length(magnitude) <= 53 ==> leading_digits(magnitude) <= SIG_MAX,
{
    lemma2_to64();
    lemma2_to64_rest();
    lemma_bit_length_brackets(magnitude);
    let l = bit_length(magnitude);
    let excess = l - 53;
    if excess > 0 {
        let d = pow2(excess as nat);
        lemma_pow2_pos(excess as nat);
        lemma_pow2_adds(52, excess as nat);
        lemma_pow2_adds(53, excess as nat);
        assert(pow2(52) <= magnitude / d < pow2(53)) by (nonlinear_arith)
            requires
                d > 0,
                pow2(52) * d <= magnitude < pow2(53) * d,
        ;
    } else {
        let d = pow2((-excess) as nat);
        lemma_pow2_pos((-excess) as nat);
        lemma_pow2_adds((l - 1) as nat, (-excess) as nat);
        lemma_pow2_adds(l, (-excess) as nat);
        assert(pow2((l - 1) as nat) * d <= magnitude * d < pow2(l) * d) by (nonlinear_arith)
            requires
                d > 0,
                pow2((l - 1) as nat) <= magnitude < pow2(l),
        ;
    }
}

/// Drops the last `k` binary digits of `rest`, where it has more than
/// `k`, and says how many were dropped.
fn drop_digits(rest: u128, k: u32, unit: u128) -> (out: (u128, u32))
    requires
        unit == pow2(k as nat),
        k <= 64,
    ensures
        bit_length(rest as nat) == out.1 + bit_length(out.0 as nat),
        out.1 == 0 || out.1 == k,
        rest < unit * unit ==> out.0 < unit,
{
    proof {
        lemma_pow2_pos(k as nat);
    }
    if rest >= unit {
        proof {
            lemma_bit_length_shift(rest as nat, k as nat);
            assert(rest < unit * unit ==> rest / unit < unit) by (nonlinear_arith)
                requires
                    unit > 0,
            ;
        }
        (rest / unit, k)
    } else {
        (rest, 0)
    }
}

/// The number of binary digits of `n`.
pub fn bit_count(n: u128) -> (count: u32)
    ensures
        count == bit_length(n as nat),
        count <= 128,
{
    proof {
        lemma2_to64();
        lemma2_to64_rest();
    }
    let (r64, c64) = drop_digits(n, 64, 0x1_0000_0000_0000_0000);
    let (r32, c32) = drop_digits(r64, 32, 0x1_0000_0000);
    let (r16, c16) = drop_digits(r32, 16, 0x1_0000);
    let (r8, c8) = drop_digits(r16, 8, 0x100);
    let (r4, c4) = drop_digits(r8, 4, 0x10);
    let (r2, c2) = drop_digits(r4, 2, 4);
    let (r1, c1) = drop_digits(r2, 1, 2);
    proof {
        assert(bit_length(0) == 0);
        assert(bit_length(1) == 1 + bit_length(0));
    }
    let last: u32 = if r1 >= 1 { 1 } else { 0 };
    c64 + c32 + c16 + c8 + c4 + c2 + c1 + last
}

impl Real {
    /// The canonical zero.
    pub open spec fn spec_zero() -> Real {
        Real { negative: false, significand: 0, exponent: 0 }
    }

    /// Largest representable magnitude, with the given sign.
    pub open spec fn spec_huge(negative: bool) -> Real {
        Real { negative, significand: SIG_MAX, exponent: EXP_MAX }
    }

    /// Normal form: the canonical zero, or a 53-bit significand with an
    /// exponent in range.
    pub open spec fn wf(self) -> bool {
        ||| self == Real::spec_zero()
        ||| (SIG_MIN <= self.significand <= SIG_MAX && EXP_MIN <= self.exponent <= EXP_MAX)
    }

    /// The exact number `±magnitude · 2^exponent` rounded to the nearest
    /// number of 53 significant bits, ties to even, saturated above and
    /// flushed to zero below.
    #[verifier::opaque]
    pub open spec fn rounded(negative: bool, magnitude: nat, exponent: int) -> Real {
        let digits = leading_digits(magnitude);
        let carry: int = if digits > SIG_MAX { 1 } else { 0 };
        let raised = exponent + bit_length(magnitude) - 53 + carry;
        if magnitude == 0 {
            Real::spec_zero()
        } else if raised > EXP_MAX {
            Real::spec_huge(negative)
        } else if raised < EXP_MIN {
            Real::spec_zero()
        } else {
            Real {
                negative,
                significand: (if digits > SIG_MAX { SIG_MIN as nat } else { digits }) as u64,
                exponent: raised as i32,
            }
        }
    }

    /// Rounds the exact number `±magnitude · 2^exponent`.
    pub fn round(negative: bool, magnitude: u128, exponent: i64) -> (r: Real)
        ensures
            r == Real::rounded(negative, magnitude as nat, exponent as int),
            r.wf(),
    {
        reveal(Real::rounded);
        if magnitude == 0 {
            return Real { negative: false, significand: 0, exponent: 0 };
        }
        proof {
            lemma_leading_digits_normal(magnitude as nat);
        }
        let excess: i64 = bit_count(magnitude) as i64 - 53;
        let digits: u128 = if excess > 0 {
            let unit: u128 = wide_power_of_two(excess as u32);
            let quotient: u128 = magnitude / unit;
            let rest: u128 = magnitude % unit;
            if rest > unit - rest || (rest == unit - rest && quotient % 2 == 1) {
                quotient + 1
            } else {
                quotient
            }
        } else {
            magnitude * (power_of_two((-excess) as u64) as u128)
        };
        let carried: bool = digits > SIG_MAX as u128;
        let raise: i64 = if carried { excess + 1 } else { excess };
        if exponent > EXP_MAX as i64 - raise {
            Real { negative, significand: SIG_MAX, exponent: EXP_MAX }
        } else if exponent < EXP_MIN as i64 - raise {
            Real { negative: false, significand: 0, exponent: 0 }
        } else if carried {
            Real { negative, significand: SIG_MIN, exponent: (exponent + raise) as i32 }
        } else {
            Real { negative, significand: digits as u64, exponent: (exponent + raise) as i32 }
        }
    }

    /// The canonical zero.
    pub fn zero() -> (r: Real)
        ensures
            r == Real::spec_zero(),
    {
        Real { negative: false, significand: 0, exponent: 0 }
    }

    /// The whole number `n`, rounded if it has more than 53 bits.
    pub open spec fn spec_from_int(n: int) -> Real {
        Real::rounded(n < 0, (if n < 0 { -n } else { n }) as nat, 0)
    }

    /// The whole number `n`, rounded if it has more than 53 bits.
    pub fn from_int(n: i64) -> (r: Real)
        ensures
            r == Real::spec_from_int(n as int),
            r.wf(),
    {
        let magnitude: u128 = if n < 0 {
            (-(n as i128)) as u128
        } else {
            n as u128
        };
        Real::round(n < 0, magnitude, 0)
    }

    /// This value in normal form.
    pub open spec fn normal(self) -> Real {
        Real::rounded(self.negative, self.significand as nat, self.exponent as int)
    }

    /// The same magnitude with the opposite sign; zero stays zero.
    pub open spec fn spec_neg(self) -> Real {
        if self.significand == 0 {
            self
        } else {
            Real { negative: !self.negative, significand: self.significand, exponent: self.exponent }
        }
    }

    /// The same magnitude with the opposite sign; zero stays zero.
    #[verifier::when_used_as_spec(spec_neg)]
    pub fn neg(self) -> (r: Real)
        ensures
            r == self.spec_neg(),
    {
        if self.significand == 0 {
            self
        } else {
            Real { negative: !self.negative, significand: self.significand, exponent: self.exponent }
        }
    }

    /// The exact sum of the two numbers, rounded. An operand whose exponent
    /// lies more than 63 below the other's is absorbed.
    pub open spec fn spec_add(self, other: Real) -> Real {
        if self.significand == 0 {
            other.normal()
        } else if other.significand == 0 {
            self.normal()
        } else {
            let hi = if self.exponent >= other.exponent { self } else { other };
            let lo = if self.exponent >= other.exponent { other } else { self };
            let gap = hi.exponent - lo.exponent;
            if gap > 63 {
                hi.normal()
            } else {
                let high = hi.significand * pow2(gap as nat);
                let low = lo.significand as int;
                if hi.negative == lo.negative {
                    Real::rounded(hi.negative, (high + low) as nat, lo.exponent as int)
                } else if high >= low {
                    Real::rounded(hi.negative, (high - low) as nat, lo.exponent as int)
                } else {
                    Real::rounded(lo.negative, (low - high) as nat, lo.exponent as int)
                }
            }
        }
    }

    /// The rounded sum.
    #[verifier::when_used_as_spec(spec_add)]
    pub fn add(self, other: Real) -> (r: Real)
        ensures
            r == self.spec_add(other),
            r.wf(),
    {
        if self.significand == 0 {
            return Real::round(other.negative, other.significand as u128, other.exponent as i64);
        }
        if other.significand == 0 {
            return Real::round(self.negative, self.significand as u128, self.exponent as i64);
        }
        let hi: Real = if self.exponent >= other.exponent { self } else { other };
        let lo: Real = if self.exponent >= other.exponent { other } else { self };
        let gap: i64 = hi.exponent as i64 - lo.exponent as i64;
        if gap > 63 {
            return Real::round(hi.negative, hi.significand as u128, hi.exponent as i64);
        }
        let scale: u64 = power_of_two(gap as u64);
        assert(hi.significand * scale <= 0xffff_ffff_ffff_ffff * 0x8000_0000_0000_0000)
            by (nonlinear_arith)
            requires
                hi.significand <= 0xffff_ffff_ffff_ffff,
                scale <= 0x8000_0000_0000_0000,
        ;
        let high: u128 = hi.significand as u128 * scale as u128;
        let low: u128 = lo.significand as u128;
        if hi.negative == lo.negative {
            Real::round(hi.negative, high + low, lo.exponent as i64)
        } else if high >= low {
            Real::round(hi.negative, high - low, lo.exponent as i64)
        } else {
            Real::round(lo.negative, low - high, lo.exponent as i64)
        }
    }

    /// The rounded difference: the sum with the negated second operand.
    pub open spec fn spec_sub(self, other: Real) -> Real {
        self.spec_add(other.spec_neg())
    }

    /// The rounded difference.
    #[verifier::when_used_as_spec(spec_sub)]
    pub fn sub(self, other: Real) -> (r: Real)
        ensures
            r == self.spec_sub(other),
            r.wf(),
    {
        self.add(other.neg())
    }

    /// The exact product of the two numbers, rounded.
    pub open spec fn spec_mul(self, other: Real) -> Real {
        Real::rounded(
            self.negative != other.negative,
            (self.significand * other.significand) as nat,
            self.exponent + other.exponent,
        )
    }

    /// The rounded product.
    #[verifier::when_used_as_spec(spec_mul)]
    pub fn mul(self, other: Real) -> (r: Real)
        ensures
            r == self.spec_mul(other),
            r.wf(),
    {
        assert(self.significand * other.significand <= 0xffff_ffff_ffff_ffff
            * 0xffff_ffff_ffff_ffff) by (nonlinear_arith)
            requires
                self.significand <= 0xffff_ffff_ffff_ffff,
                other.significand <= 0xffff_ffff_ffff_ffff,
        ;
        let product: u128 = self.significand as u128 * other.significand as u128;
        Real::round(
            self.negative != other.negative,
            product,
            self.exponent as i64 + other.exponent as i64,
        )
    }

    /// The quotient of the two numbers, rounded. Division of a nonzero
    /// number by zero saturates; zero divided by zero is zero.
    ///
    /// The quotient of the significands is taken to 64 binary places; a
    /// last place is appended that is one where the division left a rest,
    /// so that rounding sees on which side of a tie the exact quotient is.
    pub open spec fn spec_div(self, other: Real) -> Real {
        if other.significand == 0 {
            if self.significand == 0 {
                Real::spec_zero()
            } else {
                Real::spec_huge(self.negative != other.negative)
            }
        } else {
            let numerator = (self.significand * pow2(63)) as nat;
            let divisor = other.significand as nat;
            Real::rounded(
                self.negative != other.negative,
                with_rest(numerator / divisor, numerator % divisor != 0),
                self.exponent - other.exponent - 64,
            )
        }
    }

    /// The rounded quotient.
    #[verifier::when_used_as_spec(spec_div)]
    pub fn div(self, other: Real) -> (r: Real)
        ensures
            r == self.spec_div(other),
            r.wf(),
    {
        if other.significand == 0 {
            if self.significand == 0 {
                return Real::zero();
            }
            return Real {
                negative: self.negative != other.negative,
                significand: SIG_MAX,
                exponent: EXP_MAX,
            };
        }
        let scale: u64 = power_of_two(63);
        assert(self.significand * scale <= 0xffff_ffff_ffff_ffff * 0x8000_0000_0000_0000)
            by (nonlinear_arith)
            requires
                self.significand <= 0xffff_ffff_ffff_ffff,
                scale <= 0x8000_0000_0000_0000,
        ;
        let numerator: u128 = self.significand as u128 * scale as u128;
        let quotient: u128 = numerator / (other.significand as u128);
        let inexact: bool = numerator % (other.significand as u128) != 0;
        assert(quotient <= numerator);
        Real::round(
            self.negative != other.negative,
            append_rest(quotient, inexact),
            self.exponent as i64 - other.exponent as i64 - 64,
        )
    }

    /// The square root, rounded. The root of a negative number is zero.
    ///
    /// The root of the significand is taken to whole numbers; a last place
    /// is appended that is one where the root is not exact.
    pub open spec fn spec_sqrt(self) -> Real {
        if self.negative || self.significand == 0 {
            Real::spec_zero()
        } else {
            let k: int = if self.exponent % 2 == 0 { 62 } else { 63 };
            let radicand = (self.significand * pow2(k as nat)) as nat;
            let root = floor_sqrt(radicand);
            Real::rounded(false, with_rest(root, root * root != radicand), (self.exponent - k) / 2 - 1)
        }
    }

    /// The rounded square root.
    #[verifier::when_used_as_spec(spec_sqrt)]
    pub fn sqrt(self) -> (r: Real)
        ensures
            r == self.spec_sqrt(),
            r.wf(),
    {
        if self.negative || self.significand == 0 {
            return Real::zero();
        }
        // The exponent, moved into the non-negative numbers by an even offset.
        let lifted: u64 = (self.exponent as i64 + 0x8000_0040) as u64;
        let k: u64 = if lifted % 2 == 0 { 62 } else { 63 };
        let scale: u64 = power_of_two(k);
        assert(self.significand * scale <= 0xffff_ffff_ffff_ffff * 0x8000_0000_0000_0000)
            by (nonlinear_arith)
            requires
                self.significand <= 0xffff_ffff_ffff_ffff,
                scale <= 0x8000_0000_0000_0000,
        ;
        let radicand: u128 = self.significand as u128 * scale as u128;
        let root: u64 = integer_sqrt(radicand);
        assert(root * root <= 0xffff_ffff_ffff_ffff * 0xffff_ffff_ffff_ffff) by (nonlinear_arith)
            requires
                root <= 0xffff_ffff_ffff_ffff,
        ;
        let inexact: bool = root as u128 * root as u128 != radicand;
        let halved: u64 = (lifted - k) / 2;
        Real::round(false, append_rest(root as u128, inexact), halved as i64 - 0x4000_0021)
    }

    /// The value that a 64-bit pattern denotes in the IEEE 754 binary64
    /// layout: one sign bit, eleven exponent bits, fifty-two fraction bits.
    /// Subnormal patterns and not-a-number patterns denote zero, the
    /// infinities denote the largest magnitude.
    pub open spec fn spec_from_bits(bits: u64) -> Real {
        let negative = bits / 0x8000_0000_0000_0000 == 1;
        let biased = (bits / 0x10_0000_0000_0000) % 2048;
        let fraction = bits % 0x10_0000_0000_0000;
        if biased == 0 {
            Real::spec_zero()
        } else if biased == 2047 {
            if fraction == 0 {
                Real::spec_huge(negative)
            } else {
                Real::spec_zero()
            }
        } else {
            Real {
                negative,
                significand: (0x10_0000_0000_0000 + fraction) as u64,
                exponent: (biased - 1075) as i32,
            }
        }
    }

    /// Decodes a binary64 bit pattern.
    pub fn from_bits(bits: u64) -> (r: Real)
        ensures
            r == Real::spec_from_bits(bits),
            r.wf(),
    {
        let negative: bool = bits / 0x8000_0000_0000_0000 == 1;
        let biased: u64 = (bits / 0x10_0000_0000_0000) % 2048;
        let fraction: u64 = bits % 0x10_0000_0000_0000;
        if biased == 0 {
            Real::zero()
        } else if biased == 2047 {
            if fraction == 0 {
                Real { negative, significand: SIG_MAX, exponent: EXP_MAX }
            } else {
                Real::zero()
            }
        } else {
            Real {
                negative,
                significand: 0x10_0000_0000_0000 + fraction,
                exponent: (biased as i64 - 1075) as i32,
            }
        }
    }

    /// The binary64 bit pattern that denotes this value's normal form.
    pub open spec fn spec_to_bits(self) -> u64 {
        let n = self.normal();
        if n.significand == 0 {
            0
        } else {
            ((if n.negative { 0x8000_0000_0000_0000int } else { 0 }) + (n.exponent + 1075)
                * 0x10_0000_0000_0000 + (n.significand - 0x10_0000_0000_0000)) as u64
        }
    }

    /// Encodes this value as a binary64 bit pattern.
    #[verifier::when_used_as_spec(spec_to_bits)]
    pub fn to_bits(self) -> (bits: u64)
        ensures
            bits == self.spec_to_bits(),
    {
        let n: Real = Real::round(self.negative, self.significand as u128, self.exponent as i64);
        if n.significand == 0 {
            0
        } else {
            let sign: u64 = if n.negative { 0x8000_0000_0000_0000 } else { 0 };
            let biased: u64 = (n.exponent as i64 + 1075) as u64;
            sign + biased * 0x10_0000_0000_0000 + (n.significand - 0x10_0000_0000_0000)
        }
    }

    /// Whether the magnitude of `self` is below that of `other`, for values
    /// in normal form.
    pub open spec fn magnitude_below(self, other: Real) -> bool {
        if self.significand == 0 {
            other.significand != 0
        } else if other.significand == 0 {
            false
        } else {
            self.exponent < other.exponent || (self.exponent == other.exponent
                && self.significand < other.significand)
        }
    }

    /// Whether `self` is the smaller number, for values in normal form.
    pub open spec fn spec_lt(self, other: Real) -> bool {
        if self.negative != other.negative {
            self.negative
        } else if self.negative {
            other.magnitude_below(self)
        } else {
            self.magnitude_below(other)
        }
    }

    /// Whether `self` is the smaller number.
    #[verifier::when_used_as_spec(spec_lt)]
    pub fn lt(self, other: Real) -> (b: bool)
        ensures
            b == self.spec_lt(other),
    {
        if self.negative != other.negative {
            self.negative
        } else if self.negative {
            other.below_in_magnitude(self)
        } else {
            self.below_in_magnitude(other)
        }
    }

    fn below_in_magnitude(self, other: Real) -> (b: bool)
        ensures
            b == self.magnitude_below(other),
    {
        if self.significand == 0 {
            other.significand != 0
        } else if other.significand == 0 {
            false
        } else {
            self.exponent < other.exponent || (self.exponent == other.exponent
                && self.significand < other.significand)
        }
    }
}

/// The whole number `q` with one more binary digit appended: one where
/// something is left over beyond `q`, zero where nothing is.
pub open spec fn with_rest(q: nat, rest: bool) -> nat {
    if rest {
        2 * q + 1
    } else {
        2 * q
    }
}

/// Appends the digit that says whether something is left over.
fn append_rest(q: u128, rest: bool) -> (r: u128)
    requires
        q <= 0x7fff_ffff_ffff_ffff_ffff_ffff_ffff_ffff,
    ensures
        r == with_rest(q as nat, rest),
{
    if rest {
        2 * q + 1
    } else {
        2 * q
    }
}

/// Whether `r` is the largest whole number whose square does not exceed `n`.
pub open spec fn is_floor_sqrt(r: nat, n: nat) -> bool {
    r * r <= n < (r + 1) * (r + 1)
}

/// The largest whole number whose square does not exceed `n`.
pub open spec fn floor_sqrt(n: nat) -> nat {
    choose|r: nat| is_floor_sqrt(r, n)
}

/// Only one whole number has its square at most `n` and its successor's
/// square above `n`.
pub proof fn lemma_floor_sqrt_unique(n: nat, r: nat)
    requires
        is_floor_sqrt(r, n),
    ensures
        floor_sqrt(n) == r,
{
    let s = floor_sqrt(n);
    assert(is_floor_sqrt(s, n));
    assert(s == r) by (nonlinear_arith)
        requires
            s * s <= n < (s + 1) * (s + 1),
            r * r <= n < (r + 1) * (r + 1),
    ;
}

/// The largest whole number whose square does not exceed `n`.
pub fn integer_sqrt(n: u128) -> (r: u64)
    ensures
        r == floor_sqrt(n as nat),
        is_floor_sqrt(r as nat, n as nat),
{
    let mut root: u64 = 0;
    let mut bit: u64 = 64;
    proof {
        lemma2_to64();
        lemma2_to64_rest();
    }
    while bit > 0
        invariant
            bit <= 64,
            root * root <= n,
            n < (root + pow2(bit as nat)) * (root + pow2(bit as nat)),
            root + pow2(bit as nat) <= pow2(64),
            pow2(64) == 0x1_0000_0000_0000_0000,
        decreases bit,
    {
        bit = bit - 1;
        let step: u64 = power_of_two(bit);
        proof {
            lemma_pow2_unfold((bit + 1) as nat);
        }
        let candidate: u64 = root + step;
        assert(candidate * candidate <= 0xffff_ffff_ffff_ffff * 0xffff_ffff_ffff_ffff)
            by (nonlinear_arith)
            requires
                candidate <= 0xffff_ffff_ffff_ffff,
        ;
        if candidate as u128 * candidate as u128 <= n {
            root = candidate;
        }
    }
    proof {
        lemma2_to64();
        lemma_floor_sqrt_unique(n as nat, root as nat);
    }
    root
}

/// `2^k` for `k <= 126`.
pub fn wide_power_of_two(k: u32) -> (r: u128)
    requires
        k <= 126,
    ensures
        r == pow2(k as nat),
        r >= 1,
{
    if k <= 63 {
        power_of_two(k as u64) as u128
    } else {
        let low: u64 = power_of_two(63);
        let high: u64 = power_of_two((k - 63) as u64);
        proof {
            lemma_pow2_adds(63, (k - 63) as nat);
            assert(low * high <= 0x8000_0000_0000_0000 * 0x8000_0000_0000_0000)
                by (nonlinear_arith)
                requires
                    low <= 0x8000_0000_0000_0000,
                    high <= 0x8000_0000_0000_0000,
            ;
            assert(low * high >= 1) by (nonlinear_arith)
                requires
                    low >= 1,
                    high >= 1,
            ;
        }
        low as u128 * high as u128
    }
}

/// `2^k` for `k <= 63`.
pub fn power_of_two(k: u64) -> (r: u64)
    requires
        k <= 63,
    ensures
        r == pow2(k as nat),
        1 <= r <= 0x8000_0000_0000_0000,
{
    proof {
        lemma2_to64();
        lemma2_to64_rest();
        if k < 63 {
            lemma_pow2_strictly_increases(k as nat, 63);
        }
        lemma_pow2_pos(k as nat);
        lemma_u64_shl_is_mul(1, k);
    }
    1u64 << k
}

} // verus!
