//! IEEE 754 binary64 numbers, held as bit patterns, with correctly rounded
//! arithmetic.
//!
//! Rounding is to nearest, ties to even. Every operation that yields "not a
//! number" yields the one quiet pattern `NAN_BITS`.
use crate::rounding;
use crate::rounding::{power_of_two, round_scaled, EXPONENT_STEP, INFINITY_BITS};
use vstd::arithmetic::div_mod::*;
use vstd::arithmetic::mul::*;
use vstd::arithmetic::power2::*;
use vstd::prelude::*;

verus! {

/// The sign bit.
pub const SIGN_BIT: u64 = 0x8000_0000_0000_0000;

/// The quiet "not a number" that operations yield.
pub const NAN_BITS: u64 = 0x7ff8_0000_0000_0000;

/// A binary64 number.
#[derive(Clone, Copy, Debug)]
pub struct Double {
    pub bits: u64,
}

/// The number with the given sign and magnitude pattern.
pub open spec fn signed(negative: bool, magnitude: nat) -> Double {
    Double { bits: (magnitude + if negative { SIGN_BIT as nat } else { 0 }) as u64 }
}

/// The "not a number" that operations yield.
pub open spec fn nan() -> Double {
    Double { bits: NAN_BITS }
}

impl Double {
    /// Whether the sign bit is set.
    pub open spec fn negative(self) -> bool {
        self.bits >= SIGN_BIT
    }

    /// The pattern without its sign bit.
    pub open spec fn magnitude(self) -> nat {
        (self.bits % SIGN_BIT) as nat
    }

    pub open spec fn is_nan(self) -> bool {
        self.magnitude() > INFINITY_BITS
    }

    pub open spec fn is_infinite(self) -> bool {
        self.magnitude() == INFINITY_BITS
    }

    pub open spec fn is_finite(self) -> bool {
        self.magnitude() < INFINITY_BITS
    }

    pub open spec fn is_zero(self) -> bool {
        self.magnitude() == 0
    }

    /// The exponent of the spacing: consecutive magnitudes near a finite
    /// number are `2^spacing` units apart.
    pub open spec fn spacing(self) -> nat {
        let field = self.magnitude() / EXPONENT_STEP as nat;
        if field == 0 {
            0
        } else {
            (field - 1) as nat
        }
    }

    /// The significand of a finite number, with its leading bit.
    pub open spec fn significand(self) -> nat {
        (self.magnitude() - self.spacing() * EXPONENT_STEP) as nat
    }

    /// The absolute value of a finite number in units of 2^-1074.
    pub open spec fn units(self) -> nat {
        self.significand() * pow2(self.spacing())
    }

    /// The value of a finite number in units of 2^-1074.
    pub open spec fn value(self) -> int {
        if self.negative() {
            -(self.units() as int)
        } else {
            self.units() as int
        }
    }

    /// The place of a number in the order of all numbers; both zeros share
    /// place 0.
    pub open spec fn order(self) -> int {
        if self.negative() {
            -(self.magnitude() as int)
        } else {
            self.magnitude() as int
        }
    }
}

/// `a + b`.
#[verifier::opaque]
pub open spec fn sum(a: Double, b: Double) -> Double {
    if a.is_nan() || b.is_nan() {
        nan()
    } else if a.is_infinite() {
        if b.is_infinite() && a.negative() != b.negative() {
            nan()
        } else {
            a
        }
    } else if b.is_infinite() {
        b
    } else {
        let total = a.value() + b.value();
        if total > 0 {
            signed(false, rounding::round(total as nat, 1))
        } else if total < 0 {
            signed(true, rounding::round((-total) as nat, 1))
        } else {
            signed(a.negative() && b.negative(), 0)
        }
    }
}

/// `-a`.
pub open spec fn negation(a: Double) -> Double {
    signed(!a.negative(), a.magnitude())
}

/// `a - b`.
pub open spec fn difference(a: Double, b: Double) -> Double {
    sum(a, negation(b))
}

/// `a * b`.
#[verifier::opaque]
pub open spec fn product(a: Double, b: Double) -> Double {
    let negative = a.negative() != b.negative();
    if a.is_nan() || b.is_nan() {
        nan()
    } else if a.is_infinite() || b.is_infinite() {
        if a.is_zero() || b.is_zero() {
            nan()
        } else {
            signed(negative, INFINITY_BITS as nat)
        }
    } else {
        signed(negative, rounding::round(a.units() * b.units(), pow2(1074)))
    }
}

/// `a / b`.
#[verifier::opaque]
pub open spec fn quotient(a: Double, b: Double) -> Double {
    let negative = a.negative() != b.negative();
    if a.is_nan() || b.is_nan() {
        nan()
    } else if a.is_infinite() {
        if b.is_infinite() {
            nan()
        } else {
            signed(negative, INFINITY_BITS as nat)
        }
    } else if b.is_infinite() {
        signed(negative, 0)
    } else if b.is_zero() {
        if a.is_zero() {
            nan()
        } else {
            signed(negative, INFINITY_BITS as nat)
        }
    } else {
        signed(negative, rounding::round(a.units() * pow2(1074), b.units()))
    }
}

/// `|a|`.
pub open spec fn absolute(a: Double) -> Double {
    signed(false, a.magnitude())
}

/// `a < b`; false where either is not a number.
pub open spec fn less(a: Double, b: Double) -> bool {
    !a.is_nan() && !b.is_nan() && a.order() < b.order()
}

/// `a <= b`; false where either is not a number.
pub open spec fn less_or_equal(a: Double, b: Double) -> bool {
    !a.is_nan() && !b.is_nan() && a.order() <= b.order()
}

/// The number nearest to the integer `n`.
pub open spec fn of_nat(n: nat) -> Double {
    signed(false, rounding::round(n * pow2(1074), 1))
}

/// `a` truncated to an integer between 0 and `u128::MAX`, saturating; 0 where
/// `a` is not a number.
pub open spec fn truncated(a: Double) -> u128 {
    if a.is_nan() || a.negative() {
        0
    } else if a.is_infinite() || a.units() / pow2(1074) > u128::MAX {
        u128::MAX
    } else {
        (a.units() / pow2(1074)) as u128
    }
}

/// The larger of `a` and `b`, or the one that is a number.
pub open spec fn larger(a: Double, b: Double) -> Double {
    if a.is_nan() || less(a, b) {
        b
    } else {
        a
    }
}

/// The smaller of `a` and `b`, or the one that is a number.
pub open spec fn smaller(a: Double, b: Double) -> Double {
    if a.is_nan() || less(b, a) {
        b
    } else {
        a
    }
}

/// `a` confined to the range from `low` to `high`.
pub open spec fn clamped(a: Double, low: Double, high: Double) -> Double {
    if less(a, low) {
        low
    } else if less(high, a) {
        high
    } else {
        a
    }
}

/// The pattern of a spacing and a significand, taken apart again.
pub proof fn lemma_parts(a: Double)
    requires
        a.is_finite(),
    ensures
        a.spacing() <= 2045,
        a.significand() < 0x20_0000_0000_0000,
        a.spacing() > 0 ==> a.significand() >= 0x10_0000_0000_0000,
        a.magnitude() == a.spacing() * EXPONENT_STEP + a.significand(),
        a.units() == 0 <==> a.is_zero(),
{
    let field = a.magnitude() / EXPONENT_STEP as nat;
    assert(field <= 2046);
    lemma_pow2_pos(a.spacing());
    lemma_mul_nonzero(a.significand() as int, pow2(a.spacing()) as int);
}

impl Double {
    /// The number with the given pattern.
    pub fn from_bits(bits: u64) -> (number: Double)
        ensures
            number == (Double { bits }),
    {
        Double { bits }
    }

    /// The pattern of the number.
    pub fn to_bits(self) -> (bits: u64)
        ensures
            bits == self.bits,
    {
        self.bits
    }

    pub(crate) fn has_sign(self) -> (answer: bool)
        ensures
            answer == self.negative(),
    {
        self.bits >= SIGN_BIT
    }

    pub(crate) fn unsigned(self) -> (magnitude: u64)
        ensures
            magnitude == self.magnitude(),
            magnitude < SIGN_BIT,
    {
        self.bits % SIGN_BIT
    }

    fn assemble(negative: bool, magnitude: u64) -> (number: Double)
        requires
            magnitude <= INFINITY_BITS,
        ensures
            number == signed(negative, magnitude as nat),
    {
        if negative {
            Double { bits: magnitude + SIGN_BIT }
        } else {
            Double { bits: magnitude }
        }
    }

    /// The significand and spacing exponent of a finite number.
    pub(crate) fn split(self) -> (parts: (u64, u32))
        requires
            self.is_finite(),
        ensures
            parts.0 == self.significand(),
            parts.1 == self.spacing(),
            parts.1 <= 2045,
            parts.0 < 0x20_0000_0000_0000,
            parts.1 > 0 ==> parts.0 >= 0x10_0000_0000_0000,
            self.units() == parts.0 * pow2(parts.1 as nat),
    {
        proof {
            lemma_parts(self);
        }
        let magnitude: u64 = self.unsigned();
        let field: u64 = magnitude / EXPONENT_STEP;
        let spacing: u64 = if field == 0 {
            0
        } else {
            field - 1
        };
        (magnitude - spacing * EXPONENT_STEP, spacing as u32)
    }

    /// Whether the number is "not a number".
    pub fn check_nan(self) -> (answer: bool)
        ensures
            answer == self.is_nan(),
    {
        self.unsigned() > INFINITY_BITS
    }

    /// Whether the number is a zero of either sign.
    pub fn check_zero(self) -> (answer: bool)
        ensures
            answer == self.is_zero(),
    {
        self.unsigned() == 0
    }

    /// `-self`.
    pub fn negate(self) -> (number: Double)
        ensures
            number == negation(self),
    {
        let magnitude: u64 = self.unsigned();
        if self.has_sign() {
            Double { bits: magnitude }
        } else {
            Double { bits: magnitude + SIGN_BIT }
        }
    }

    /// `|self|`.
    pub fn abs(self) -> (number: Double)
        ensures
            number == absolute(self),
    {
        Double { bits: self.unsigned() }
    }

    /// `self < other`.
    pub fn lt(self, other: Double) -> (answer: bool)
        ensures
            answer == less(self, other),
    {
        if self.check_nan() || other.check_nan() {
            return false;
        }
        let a: u64 = self.unsigned();
        let b: u64 = other.unsigned();
        if self.has_sign() {
            if other.has_sign() {
                b < a
            } else {
                a > 0 || b > 0
            }
        } else if other.has_sign() {
            false
        } else {
            a < b
        }
    }

    /// `self <= other`.
    pub fn le(self, other: Double) -> (answer: bool)
        ensures
            answer == less_or_equal(self, other),
    {
        if self.check_nan() || other.check_nan() {
            return false;
        }
        !other.lt(self)
    }

    /// `self > other`.
    pub fn gt(self, other: Double) -> (answer: bool)
        ensures
            answer == less(other, self),
    {
        other.lt(self)
    }
}

/// Two magnitudes whose spacings lie far apart: the sum or difference rounds
/// as the larger one with a sticky bit.
proof fn lemma_far_total(m: nat, k: nat, n: nat, j: nat, subtract: bool)
    requires
        0x10_0000_0000_0000 <= m < 0x20_0000_0000_0000,
        0 < n < 0x20_0000_0000_0000,
        k > j + 70,
    ensures
        m * pow2(k) > n * pow2(j),
        !subtract ==> rounding::round(m * pow2(k) + n * pow2(j), 1) == rounding::round(
            (m * 2048 + 1) as nat * pow2((k - 11) as nat),
            1,
        ),
        subtract ==> rounding::round((m * pow2(k) - n * pow2(j)) as nat, 1) == rounding::round(
            (m * 2048 - 1) as nat * pow2((k - 11) as nat),
            1,
        ),
{
    let u = pow2((k - 10) as nat);
    let small = n * pow2(j);
    lemma2_to64();
    lemma2_to64_rest();
    lemma_pow2_pos(j);
    lemma_pow2_pos((k - 10) as nat);
    lemma_pow2_adds((k - 10) as nat, 10);
    // small < 2^(53+j) <= u
    lemma_pow2_adds(53, j);
    lemma_mul_strict_inequality(n as int, pow2(53) as int, pow2(j) as int);
    rounding::lemma_pow2_monotone(53 + j, (k - 10) as nat);
    lemma_mul_strictly_positive(n as int, pow2(j) as int);
    let whole = m * 1024;
    assert(m * pow2(k) == whole * u) by (nonlinear_arith)
        requires
            pow2(k) == u * 1024,
            whole == m * 1024,
    ;
    assert(whole * u >= u) by (nonlinear_arith)
        requires
            whole >= 1,
            u >= 0,
    ;
    lemma_mul_basics(u as int);
    lemma_pow2_unfold((k - 10) as nat);
    let half = pow2((k - 11) as nat);
    lemma_pow2_pos((k - 11) as nat);
    if subtract {
        let q = (whole - 1) as nat;
        let r = (u - small) as nat;
        assert(q * u + r == whole * u - small) by (nonlinear_arith)
            requires
                q == whole - 1,
                r == u - small,
        ;
        rounding::lemma_round_sticky((whole * u - small) as nat, 1, q, u, r, (k - 10) as nat, 0);
        assert((2 * q + 1) == m * 2048 - 1);
        lemma_mul_is_associative((2 * q + 1) as int, half as int, 2);
        rounding::lemma_round_scaled((2 * q + 1) * half, 1, 2);
    } else {
        rounding::lemma_round_sticky(whole * u + small, 1, whole, u, small, (k - 10) as nat, 0);
        assert((2 * whole + 1) == m * 2048 + 1);
        lemma_mul_is_associative((2 * whole + 1) as int, half as int, 2);
        rounding::lemma_round_scaled((2 * whole + 1) * half, 1, 2);
    }
}

/// The magnitude pattern of `m * 2^k + n * 2^j` or, with `subtract`, of their
/// absolute difference, and whether the second term is the larger one.
fn combine(m: u64, k: u32, n: u64, j: u32, subtract: bool) -> (result: (u64, bool))
    requires
        m < 0x20_0000_0000_0000,
        n < 0x20_0000_0000_0000,
        k >= j,
        k <= 2045,
        k > 0 ==> m >= 0x10_0000_0000_0000,
    ensures
        !subtract ==> result == (
            rounding::round((m * pow2(k as nat) + n * pow2(j as nat)) as nat, 1) as u64,
            false,
        ),
        subtract ==> result.1 == (m * pow2(k as nat) < n * pow2(j as nat)),
        subtract && !result.1 ==> result.0 == rounding::round(
            (m * pow2(k as nat) - n * pow2(j as nat)) as nat,
            1,
        ),
        subtract && result.1 ==> result.0 == rounding::round(
            (n * pow2(j as nat) - m * pow2(k as nat)) as nat,
            1,
        ),
        result.0 <= INFINITY_BITS,
{
    let gap: u32 = k - j;
    let ghost pk = pow2(k as nat);
    let ghost pj = pow2(j as nat);
    if gap <= 70 {
        let power: u128 = power_of_two(gap);
        let ghost pg = pow2(gap as nat);
        proof {
            lemma_pow2_adds(gap as nat, j as nat);
            rounding::lemma_pow2_monotone(gap as nat, 70);
            lemma2_to64();
            lemma_pow2_adds(64, 6);
            lemma_pow2_pos(gap as nat);
            assert(m * pg < 0x20_0000_0000_0000 * 0x40_0000_0000_0000_0000) by (nonlinear_arith)
                requires
                    m < 0x20_0000_0000_0000,
                    0 < pg <= 0x40_0000_0000_0000_0000,
            ;
            assert(m * pk == (m * pg) * pj) by (nonlinear_arith)
                requires
                    pk == pg * pj,
            ;
        }
        let large: u128 = m as u128 * power;
        let small: u128 = n as u128;
        if !subtract {
            proof {
                lemma_mul_is_distributive_add_other_way(pj as int, large as int, small as int);
            }
            (round_scaled(large + small, j as i32), false)
        } else if large >= small {
            proof {
                lemma_mul_is_distributive_sub_other_way(pj as int, large as int, small as int);
                lemma_mul_inequality(small as int, large as int, pj as int);
            }
            (round_scaled(large - small, j as i32), false)
        } else {
            proof {
                lemma_mul_is_distributive_sub_other_way(pj as int, small as int, large as int);
                lemma_pow2_pos(j as nat);
                lemma_mul_strict_inequality(large as int, small as int, pj as int);
            }
            (round_scaled(small - large, j as i32), true)
        }
    } else if n == 0 {
        proof {
            lemma_mul_basics(pj as int);
        }
        (round_scaled(m as u128, k as i32), false)
    } else {
        proof {
            lemma_far_total(m as nat, k as nat, n as nat, j as nat, subtract);
        }
        let jammed: u128 = if subtract {
            m as u128 * 2048 - 1
        } else {
            m as u128 * 2048 + 1
        };
        (round_scaled(jammed, k as i32 - 11), false)
    }
}

/// A whole number of units other than zero does not round to zero.
proof fn lemma_nonzero_total(total: int)
    ensures
        total > 0 ==> rounding::round(total as nat, 1) > 0,
        total < 0 ==> rounding::round((-total) as nat, 1) > 0,
{
    if total > 0 {
        rounding::lemma_round_positive(total as nat, 1);
    } else if total < 0 {
        rounding::lemma_round_positive((-total) as nat, 1);
    }
}

/// The magnitude pattern of `m * 2^k / (n * 2^j)`.
fn divide(m: u64, k: u32, n: u64, j: u32) -> (magnitude: u64)
    requires
        0 < m < 0x20_0000_0000_0000,
        0 < n < 0x20_0000_0000_0000,
        k <= 2045,
        j <= 2045,
    ensures
        magnitude == rounding::round(
            (m * pow2(k as nat)) as nat * pow2(1074),
            (n * pow2(j as nat)) as nat,
        ),
        magnitude <= INFINITY_BITS,
{
    let mut lifted: u64 = m;
    let mut lift: u32 = 0;
    proof {
        lemma2_to64();
        lemma2_to64_rest();
    }
    while lifted < 0x10_0000_0000_0000
        invariant
            0 < m,
            lifted == m * pow2(lift as nat),
            0 < lifted < 0x20_0000_0000_0000,
            lift <= 52,
            pow2(52) == 0x10_0000_0000_0000,
        decreases 0x20_0000_0000_0000 - lifted,
    {
        proof {
            if lift == 52 {
                assert(m * pow2(52) >= pow2(52)) by (nonlinear_arith)
                    requires
                        m >= 1,
                ;
                assert(false);
            }
            lemma_pow2_unfold((lift + 1) as nat);
            assert(m * (2 * pow2(lift as nat)) == 2 * (m * pow2(lift as nat))) by (nonlinear_arith);
        }
        lifted = lifted * 2;
        lift = lift + 1;
    }
    let numerator: u128 = lifted as u128 * 0x1_0000_0000_0000_0000;
    let q: u128 = numerator / n as u128;
    let r: u128 = numerator % n as u128;
    let ghost a = (k + 1074) as nat;
    let ghost b = (j + lift + 64) as nat;
    proof {
        lemma_fundamental_div_mod(numerator as int, n as int);
        assert(q >= 0x4000_0000_0000_0000) by (nonlinear_arith)
            requires
                numerator == n * q + r,
                numerator >= 0x10_0000_0000_0000 * 0x1_0000_0000_0000_0000,
                r < n < 0x20_0000_0000_0000,
        ;
        assert(q <= numerator) by (nonlinear_arith)
            requires
                numerator == n * q + r,
                n >= 1,
                r >= 0,
                q >= 0,
        ;
        lemma_divide(m as nat, k as nat, n as nat, j as nat, lift as nat, q as nat, r as nat);
        rounding::lemma_scaled_shift(
            (2 * q + if r > 0 { 1int } else { 0int }) as nat,
            a - b - 1,
            b + 1,
        );
    }
    let e: i32 = k as i32 + 1074 - j as i32 - lift as i32 - 65;
    if r > 0 {
        round_scaled(2 * q + 1, e)
    } else {
        round_scaled(2 * q, e)
    }
}

/// A quotient of significands with a sticky bit rounds as the quotient of the
/// numbers.
proof fn lemma_divide(m: nat, k: nat, n: nat, j: nat, z: nat, q: nat, r: nat)
    requires
        n > 0,
        r < n,
        (m * pow2(z)) * pow2(64) == n * q + r,
        q >= pow2(54),
    ensures
        rounding::round((m * pow2(k)) * pow2(1074), n * pow2(j)) == rounding::round(
            (2 * q + if r > 0 { 1nat } else { 0nat }) * pow2(k + 1074),
            pow2(j + z + 64 + 1),
        ),
{
    let a = k + 1074;
    let b = j + z + 64;
    let g = pow2(a);
    let f = pow2(z + 64);
    let pk = pow2(k);
    let pj = pow2(j);
    lemma_pow2_pos(a);
    lemma_pow2_pos(z + 64);
    lemma_pow2_pos(j);
    lemma_pow2_adds(z, 64);
    lemma_pow2_adds(k, 1074);
    lemma_pow2_adds(j, z + 64);
    let top = (m * pk) * pow2(1074);
    let bottom = n * pj;
    assert(bottom > 0) by (nonlinear_arith)
        requires
            bottom == n * pj,
            n > 0,
            pj > 0,
    ;
    rounding::lemma_round_scaled(top, bottom, f);
    let u = n * g;
    assert(u > 0) by (nonlinear_arith)
        requires
            u == n * g,
            n > 0,
            g > 0,
    ;
    let p1074 = pow2(1074);
    let pz = pow2(z);
    let p64 = pow2(64);
    assert(top * f == q * u + r * g) by (nonlinear_arith)
        requires
            top == (m * pk) * p1074,
            f == pz * p64,
            g == pk * p1074,
            (m * pz) * p64 == n * q + r,
            u == n * g,
    {
        assert(top * f == ((m * pz) * p64) * g);
        assert((n * q + r) * g == q * (n * g) + r * g);
    }
    assert(r * g < u) by (nonlinear_arith)
        requires
            r < n,
            g > 0,
            u == n * g,
    ;
    let pb = pow2(b);
    assert((bottom * f) * g == u * pb) by (nonlinear_arith)
        requires
            bottom == n * pj,
            u == n * g,
            pb == pj * f,
    ;
    assert(bottom * f > 0) by (nonlinear_arith)
        requires
            bottom > 0,
            f > 0,
    ;
    rounding::lemma_round_sticky(top * f, bottom * f, q, u, r * g, a, b);
    lemma_mul_basics(g as int);
    lemma_mul_nonzero(r as int, g as int);
}

impl Double {
    /// `self + other`.
    pub fn plus(self, other: Double) -> (number: Double)
        ensures
            number == sum(self, other),
    {
        proof {
            reveal(sum);
        }
        if self.check_nan() || other.check_nan() {
            return Double { bits: NAN_BITS };
        }
        let a: u64 = self.unsigned();
        let b: u64 = other.unsigned();
        if a == INFINITY_BITS {
            if b == INFINITY_BITS && self.has_sign() != other.has_sign() {
                return Double { bits: NAN_BITS };
            }
            return self;
        }
        if b == INFINITY_BITS {
            return other;
        }
        let (m, k) = self.split();
        let (n, j) = other.split();
        let subtract: bool = self.has_sign() != other.has_sign();
        proof {
            lemma_parts(self);
            lemma_parts(other);
            rounding::lemma_round_zero(1);
        }
        if k >= j {
            let (magnitude, flipped) = combine(m, k, n, j, subtract);
            if subtract && magnitude == 0 {
                proof {
                    lemma_nonzero_total(self.value() + other.value());
                }
                return Double { bits: 0 };
            }
            Double::assemble(self.has_sign() != flipped, magnitude)
        } else {
            let (magnitude, flipped) = combine(n, j, m, k, subtract);
            if subtract && magnitude == 0 {
                proof {
                    lemma_nonzero_total(self.value() + other.value());
                }
                return Double { bits: 0 };
            }
            Double::assemble(other.has_sign() != flipped, magnitude)
        }
    }

    /// `self - other`.
    pub fn minus(self, other: Double) -> (number: Double)
        ensures
            number == difference(self, other),
    {
        self.plus(other.negate())
    }

    /// `self * other`.
    pub fn times(self, other: Double) -> (number: Double)
        ensures
            number == product(self, other),
    {
        proof {
            reveal(product);
        }
        if self.check_nan() || other.check_nan() {
            return Double { bits: NAN_BITS };
        }
        let a: u64 = self.unsigned();
        let b: u64 = other.unsigned();
        let negative: bool = self.has_sign() != other.has_sign();
        if a == INFINITY_BITS || b == INFINITY_BITS {
            if a == 0 || b == 0 {
                return Double { bits: NAN_BITS };
            }
            return Double::assemble(negative, INFINITY_BITS);
        }
        let (m, k) = self.split();
        let (n, j) = other.split();
        assert(m * n < 0x20_0000_0000_0000 * 0x20_0000_0000_0000) by (nonlinear_arith)
            requires
                m < 0x20_0000_0000_0000,
                n < 0x20_0000_0000_0000,
        ;
        let e: i32 = k as i32 + j as i32 - 1074;
        proof {
            let pk = pow2(k as nat);
            let pj = pow2(j as nat);
            lemma_pow2_adds(k as nat, j as nat);
            assert((m * pk) * (n * pj) == (m * n) * (pk * pj)) by (nonlinear_arith);
            rounding::lemma_scaled_shift((m * n) as nat, e as int, 1074);
        }
        Double::assemble(negative, round_scaled(m as u128 * n as u128, e))
    }

    /// `self / other`.
    pub fn over(self, other: Double) -> (number: Double)
        ensures
            number == quotient(self, other),
    {
        proof {
            reveal(quotient);
        }
        if self.check_nan() || other.check_nan() {
            return Double { bits: NAN_BITS };
        }
        let a: u64 = self.unsigned();
        let b: u64 = other.unsigned();
        let negative: bool = self.has_sign() != other.has_sign();
        if a == INFINITY_BITS {
            if b == INFINITY_BITS {
                return Double { bits: NAN_BITS };
            }
            return Double::assemble(negative, INFINITY_BITS);
        }
        if b == INFINITY_BITS {
            return Double::assemble(negative, 0);
        }
        if b == 0 {
            if a == 0 {
                return Double { bits: NAN_BITS };
            }
            return Double::assemble(negative, INFINITY_BITS);
        }
        proof {
            lemma_parts(self);
            lemma_parts(other);
        }
        if a == 0 {
            proof {
                lemma_mul_basics(pow2(1074) as int);
                rounding::lemma_round_zero(other.units());
            }
            return Double::assemble(negative, 0);
        }
        let (m, k) = self.split();
        let (n, j) = other.split();
        Double::assemble(negative, divide(m, k, n, j))
    }
}

/// An integer of more than 55 bits rounds as its leading bits with a sticky bit.
proof fn lemma_wide(q: nat, rest: nat, shift: nat)
    requires
        q >= pow2(54),
        rest < pow2(shift),
    ensures
        rounding::round((q * pow2(shift) + rest) * pow2(1074), 1) == rounding::round(
            (2 * q + if rest > 0 { 1nat } else { 0nat }) * pow2(shift + 1073),
            1,
        ),
{
    let n: nat = 2 * q + if rest > 0 { 1nat } else { 0nat };
    let u = pow2(shift + 1074);
    let unit = pow2(1074);
    let ps = pow2(shift);
    lemma_pow2_pos(1074);
    lemma_pow2_pos(shift + 1074);
    lemma_pow2_adds(shift, 1074);
    assert((q * ps + rest) * unit == q * u + rest * unit) by (nonlinear_arith)
        requires
            u == ps * unit,
    ;
    lemma_mul_strict_inequality(rest as int, ps as int, unit as int);
    lemma2_to64();
    lemma_mul_basics(u as int);
    rounding::lemma_round_sticky(
        (q * ps + rest) * unit,
        1,
        q,
        u,
        rest * unit,
        shift + 1074,
        0,
    );
    lemma_mul_nonzero(rest as int, unit as int);
    lemma_pow2_unfold(shift + 1074);
    lemma_mul_is_associative(n as int, pow2(shift + 1073) as int, 2);
    rounding::lemma_round_scaled(n * pow2(shift + 1073), 1, 2);
}

impl Double {
    /// The number nearest to `q * 2^shift + rest`; `sticky` says whether
    /// `rest` is more than zero.
    pub(crate) fn from_wide(q: u128, sticky: bool, shift: u32, rest: Ghost<nat>) -> (number: Double)
        requires
            0x40_0000_0000_0000 <= q < 0x4000_0000_0000_0000_0000_0000_0000_0000,
            shift <= 1000,
            rest@ < pow2(shift as nat),
            sticky == (rest@ > 0),
        ensures
            number == of_nat((q * pow2(shift as nat) + rest@) as nat),
    {
        proof {
            lemma2_to64_rest();
            lemma_wide(q as nat, rest@, shift as nat);
        }
        let n: u128 = if sticky {
            2 * q + 1
        } else {
            2 * q
        };
        Double::assemble(false, round_scaled(n, shift as i32 + 1073))
    }

    /// The number nearest to `n`.
    pub fn from_u128(n: u128) -> (number: Double)
        ensures
            number == of_nat(n as nat),
    {
        if n < 0x8000_0000_0000_0000_0000_0000_0000_0000 {
            return Double::assemble(false, round_scaled(n, 1074));
        }
        proof {
            lemma2_to64();
        }
        let rest: u128 = n % 4;
        Double::from_wide(n / 4, rest > 0, 2, Ghost(rest as nat))
    }

    /// The number truncated to an unsigned integer, saturating.
    pub fn to_u128(self) -> (n: u128)
        ensures
            n == truncated(self),
    {
        if self.check_nan() || self.has_sign() {
            return 0;
        }
        if self.unsigned() == INFINITY_BITS {
            return u128::MAX;
        }
        let (m, k) = self.split();
        proof {
            lemma_pow2_pos(1074);
            lemma2_to64();
            lemma2_to64_rest();
        }
        if k >= 1074 {
            let shift: u32 = k - 1074;
            let ghost ps = pow2(shift as nat);
            proof {
                lemma_pow2_adds(shift as nat, 1074);
                lemma_mul_is_associative(m as int, ps as int, pow2(1074) as int);
                lemma_div_by_multiple((m * ps) as int, pow2(1074) as int);
                lemma_pow2_adds(64, 11);
                lemma_pow2_adds(64, 12);
            }
            if shift >= 76 {
                proof {
                    rounding::lemma_pow2_monotone(76, shift as nat);
                    assert(m * ps >= 0x10_0000_0000_0000 * 0x1000_0000_0000_0000_0000)
                        by (nonlinear_arith)
                        requires
                            m >= 0x10_0000_0000_0000,
                            ps >= 0x1000_0000_0000_0000_0000,
                    ;
                }
                return u128::MAX;
            }
            proof {
                rounding::lemma_pow2_monotone(shift as nat, 75);
                assert(m * ps <= 0x1f_ffff_ffff_ffff * 0x800_0000_0000_0000_0000)
                    by (nonlinear_arith)
                    requires
                        m <= 0x1f_ffff_ffff_ffff,
                        0 <= ps <= 0x800_0000_0000_0000_0000,
                ;
            }
            m as u128 * power_of_two(shift)
        } else {
            let drop: u32 = 1074 - k;
            let ghost pk = pow2(k as nat);
            let ghost pd = pow2(drop as nat);
            proof {
                lemma_pow2_adds(k as nat, drop as nat);
                lemma_pow2_pos(k as nat);
                lemma_pow2_pos(drop as nat);
                lemma_mul_is_commutative(m as int, pk as int);
                lemma_div_denominator((pk * m) as int, pk as int, pd as int);
                lemma_div_multiples_vanish(m as int, pk as int);
            }
            if drop >= 53 {
                proof {
                    rounding::lemma_pow2_monotone(53, drop as nat);
                    lemma_basic_div(m as int, pd as int);
                }
                return 0;
            }
            m as u128 / power_of_two(drop)
        }
    }

    /// The larger of the two numbers, or the one that is a number.
    pub fn max(self, other: Double) -> (number: Double)
        ensures
            number == larger(self, other),
    {
        if self.check_nan() || self.lt(other) {
            other
        } else {
            self
        }
    }

    /// The smaller of the two numbers, or the one that is a number.
    pub fn min(self, other: Double) -> (number: Double)
        ensures
            number == smaller(self, other),
    {
        if self.check_nan() || other.lt(self) {
            other
        } else {
            self
        }
    }

    /// The number confined to the range from `low` to `high`.
    pub fn clamp(self, low: Double, high: Double) -> (number: Double)
        requires
            less_or_equal(low, high),
        ensures
            number == clamped(self, low, high),
    {
        if self.lt(low) {
            low
        } else if self.gt(high) {
            high
        } else {
            self
        }
    }
}

} // verus!
