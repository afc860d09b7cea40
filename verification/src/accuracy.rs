//! How far a rounded result is from the exact one.
use crate::algebra;
use crate::double;
use crate::double::Double;
use crate::fidelity;
use crate::order;
use crate::rounding;
use crate::rounding::{EXPONENT_STEP, INFINITY_BITS};
use crate::scaling;
use vstd::arithmetic::div_mod::*;
use vstd::arithmetic::mul::*;
use vstd::arithmetic::power2::*;
use vstd::prelude::*;

verus! {

/// The value of a finite number.
pub open spec fn real_of(x: Double) -> real {
    x.value() as real / pow2(1074) as real
}

/// Whether `x` is off from `y` by no more than `k * 2^-53` of `scale`.
pub open spec fn within(x: real, y: real, k: real, scale: real) -> bool {
    &&& (x - y) * 9_007_199_254_740_992real <= k * scale
    &&& (y - x) * 9_007_199_254_740_992real <= k * scale
}

/// The absolute value.
pub open spec fn size(x: real) -> real {
    if x < 0real {
        -x
    } else {
        x
    }
}

/// The nearest integer is off by no more than a half.
pub(crate) proof fn lemma_half_even_error(n: nat, d: nat)
    requires
        d > 0,
    ensures
        2 * (rounding::half_even(n, d) * d - n) <= d,
        2 * (n - rounding::half_even(n, d) * d) <= d,
{
    lemma_fundamental_div_mod(n as int, d as int);
    let q = n / d;
    assert((q + 1) * d == q * d + d) by (nonlinear_arith);
    lemma_mul_is_commutative(q as int, d as int);
}

/// The number nearest to a fraction, from its spacing and significand.
pub(crate) proof fn lemma_rounded_units(k: nat, q: nat)
    requires
        q <= 0x20_0000_0000_0000,
        k > 0 ==> q >= 0x10_0000_0000_0000,
        k * EXPONENT_STEP + q < INFINITY_BITS,
    ensures
        (Double { bits: (k * EXPONENT_STEP + q) as u64 }).units() == q * pow2(k),
{
    let y = Double { bits: (k * EXPONENT_STEP + q) as u64 };
    assert(y.magnitude() == k * EXPONENT_STEP + q);
    lemma2_to64();
    lemma2_to64_rest();
    if q == 0x20_0000_0000_0000 {
        assert(y.spacing() == k + 1);
        assert(y.significand() == 0x10_0000_0000_0000);
        lemma_pow2_unfold(k + 1);
        assert(0x10_0000_0000_0000 * (2 * pow2(k)) == 0x20_0000_0000_0000 * pow2(k));
    } else {
        assert(y.spacing() == k);
        assert(y.significand() == q);
    }
}

/// The number nearest to a fraction that is whole or not in the lowest range
/// is off by no more than 2^-53 of it.
pub(crate) proof fn lemma_round_error(n: nat, d: nat)
    requires
        d > 0,
        d == 1 || n >= d * pow2(52),
        rounding::round(n, d) < INFINITY_BITS,
    ensures
        ({
            let y = Double { bits: rounding::round(n, d) as u64 };
            &&& pow2(53) * (y.units() * d - n) <= n
            &&& pow2(53) * (n - y.units() * d) <= n
        }),
{
    rounding::lemma_spacing_exists(n, d);
    let k = rounding::spacing(n, d);
    let p = pow2(k);
    let c = d * p;
    let q = rounding::half_even(n, c);
    lemma_pow2_pos(k);
    lemma_mul_strictly_positive(d as int, p as int);
    lemma_half_even_error(n, c);
    lemma2_to64();
    lemma2_to64_rest();
    lemma_pow2_adds(53, k);
    lemma_pow2_adds(52, k);
    assert(n < c * 0x20_0000_0000_0000) by (nonlinear_arith)
        requires
            n < d * (0x20_0000_0000_0000 * p),
            c == d * p,
    ;
    assert(q <= 0x20_0000_0000_0000) by (nonlinear_arith)
        requires
            n < c * 0x20_0000_0000_0000,
            2 * (q * c - n) <= c,
            c > 0,
    ;
    if k > 0 {
        assert(n >= c * 0x10_0000_0000_0000) by (nonlinear_arith)
            requires
                n >= d * (0x10_0000_0000_0000 * p),
                c == d * p,
        ;
        assert(q >= 0x10_0000_0000_0000) by (nonlinear_arith)
            requires
                n >= c * 0x10_0000_0000_0000,
                2 * (n - q * c) <= c,
                c > 0,
        ;
    }
    lemma_rounded_units(k, q);
    let y = Double { bits: rounding::round(n, d) as u64 };
    assert(y.units() * d == q * c) by (nonlinear_arith)
        requires
            y.units() == q * p,
            c == d * p,
    ;
    if k == 0 && d == 1 {
        assert(p == 1);
        lemma_mul_basics(p as int);
        assert(c == 1);
        lemma_mul_basics(q as int);
        assert(q == n);
    } else {
        assert(n >= c * 0x10_0000_0000_0000) by {
            if k == 0 {
                assert(c == d) by {
                    lemma_mul_basics(d as int);
                }
            }
        }
    }
}

/// A product of integers is the product of their real values.
pub(crate) proof fn lemma_cast_product(a: int, b: nat)
    ensures
        (a * b) as real == (a as real) * (b as real),
    decreases b,
{
    if b == 0 {
        lemma_mul_basics(a);
        assert(b as real == 0real);
        assert((a as real) * 0real == 0real);
    } else {
        let c = (b - 1) as nat;
        lemma_cast_product(a, c);
        lemma_mul_is_distributive_add(a, c as int, 1);
        algebra::lemma_plus(c as real, 1real, a as real);
        assert(b as real == c as real + 1real);
        assert((a * b) as real == (a * c) as real + a as real) by {
            assert(a * b == a * c + a * 1);
        }
        assert((a as real) * (b as real) == (a as real) * (c as real) + (a as real) * 1real);
    }
}

/// The scale of the units.
pub(crate) proof fn lemma_scale()
    ensures
        pow2(1074) as real > 0real,
        pow2(53) == 9_007_199_254_740_992,
{
    lemma_pow2_pos(1074);
    lemma2_to64();
    lemma2_to64_rest();
}

/// A number has the value of its units, but for the sign.
pub(crate) proof fn lemma_real_units(x: Double)
    ensures
        real_of(x) * (pow2(1074) as real) == x.value() as real,
        real_of(double::negation(x)) == -real_of(x),
        !x.negative() ==> real_of(x) * (pow2(1074) as real) == x.units() as real,
        !x.negative() ==> real_of(x) >= 0real,
{
    lemma_scale();
    let t = pow2(1074) as real;
    algebra::lemma_quotient_back(x.value() as real, t);
    let y = double::negation(x);
    assert(y.magnitude() == x.magnitude());
    assert(y.value() == -x.value());
    algebra::lemma_quotient_back(y.value() as real, t);
    algebra::lemma_minus(0real, real_of(x), t);
    assert(real_of(y) * t == (-real_of(x)) * t) by {
        assert((0real - real_of(x)) * t == 0real * t - real_of(x) * t);
    }
    algebra::lemma_cancel(real_of(y), -real_of(x), t);
    algebra::lemma_cancel(-real_of(x), real_of(y), t);
    if !x.negative() {
        algebra::lemma_cancel(0real, real_of(x), t);
    }
}

/// A sum is off from the exact one by no more than 2^-53 of it.
pub proof fn law_sum_is_accurate(x: Double, y: Double)
    requires
        x.is_finite(),
        y.is_finite(),
        double::sum(x, y).is_finite(),
    ensures
        within(
            real_of(double::sum(x, y)),
            real_of(x) + real_of(y),
            1real,
            size(real_of(x) + real_of(y)),
        ),
{
    reveal(double::sum);
    lemma_scale();
    let t = pow2(1074) as real;
    let total = x.value() + y.value();
    let z = double::sum(x, y);
    lemma_real_units(x);
    lemma_real_units(y);
    lemma_real_units(z);
    let exact = real_of(x) + real_of(y);
    algebra::lemma_plus(real_of(x), real_of(y), t);
    assert(exact * t == total as real);
    let n: nat = if total >= 0 {
        total as nat
    } else {
        (-total) as nat
    };
    rounding::lemma_round_zero(1);
    assert(z.magnitude() == rounding::round(n, 1));
    lemma_round_error(n, 1);
    assert(z.units() == (Double { bits: rounding::round(n, 1) as u64 }).units());
    lemma_mul_basics(z.units() as int);
    let off = real_of(z) - exact;
    algebra::lemma_minus(real_of(z), exact, t);
    assert(off * t == (z.value() - total) as real);
    let bound = size(exact);
    if total >= 0 {
        algebra::lemma_cancel(0real, exact, t);
    } else {
        algebra::lemma_cancel(exact, 0real, t);
    }
    assert(bound * t == n as real) by {
        algebra::lemma_minus(0real, exact, t);
        if exact == 0real {
            assert(0real * t == 0real);
        }
    }
    lemma_bounded(off, bound, t, z.value() - total, n as int);
}

/// An error bound in units, as one in numbers.
pub(crate) proof fn lemma_bounded(off: real, bound: real, t: real, e: int, n: int)
    requires
        t > 0real,
        off * t == e as real,
        bound * t == n as real,
        9_007_199_254_740_992 * e <= n,
        -(9_007_199_254_740_992 * e) <= n,
    ensures
        off * 9_007_199_254_740_992real <= bound,
        -off * 9_007_199_254_740_992real <= bound,
{
    let big = 9_007_199_254_740_992real;
    assert((off * big) * t == (off * t) * big) by (nonlinear_arith);
    assert((-off * big) * t == -((off * t) * big)) by (nonlinear_arith);
    algebra::lemma_cancel(off * big, bound, t);
    algebra::lemma_cancel(-off * big, bound, t);
}

/// The same where the second factor may be negative.
proof fn lemma_cast_signed_product(a: int, b: int)
    ensures
        (a * b) as real == (a as real) * (b as real),
{
    if b >= 0 {
        lemma_cast_product(a, b as nat);
    } else {
        let c = (-b) as nat;
        lemma_cast_product(a, c);
        lemma_mul_unary_negation(a, c as int);
        assert(a * b == -(a * c));
        algebra::lemma_minus(0real, c as real, a as real);
        assert(b as real == 0real - c as real);
        assert((a as real) * 0real == 0real);
    }
}

/// The product of two values in units.
proof fn lemma_real_product(x: real, y: real, t: real, a: int, b: int)
    requires
        x * t == a as real,
        y * t == b as real,
    ensures
        (x * y) * (t * t) == (a * b) as real,
{
    lemma_cast_signed_product(a, b);
    assert((x * y) * (t * t) == (x * t) * (y * t)) by (nonlinear_arith);
    algebra::lemma_multiple(y * t, x * t, a as real);
    algebra::lemma_multiple(a as real, y * t, b as real);
}

/// A value in units, scaled once more.
proof fn lemma_real_scaled(x: real, t: real, a: int, b: nat)
    requires
        x * t == a as real,
        t == b as real,
    ensures
        x * (t * t) == (a * b) as real,
{
    lemma_cast_product(a, b);
    algebra::lemma_associative(x, t, t);
    algebra::lemma_multiple(t, x * t, a as real);
}

/// The absolute value in units.
proof fn lemma_size(x: real, t: real, a: int, n: int)
    requires
        t > 0real,
        x * t == a as real,
        n == a || n == -a,
        n >= 0,
    ensures
        size(x) * t == n as real,
{
    if a >= 0 {
        algebra::lemma_cancel(0real, x, t);
    } else {
        algebra::lemma_cancel(x, 0real, t);
    }
    algebra::lemma_minus(0real, x, t);
    assert(0real * t == 0real);
    if x == 0real {
        assert(a == 0);
    }
}

/// `n`, or its negative.
spec fn with_sign(negative: bool, n: nat) -> int {
    if negative {
        -(n as int)
    } else {
        n as int
    }
}

/// Products of signed numbers.
proof fn lemma_signed_product(s: bool, a: nat, t: bool, b: nat)
    ensures
        with_sign(s, a) * with_sign(t, b) == with_sign(s != t, a * b),
{
    lemma_mul_unary_negation(a as int, b as int);
    lemma_mul_cancels_negatives(a as int, b as int);
}

/// A product in units is off by no more than 2^-53 of it.
proof fn lemma_product_error(x: Double, y: Double)
    requires
        x.is_finite(),
        y.is_finite(),
        double::product(x, y).is_finite(),
        x.is_zero() || y.is_zero() || EXPONENT_STEP < double::product(x, y).magnitude(),
    ensures
        ({
            let z = double::product(x, y);
            let n = x.units() * y.units();
            let off = z.units() * pow2(1074) - n;
            &&& z.negative() == (x.negative() != y.negative())
            &&& 9_007_199_254_740_992 * off <= n
            &&& -(9_007_199_254_740_992 * off) <= n
        }),
{
    reveal(double::product);
    lemma_scale();
    lemma_pow2_pos(1074);
    let d = pow2(1074);
    let z = double::product(x, y);
    let n = x.units() * y.units();
    assert(z.magnitude() == rounding::round(n, d));
    if x.is_zero() || y.is_zero() {
        double::lemma_parts(x);
        double::lemma_parts(y);
        double::lemma_parts(z);
        lemma_mul_basics(x.units() as int);
        lemma_mul_basics(y.units() as int);
        lemma_mul_basics(d as int);
        rounding::lemma_round_zero(d);
    } else {
        scaling::lemma_round_above(n, d, 0);
        lemma_round_error(n, d);
        assert(z.units() == (Double { bits: rounding::round(n, d) as u64 }).units());
    }
}

/// A quotient in units is off by no more than 2^-53 of it.
proof fn lemma_quotient_error(x: Double, y: Double)
    requires
        x.is_finite(),
        y.is_finite(),
        !y.negative(),
        !y.is_zero(),
        double::quotient(x, y).is_finite(),
        x.is_zero() || EXPONENT_STEP < double::quotient(x, y).magnitude(),
    ensures
        ({
            let z = double::quotient(x, y);
            let n = x.units() * pow2(1074);
            let off = z.units() * y.units() - n;
            &&& z.negative() == x.negative()
            &&& 9_007_199_254_740_992 * off <= n
            &&& -(9_007_199_254_740_992 * off) <= n
        }),
{
    reveal(double::quotient);
    lemma_scale();
    let d = pow2(1074);
    let w = y.units();
    let z = double::quotient(x, y);
    let n = x.units() * d;
    double::lemma_parts(y);
    assert(z.magnitude() == rounding::round(n, w));
    if x.is_zero() {
        double::lemma_parts(x);
        double::lemma_parts(z);
        lemma_mul_basics(d as int);
        lemma_mul_basics(w as int);
        rounding::lemma_round_zero(w);
    } else {
        scaling::lemma_round_above(n, w, 0);
        lemma_round_error(n, w);
        assert(z.units() == (Double { bits: rounding::round(n, w) as u64 }).units());
    }
}

/// A product is off from the exact one by no more than 2^-53 of it, unless it
/// is too small.
pub proof fn law_product_is_accurate(x: Double, y: Double)
    requires
        x.is_finite(),
        y.is_finite(),
        double::product(x, y).is_finite(),
        x.is_zero() || y.is_zero() || EXPONENT_STEP < double::product(x, y).magnitude(),
    ensures
        within(
            real_of(double::product(x, y)),
            real_of(x) * real_of(y),
            1real,
            size(real_of(x) * real_of(y)),
        ),
{
    lemma_scale();
    let d = pow2(1074);
    let t = d as real;
    let z = double::product(x, y);
    lemma_product_error(x, y);
    lemma_real_units(x);
    lemma_real_units(y);
    lemma_real_units(z);
    let n = x.units() * y.units();
    let (a, b, c) = (x.value(), y.value(), z.value());
    let sign = z.negative();
    assert(a * b == with_sign(sign, n)) by {
        lemma_signed_product(x.negative(), x.units(), y.negative(), y.units());
    }
    assert(c * d == with_sign(sign, z.units() * d)) by {
        lemma_signed_product(sign, z.units(), false, d);
    }
    let exact = real_of(x) * real_of(y);
    lemma_real_product(real_of(x), real_of(y), t, a, b);
    lemma_real_scaled(real_of(z), t, c, d);
    algebra::lemma_product_positive(t, t);
    algebra::lemma_minus(real_of(z), exact, t * t);
    lemma_size(exact, t * t, a * b, n as int);
    lemma_bounded(real_of(z) - exact, size(exact), t * t, c * d - a * b, n as int);
}

/// A quotient by a positive number is off from the exact one by no more than
/// 2^-53 of it, unless it is too small.
pub proof fn law_quotient_is_accurate(x: Double, y: Double)
    requires
        x.is_finite(),
        y.is_finite(),
        !y.negative(),
        !y.is_zero(),
        double::quotient(x, y).is_finite(),
        x.is_zero() || EXPONENT_STEP < double::quotient(x, y).magnitude(),
    ensures
        real_of(y) > 0real,
        within(
            real_of(double::quotient(x, y)),
            real_of(x) / real_of(y),
            1real,
            size(real_of(x) / real_of(y)),
        ),
{
    lemma_scale();
    let d = pow2(1074);
    let t = d as real;
    let z = double::quotient(x, y);
    lemma_quotient_error(x, y);
    lemma_real_units(x);
    lemma_real_units(y);
    lemma_real_units(z);
    double::lemma_parts(y);
    algebra::lemma_positive_factor(real_of(y), t);
    let n = x.units() * d;
    let (a, b, c) = (x.value(), y.value(), z.value());
    let sign = z.negative();
    assert(a * d == with_sign(sign, n)) by {
        lemma_signed_product(sign, x.units(), false, d);
    }
    assert(c * b == with_sign(sign, z.units() * y.units())) by {
        lemma_signed_product(sign, z.units(), false, y.units());
    }
    let back = real_of(z) * real_of(y);
    lemma_real_product(real_of(z), real_of(y), t, c, b);
    lemma_real_scaled(real_of(x), t, a, d);
    algebra::lemma_product_positive(t, t);
    algebra::lemma_minus(back, real_of(x), t * t);
    lemma_size(real_of(x), t * t, a * d, n as int);
    lemma_bounded(back - real_of(x), size(real_of(x)), t * t, c * b - a * d, n as int);
    lemma_divided(real_of(z), real_of(x), real_of(y));
}

/// An error bound on a product as one on a quotient.
proof fn lemma_divided(z: real, x: real, y: real)
    requires
        y > 0real,
        (z * y - x) * 9_007_199_254_740_992real <= size(x),
        -(z * y - x) * 9_007_199_254_740_992real <= size(x),
    ensures
        within(z, x / y, 1real, size(x / y)),
{
    let big = 9_007_199_254_740_992real;
    let q = x / y;
    algebra::lemma_quotient_back(x, y);
    algebra::lemma_minus(z, q, y);
    let off = z - q;
    assert(off * y == z * y - x);
    assert((off * big) * y == (off * y) * big) by (nonlinear_arith);
    assert((-off * big) * y == -((off * y) * big)) by (nonlinear_arith);
    if x >= 0real {
        algebra::lemma_cancel(0real, q, y);
    } else {
        algebra::lemma_cancel(q, 0real, y);
    }
    algebra::lemma_minus(0real, q, y);
    assert(size(q) * y == size(x));
    algebra::lemma_cancel(off * big, size(q), y);
    algebra::lemma_cancel(-off * big, size(q), y);
}

/// A whole number below 2^53 is a number of the format.
pub(crate) proof fn lemma_of_nat_units(n: nat)
    requires
        n < 0x20_0000_0000_0000,
    ensures
        double::of_nat(n).units() == n * pow2(1074),
        double::of_nat(n).is_finite(),
        !double::of_nat(n).negative(),
        double::of_nat(n).is_zero() <==> n == 0,
{
    let t = pow2(1074);
    let whole = n * t;
    lemma_pow2_pos(1074);
    lemma2_to64();
    lemma2_to64_rest();
    rounding::lemma_spacing_exists(whole, 1);
    let k = rounding::spacing(whole, 1);
    lemma_mul_basics(pow2(52 + k) as int);
    lemma_mul_basics(pow2(53 + k) as int);
    if k > 1074 {
        lemma_pow2_adds(53, 1074);
        rounding::lemma_pow2_monotone(53 + 1074, 52 + k);
        assert(n * t < 0x20_0000_0000_0000 * t) by (nonlinear_arith)
            requires
                n < 0x20_0000_0000_0000,
                t > 0,
        ;
    }
    let rest = (1074 - k) as nat;
    lemma_pow2_adds(rest, k);
    lemma_pow2_pos(k);
    let m = n * pow2(rest);
    assert(whole == m * pow2(k)) by (nonlinear_arith)
        requires
            whole == n * (pow2(rest) * pow2(k)),
            m == n * pow2(rest),
    ;
    lemma_mul_basics(pow2(k) as int);
    rounding::lemma_half_even_exact(m, pow2(k));
    lemma_pow2_adds(53, k);
    lemma_pow2_adds(52, k);
    let p = pow2(k);
    assert(m < 0x20_0000_0000_0000) by (nonlinear_arith)
        requires
            m * p < 0x20_0000_0000_0000 * p,
            p > 0,
    ;
    if k > 0 {
        assert(m >= 0x10_0000_0000_0000) by (nonlinear_arith)
            requires
                m * p >= 0x10_0000_0000_0000 * p,
                p > 0,
        ;
    }
    assert(k * EXPONENT_STEP + m < INFINITY_BITS);
    lemma_rounded_units(k, m);
    let x = double::of_nat(n);
    assert(x == (Double { bits: (k * EXPONENT_STEP + m) as u64 }));
    double::lemma_parts(x);
    lemma_mul_nonzero(n as int, t as int);
}

/// A whole number below 2^53 is kept as it is.
pub proof fn law_small_integers_are_exact(n: nat)
    requires
        n < 0x20_0000_0000_0000,
    ensures
        double::of_nat(n).is_finite(),
        real_of(double::of_nat(n)) == n as real,
{
    let x = double::of_nat(n);
    let t = pow2(1074) as real;
    lemma_of_nat_units(n);
    lemma_scale();
    lemma_real_units(x);
    lemma_cast_product(n as int, pow2(1074));
    algebra::lemma_cancel(real_of(x), n as real, t);
    algebra::lemma_cancel(n as real, real_of(x), t);
}

/// A whole number is off from the number nearest to it by no more than 2^-53 of
/// it.
pub proof fn law_integers_are_accurate(n: nat)
    requires
        double::of_nat(n).is_finite(),
    ensures
        within(real_of(double::of_nat(n)), n as real, 1real, n as real),
        real_of(double::of_nat(n)) >= 0real,
{
    lemma_scale();
    let d = pow2(1074);
    let t = d as real;
    let x = double::of_nat(n);
    let whole = n * d;
    assert(x.magnitude() == rounding::round(whole, 1));
    lemma_round_error(whole, 1);
    assert(x.units() == (Double { bits: rounding::round(whole, 1) as u64 }).units());
    lemma_mul_basics(x.units() as int);
    lemma_real_units(x);
    lemma_cast_product(n as int, d);
    let off = real_of(x) - n as real;
    algebra::lemma_minus(real_of(x), n as real, t);
    lemma_bounded(off, n as real, t, x.units() as int - whole as int, whole as int);
}

/// The number of `2^k` units.
pub open spec fn power_units(k: nat) -> Double {
    if k < 52 {
        Double { bits: pow2(k) as u64 }
    } else {
        Double { bits: ((k - 51) * EXPONENT_STEP) as u64 }
    }
}

/// A power of two is a number of the format.
pub(crate) proof fn lemma_power_units(k: nat)
    requires
        k <= 2045,
    ensures
        power_units(k).units() == pow2(k),
        power_units(k).is_finite(),
        !power_units(k).negative(),
{
    let x = power_units(k);
    lemma2_to64();
    lemma2_to64_rest();
    if k < 52 {
        rounding::lemma_pow2_monotone(k, 51);
        assert(x.magnitude() == pow2(k));
        assert(x.spacing() == 0);
        lemma_mul_basics(pow2(k) as int);
    } else {
        let j = (k - 52) as nat;
        assert(x.magnitude() == (j + 1) * EXPONENT_STEP);
        assert(x.spacing() == j);
        assert(x.significand() == EXPONENT_STEP);
        lemma_pow2_adds(52, j);
    }
}

/// One unit rounds to the smallest number.
pub(crate) proof fn lemma_one_unit()
    ensures
        rounding::round(1, 1) == 1,
{
    lemma2_to64();
    lemma2_to64_rest();
    rounding::lemma_spacing_is(1, 1, 0);
    rounding::lemma_half_even_exact(1, 1);
}

/// Numbers compare as their values do.
pub proof fn law_comparison_is_that_of_the_values(x: Double, y: Double)
    requires
        x.is_finite(),
        y.is_finite(),
    ensures
        double::less(x, y) <==> real_of(x) < real_of(y),
        double::less_or_equal(x, y) <==> real_of(x) <= real_of(y),
{
    let t = pow2(1074) as real;
    lemma_scale();
    lemma_real_units(x);
    lemma_real_units(y);
    order::law_order_follows_values(x, y);
    order::law_order_follows_values(y, x);
    if x.value() <= y.value() {
        algebra::lemma_cancel(real_of(x), real_of(y), t);
    }
    if y.value() <= x.value() {
        algebra::lemma_cancel(real_of(y), real_of(x), t);
    }
    if x.value() < y.value() {
        assert(real_of(x) != real_of(y));
    }
    if y.value() < x.value() {
        assert(real_of(x) != real_of(y));
    }
}

/// The larger, the smaller and the confined number are what they are called:
/// one of their arguments, and no less or no more than the other ones.
pub proof fn law_choices_of_numbers(a: Double, b: Double, low: Double, high: Double)
    requires
        a.is_finite(),
        b.is_finite(),
        low.is_finite(),
        high.is_finite(),
        real_of(low) <= real_of(high),
    ensures
        ({
            let (most, least, kept) = (
                double::larger(a, b),
                double::smaller(a, b),
                double::clamped(a, low, high),
            );
            &&& most == a || most == b
            &&& real_of(most) >= real_of(a) && real_of(most) >= real_of(b)
            &&& least == a || least == b
            &&& real_of(least) <= real_of(a) && real_of(least) <= real_of(b)
            &&& kept == a || kept == low || kept == high
            &&& real_of(low) <= real_of(kept) <= real_of(high)
            &&& real_of(low) <= real_of(a) <= real_of(high) ==> kept == a
            &&& real_of(double::absolute(a)) == size(real_of(a))
            &&& real_of(double::negation(a)) == -real_of(a)
        }),
{
    law_comparison_is_that_of_the_values(a, b);
    law_comparison_is_that_of_the_values(b, a);
    law_comparison_is_that_of_the_values(a, low);
    law_comparison_is_that_of_the_values(high, a);
    fidelity::lemma_absolute(a);
    lemma_real_units(a);
}

/// Of two of which one is not a number, the other one is chosen; what is not a
/// number is not confined.
pub proof fn law_choices_pass_over_what_is_not_a_number(
    a: Double,
    b: Double,
    low: Double,
    high: Double,
)
    ensures
        a.is_nan() ==> double::larger(a, b) == b && double::smaller(a, b) == b,
        !a.is_nan() && b.is_nan() ==> double::larger(a, b) == a && double::smaller(a, b) == a,
        a.is_nan() ==> double::clamped(a, low, high) == a,
{
}

} // verus!
