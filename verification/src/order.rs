//! How the arithmetic of binary64 numbers respects their order: rounding is
//! exact where it can be and never turns an inequality round.
use crate::double;
use crate::double::Double;
use crate::rounding;
use crate::rounding::{EXPONENT_STEP, INFINITY_BITS};
use vstd::arithmetic::div_mod::*;
use vstd::arithmetic::mul::*;
use vstd::arithmetic::power2::*;
use vstd::prelude::*;

verus! {

/// A larger numerator has no smaller nearest integer.
proof fn lemma_half_even_numerator(a: nat, b: nat, d: nat)
    requires
        a <= b,
        d > 0,
    ensures
        rounding::half_even(a, d) <= rounding::half_even(b, d),
{
    lemma_div_is_ordered(a as int, b as int, d as int);
    lemma_fundamental_div_mod(a as int, d as int);
    lemma_fundamental_div_mod(b as int, d as int);
}

/// A larger fraction has no smaller nearest integer.
proof fn lemma_half_even_monotone(a: nat, c: nat, b: nat, d: nat)
    requires
        c > 0,
        d > 0,
        a * d <= b * c,
    ensures
        rounding::half_even(a, c) <= rounding::half_even(b, d),
{
    rounding::lemma_half_even_scaled(a, c, d);
    rounding::lemma_half_even_scaled(b, d, c);
    lemma_mul_is_commutative(c as int, d as int);
    lemma_mul_strictly_positive(c as int, d as int);
    lemma_half_even_numerator(a * d, b * c, c * d);
}

/// The nearest integer of a fraction of at most `m` is at most `m`, and of
/// one of at least `m` at least `m`.
proof fn lemma_half_even_bounds(n: nat, d: nat, m: nat)
    requires
        d > 0,
    ensures
        n <= m * d ==> rounding::half_even(n, d) <= m,
        n >= m * d ==> rounding::half_even(n, d) >= m,
{
    rounding::lemma_half_even_exact(m, d);
    if n <= m * d {
        lemma_half_even_numerator(n, m * d, d);
    }
    if n >= m * d {
        lemma_half_even_numerator(m * d, n, d);
    }
}

/// A larger fraction rounds to no smaller number.
pub proof fn law_rounding_is_monotone(a: nat, c: nat, b: nat, d: nat)
    requires
        c > 0,
        d > 0,
        a * d <= b * c,
    ensures
        rounding::round(a, c) <= rounding::round(b, d),
{
    let j = rounding::spacing(a, c);
    let k = rounding::spacing(b, d);
    rounding::lemma_spacing_exists(a, c);
    rounding::lemma_spacing_exists(b, d);
    let pj = pow2(j);
    let pk = pow2(k);
    lemma_pow2_pos(j);
    lemma_pow2_pos(k);
    lemma_mul_strictly_positive(c as int, pj as int);
    lemma_mul_strictly_positive(d as int, pk as int);
    lemma2_to64();
    lemma2_to64_rest();
    lemma_pow2_adds(52, k);
    lemma_pow2_adds(53, j);
    lemma_pow2_adds(53, k);
    if j == k {
        assert(a * (d * pk) <= b * (c * pk)) by (nonlinear_arith)
            requires
                a * d <= b * c,
                pk > 0,
        ;
        lemma_half_even_monotone(a, c * pk, b, d * pk);
    } else if j < k {
        // The lower one is at most twice the least significand of its range.
        assert(a <= pow2(53) * (c * pj)) by (nonlinear_arith)
            requires
                a < c * (pow2(53) * pj),
        ;
        lemma_half_even_bounds(a, c * pj, pow2(53));
        assert(b >= pow2(52) * (d * pk)) by (nonlinear_arith)
            requires
                b >= d * (pow2(52) * pk),
        ;
        lemma_half_even_bounds(b, d * pk, pow2(52));
        assert(j * EXPONENT_STEP + pow2(53) <= k * EXPONENT_STEP + pow2(52)) by (nonlinear_arith)
            requires
                j + 1 <= k,
                pow2(53) == 2 * EXPONENT_STEP,
                pow2(52) == EXPONENT_STEP,
        ;
    } else {
        // The larger spacing would make the smaller fraction the larger one.
        rounding::lemma_pow2_monotone(53 + k, 52 + j);
        let low = pow2(52 + j);
        let high = pow2(53 + k);
        assert(a * d >= b * c + 1) by (nonlinear_arith)
            requires
                a >= c * low,
                b < d * high,
                high <= low,
                c > 0,
                d > 0,
        ;
    }
}

/// A magnitude rounds to itself.
pub proof fn law_rounding_is_exact(x: Double)
    requires
        x.is_finite(),
    ensures
        rounding::round(x.units(), 1) == x.magnitude(),
{
    double::lemma_parts(x);
    let m = x.significand();
    let k = x.spacing();
    let p = pow2(k);
    lemma_pow2_pos(k);
    lemma2_to64();
    lemma2_to64_rest();
    lemma_pow2_adds(53, k);
    lemma_pow2_adds(52, k);
    assert(m * p < pow2(53) * p) by (nonlinear_arith)
        requires
            m < pow2(53),
            p > 0,
    ;
    if k > 0 {
        assert(m * p >= pow2(52) * p) by (nonlinear_arith)
            requires
                m >= pow2(52),
                p > 0,
        ;
    }
    lemma_mul_basics(pow2(53 + k) as int);
    lemma_mul_basics(pow2(52 + k) as int);
    lemma_mul_basics(p as int);
    rounding::lemma_spacing_is(m * p, 1, k);
    rounding::lemma_half_even_exact(m, p);
}

/// Magnitudes are ordered as their values are.
pub proof fn law_magnitudes_follow_values(x: Double, y: Double)
    requires
        x.is_finite(),
        y.is_finite(),
    ensures
        x.units() <= y.units() <==> x.magnitude() <= y.magnitude(),
{
    law_rounding_is_exact(x);
    law_rounding_is_exact(y);
    if x.units() <= y.units() {
        law_rounding_is_monotone(x.units(), 1, y.units(), 1);
    } else {
        law_rounding_is_monotone(y.units(), 1, x.units(), 1);
        if x.magnitude() == y.magnitude() {
            assert(x.units() == y.units());
        }
    }
}

/// Numbers are ordered as their values are.
pub proof fn law_order_follows_values(x: Double, y: Double)
    requires
        x.is_finite(),
        y.is_finite(),
    ensures
        double::less_or_equal(x, y) <==> x.value() <= y.value(),
        double::less(x, y) <==> x.value() < y.value(),
{
    law_magnitudes_follow_values(x, y);
    law_magnitudes_follow_values(y, x);
    double::lemma_parts(x);
    double::lemma_parts(y);
}

/// A signed magnitude has that sign and that magnitude.
proof fn lemma_signed(negative: bool, magnitude: nat)
    requires
        magnitude <= INFINITY_BITS,
    ensures
        double::signed(negative, magnitude).negative() == negative,
        double::signed(negative, magnitude).magnitude() == magnitude,
        !double::signed(negative, magnitude).is_nan(),
        double::signed(negative, magnitude).order() == if negative {
            -(magnitude as int)
        } else {
            magnitude as int
        },
{
}

/// The place in the order of the number nearest to a whole number of units.
spec fn rounded_order(total: int) -> int {
    if total >= 0 {
        rounding::round(total as nat, 1) as int
    } else {
        -(rounding::round((-total) as nat, 1) as int)
    }
}

proof fn lemma_rounded_order_monotone(s: int, t: int)
    requires
        s <= t,
    ensures
        rounded_order(s) <= rounded_order(t),
        -(INFINITY_BITS as int) <= rounded_order(s) <= INFINITY_BITS as int,
{
    if s >= 0 {
        law_rounding_is_monotone(s as nat, 1, t as nat, 1);
    } else if t < 0 {
        law_rounding_is_monotone((-t) as nat, 1, (-s) as nat, 1);
    }
}

/// The sum of finite numbers takes the place of the number nearest to the
/// exact sum.
proof fn lemma_sum_order(x: Double, y: Double)
    requires
        x.is_finite(),
        y.is_finite(),
    ensures
        double::sum(x, y).order() == rounded_order(x.value() + y.value()),
        !double::sum(x, y).is_nan(),
{
    reveal(double::sum);
    let total = x.value() + y.value();
    rounding::lemma_round_zero(1);
    if total >= 0 {
        lemma_signed(false, rounding::round(total as nat, 1));
    } else {
        lemma_signed(true, rounding::round((-total) as nat, 1));
    }
    lemma_signed(x.negative() && y.negative(), 0);
}

/// A sum that is a number has operands that are numbers.
pub broadcast proof fn lemma_sum_operands(x: Double, y: Double)
    ensures
        !(#[trigger] double::sum(x, y)).is_nan() ==> !x.is_nan() && !y.is_nan(),
{
    reveal(double::sum);
}

/// A product that is a number has operands that are numbers.
pub broadcast proof fn lemma_product_operands(x: Double, y: Double)
    ensures
        !(#[trigger] double::product(x, y)).is_nan() ==> !x.is_nan() && !y.is_nan(),
{
    reveal(double::product);
}

/// A quotient that is a number has operands that are numbers, and numbers of
/// which one is finite, the divisor not being 0, give one.
pub broadcast proof fn lemma_quotient_operands(x: Double, y: Double)
    ensures
        !(#[trigger] double::quotient(x, y)).is_nan() ==> !x.is_nan() && !y.is_nan(),
        !x.is_nan() && y.is_finite() && !y.is_zero() ==> !double::quotient(x, y).is_nan(),
        x.is_finite() && !y.is_nan() && !y.is_zero() ==> !double::quotient(x, y).is_nan(),
{
    reveal(double::quotient);
    if x.is_finite() && y.is_finite() && !y.is_zero() {
        lemma_signed(
            x.negative() != y.negative(),
            rounding::round(x.units() * pow2(1074), y.units()),
        );
    }
    lemma_signed(x.negative() != y.negative(), INFINITY_BITS as nat);
    lemma_signed(x.negative() != y.negative(), 0);
}

/// Operations on what is not a number do not give one.
pub broadcast group group_operands {
    lemma_sum_operands,
    lemma_product_operands,
    lemma_quotient_operands,
}

/// Adding the same to a larger number gives no smaller sum.
pub proof fn law_sum_is_monotone(x: Double, y: Double, z: Double)
    requires
        double::less_or_equal(x, y),
        !double::sum(x, z).is_nan(),
        !double::sum(y, z).is_nan(),
    ensures
        double::less_or_equal(double::sum(x, z), double::sum(y, z)),
{
    reveal(double::sum);
    if x.is_finite() && y.is_finite() && z.is_finite() {
        law_order_follows_values(x, y);
        lemma_sum_order(x, z);
        lemma_sum_order(y, z);
        lemma_rounded_order_monotone(x.value() + z.value(), y.value() + z.value());
    } else if x.is_finite() && z.is_finite() {
        lemma_sum_order(x, z);
        lemma_rounded_order_monotone(x.value() + z.value(), x.value() + z.value());
    } else if y.is_finite() && z.is_finite() {
        lemma_sum_order(y, z);
        lemma_rounded_order_monotone(y.value() + z.value(), y.value() + z.value());
    }
}

/// Sums commute.
pub proof fn law_sum_commutes(x: Double, y: Double)
    ensures
        double::sum(x, y) == double::sum(y, x),
{
    reveal(double::sum);
    assert(x.is_infinite() && y.is_infinite() && x.negative() == y.negative() ==> x.bits == y.bits);
}

/// Products commute.
pub proof fn law_product_commutes(x: Double, y: Double)
    ensures
        double::product(x, y) == double::product(y, x),
{
    reveal(double::product);
    lemma_mul_is_commutative(x.units() as int, y.units() as int);
}

/// Subtracting a larger number gives no larger difference.
pub proof fn law_difference_is_antitone(x: Double, y: Double, z: Double)
    requires
        double::less_or_equal(x, y),
        !double::difference(z, x).is_nan(),
        !double::difference(z, y).is_nan(),
    ensures
        double::less_or_equal(double::difference(z, y), double::difference(z, x)),
{
    lemma_signed(!x.negative(), x.magnitude());
    lemma_signed(!y.negative(), y.magnitude());
    law_sum_commutes(z, double::negation(x));
    law_sum_commutes(z, double::negation(y));
    law_sum_is_monotone(double::negation(y), double::negation(x), z);
}

/// Whether a number is one, and has no sign bit.
pub open spec fn unsigned(x: Double) -> bool {
    !x.is_nan() && !x.negative()
}

/// Multiplying a larger number gives no smaller product.
pub proof fn law_product_is_monotone(x: Double, y: Double, z: Double)
    requires
        unsigned(x),
        unsigned(y),
        unsigned(z),
        double::less_or_equal(x, y),
        !double::product(x, z).is_nan(),
        !double::product(y, z).is_nan(),
    ensures
        double::less_or_equal(double::product(x, z), double::product(y, z)),
        unsigned(double::product(x, z)),
        unsigned(double::product(y, z)),
{
    reveal(double::product);
    lemma_pow2_pos(1074);
    let d = pow2(1074);
    lemma_signed(false, INFINITY_BITS as nat);
    if x.is_finite() && z.is_finite() {
        lemma_signed(false, rounding::round(x.units() * z.units(), d));
    }
    if y.is_finite() && z.is_finite() {
        lemma_signed(false, rounding::round(y.units() * z.units(), d));
    }
    if x.is_finite() && y.is_finite() && z.is_finite() {
        law_magnitudes_follow_values(x, y);
        let (u, v, w) = (x.units(), y.units(), z.units());
        assert((u * w) * d <= (v * w) * d) by (nonlinear_arith)
            requires
                u <= v,
                w >= 0,
                d > 0,
        ;
        law_rounding_is_monotone(u * w, d, v * w, d);
    }
}

/// Dividing a larger number gives no smaller quotient.
pub proof fn law_quotient_is_monotone(x: Double, y: Double, z: Double)
    requires
        unsigned(x),
        unsigned(y),
        unsigned(z),
        double::less_or_equal(x, y),
        !double::quotient(x, z).is_nan(),
        !double::quotient(y, z).is_nan(),
    ensures
        double::less_or_equal(double::quotient(x, z), double::quotient(y, z)),
        unsigned(double::quotient(x, z)),
        unsigned(double::quotient(y, z)),
{
    reveal(double::quotient);
    let d = pow2(1074);
    lemma_signed(false, INFINITY_BITS as nat);
    lemma_signed(false, 0);
    if z.is_finite() && !z.is_zero() {
        double::lemma_parts(z);
        let w = z.units();
        if x.is_finite() {
            lemma_signed(false, rounding::round(x.units() * d, w));
        }
        if y.is_finite() {
            lemma_signed(false, rounding::round(y.units() * d, w));
        }
        if x.is_finite() && y.is_finite() {
            law_magnitudes_follow_values(x, y);
            let (u, v) = (x.units(), y.units());
            lemma_pow2_pos(1074);
            assert((u * d) * w <= (v * d) * w) by (nonlinear_arith)
                requires
                    u <= v,
                    d >= 0,
                    w >= 0,
            ;
            law_rounding_is_monotone(u * d, w, v * d, w);
        }
    }
}

/// Dividing by a larger number gives no larger quotient.
pub proof fn law_quotient_is_antitone(x: Double, y: Double, z: Double)
    requires
        unsigned(x),
        unsigned(y),
        unsigned(z),
        double::less_or_equal(x, y),
        !double::quotient(z, x).is_nan(),
        !double::quotient(z, y).is_nan(),
    ensures
        double::less_or_equal(double::quotient(z, y), double::quotient(z, x)),
        unsigned(double::quotient(z, x)),
        unsigned(double::quotient(z, y)),
{
    reveal(double::quotient);
    let d = pow2(1074);
    lemma_signed(false, INFINITY_BITS as nat);
    lemma_signed(false, 0);
    if z.is_finite() {
        if x.is_finite() && !x.is_zero() {
            double::lemma_parts(x);
            lemma_signed(false, rounding::round(z.units() * d, x.units()));
        }
        if y.is_finite() && !y.is_zero() {
            double::lemma_parts(y);
            lemma_signed(false, rounding::round(z.units() * d, y.units()));
        }
        if x.is_finite() && !x.is_zero() && y.is_finite() {
            law_magnitudes_follow_values(x, y);
            let n = z.units() * d;
            assert(n * x.units() <= n * y.units()) by (nonlinear_arith)
                requires
                    x.units() <= y.units(),
                    n >= 0,
            ;
            law_rounding_is_monotone(n, y.units(), n, x.units());
        }
    }
}

/// Adding a number without sign gives no smaller sum.
pub proof fn law_sum_grows(x: Double, z: Double)
    requires
        unsigned(z),
        !double::sum(x, z).is_nan(),
    ensures
        double::less_or_equal(x, double::sum(x, z)),
        unsigned(x) ==> unsigned(double::sum(x, z)),
{
    reveal(double::sum);
    if x.is_finite() && z.is_finite() {
        lemma_sum_order(x, z);
        lemma_rounded_order_monotone(x.value(), x.value() + z.value());
        law_rounding_is_exact(x);
        double::lemma_parts(x);
        rounding::lemma_round_zero(1);
        if x.value() + z.value() >= 0 {
            lemma_signed(false, rounding::round((x.value() + z.value()) as nat, 1));
        }
        lemma_signed(false, 0);
    }
}

/// A part of at most one of a number is no larger than the number.
pub proof fn law_product_shrinks(x: Double, part: Double)
    requires
        unsigned(x),
        unsigned(part),
        double::less_or_equal(part, double::of_nat(1)),
        !double::product(x, part).is_nan(),
    ensures
        double::less_or_equal(double::product(x, part), x),
        unsigned(double::product(x, part)),
{
    reveal(double::product);
    let d = pow2(1074);
    lemma_pow2_pos(1074);
    lemma_signed(false, INFINITY_BITS as nat);
    lemma_mul_basics(d as int);
    lemma_one();
    if x.is_finite() {
        law_magnitudes_follow_values(part, double::of_nat(1));
        let (u, v) = (x.units(), part.units());
        assert((u * v) * 1 <= u * d) by (nonlinear_arith)
            requires
                v <= d,
                u >= 0,
        ;
        law_rounding_is_monotone(u * v, d, u, 1);
        law_rounding_is_exact(x);
        lemma_signed(false, rounding::round(u * v, d));
    }
}

/// Products of numbers of at least one are such numbers.
pub proof fn law_product_of_large_is_large(x: Double, y: Double)
    requires
        double::less_or_equal(double::of_nat(1), x),
        double::less_or_equal(double::of_nat(1), y),
    ensures
        double::less_or_equal(double::of_nat(1), double::product(x, y)),
{
    reveal(double::product);
    lemma_one();
    let one = double::of_nat(1);
    let d = pow2(1074);
    lemma_pow2_pos(1074);
    lemma_signed(false, INFINITY_BITS as nat);
    if x.is_finite() && y.is_finite() {
        law_magnitudes_follow_values(one, x);
        law_magnitudes_follow_values(one, y);
        let (u, v) = (x.units(), y.units());
        assert(d * d <= (u * v) * 1) by (nonlinear_arith)
            requires
                d <= u,
                d <= v,
        ;
        law_rounding_is_monotone(d, 1, u * v, d);
        law_rounding_is_exact(one);
        lemma_signed(false, rounding::round(u * v, d));
    }
}

/// One is a finite number of 2^1074 units.
pub proof fn lemma_one()
    ensures
        double::of_nat(1) == (Double { bits: 0x3ff0_0000_0000_0000 }),
        double::of_nat(1).units() == pow2(1074),
        double::of_nat(1).is_finite(),
{
    let one = Double { bits: 0x3ff0_0000_0000_0000 };
    assert(one.magnitude() == 0x3ff0_0000_0000_0000);
    assert(one.spacing() == 1022);
    assert(one.significand() == 0x10_0000_0000_0000);
    lemma2_to64();
    lemma2_to64_rest();
    lemma_pow2_adds(52, 1022);
    assert(one.units() == pow2(1074));
    law_rounding_is_exact(one);
    lemma_mul_basics(pow2(1074) as int);
}

} // verus!
