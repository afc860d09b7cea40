//! Every operation gives the number that is nearest to the exact result.
use crate::accuracy;
use crate::double;
use crate::double::Double;
use crate::order;
use crate::rounding;
use crate::rounding::{EXPONENT_STEP, INFINITY_BITS};
use vstd::arithmetic::div_mod::*;
use vstd::arithmetic::mul::*;
use vstd::arithmetic::power2::*;
use vstd::prelude::*;

verus! {

/// The distance of two whole numbers.
pub open spec fn distance(a: int, b: int) -> int {
    if a < b {
        b - a
    } else {
        a - b
    }
}

/// No multiple is nearer than the nearest one; where another one is as near,
/// the factor of the nearest one is even.
proof fn lemma_nearest_multiple(n: nat, c: nat, j: nat)
    requires
        c > 0,
    ensures
        ({
            let q = rounding::half_even(n, c);
            &&& distance((q * c) as int, n as int) <= distance((j * c) as int, n as int)
            &&& j != q && distance((q * c) as int, n as int) == distance((j * c) as int, n as int)
                ==> q % 2 == 0
        }),
{
    let q = rounding::half_even(n, c);
    accuracy::lemma_half_even_error(n, c);
    if j > q {
        assert(j * c >= q * c + c) by (nonlinear_arith)
            requires
                j >= q + 1,
                c > 0,
        ;
    } else if j < q {
        assert(q * c >= j * c + c) by (nonlinear_arith)
            requires
                q >= j + 1,
                c > 0,
        ;
    }
    lemma_fundamental_div_mod(n as int, c as int);
    let (a, r) = (n / c, n % c);
    lemma_mul_is_commutative(c as int, a as int);
    assert((a + 1) * c == a * c + c) by (nonlinear_arith);
}

/// The units of a rounded fraction.
proof fn lemma_round_parts(n: nat, d: nat)
    requires
        d > 0,
        rounding::round(n, d) < INFINITY_BITS,
    ensures
        ({
            let k = rounding::spacing(n, d);
            let q = rounding::half_even(n, d * pow2(k));
            let z = Double { bits: rounding::round(n, d) as u64 };
            &&& d * pow2(k) > 0
            &&& rounding::round(n, d) == k * EXPONENT_STEP + q
            &&& z.units() == q * pow2(k)
            &&& z.units() * d == q * (d * pow2(k))
        }),
{
    rounding::lemma_spacing_exists(n, d);
    let k = rounding::spacing(n, d);
    let p = pow2(k);
    let c = d * p;
    let q = rounding::half_even(n, c);
    lemma_pow2_pos(k);
    lemma_mul_strictly_positive(d as int, p as int);
    accuracy::lemma_half_even_error(n, c);
    lemma2_to64();
    lemma2_to64_rest();
    lemma_pow2_adds(53, k);
    lemma_pow2_adds(52, k);
    assert(n < c * 0x20_0000_0000_0000) by (nonlinear_arith)
        requires
            n < d * (0x20_0000_0000_0000 * p),
            c == d * p,
    ;
    assert(q <= 0x20_0000_0000_0000) by (nonlinear_arith)
        requires
            n < c * 0x20_0000_0000_0000,
            2 * (q * c - n) <= c,
            c > 0,
    ;
    if k > 0 {
        assert(n >= c * 0x10_0000_0000_0000) by (nonlinear_arith)
            requires
                n >= d * (0x10_0000_0000_0000 * p),
                c == d * p,
        ;
        assert(q >= 0x10_0000_0000_0000) by (nonlinear_arith)
            requires
                n >= c * 0x10_0000_0000_0000,
                2 * (n - q * c) <= c,
                c > 0,
        ;
    }
    accuracy::lemma_rounded_units(k, q);
    let z = Double { bits: rounding::round(n, d) as u64 };
    assert(z.units() * d == q * c) by (nonlinear_arith)
        requires
            z.units() == q * p,
            c == d * p,
    ;
}

/// The number that a fraction is rounded to is the nearest one; where another
/// one is as near, its pattern is even.
pub proof fn law_rounding_is_to_the_nearest(n: nat, d: nat, y: Double)
    requires
        d > 0,
        rounding::round(n, d) < INFINITY_BITS,
        y.is_finite(),
    ensures
        ({
            let z = Double { bits: rounding::round(n, d) as u64 };
            let (near, other) = (
                distance((z.units() * d) as int, n as int),
                distance((y.units() * d) as int, n as int),
            );
            &&& near <= other
            &&& near == other && y.magnitude() != z.magnitude() ==> z.bits % 2 == 0
        }),
{
    let k = rounding::spacing(n, d);
    let p = pow2(k);
    let c = d * p;
    let q = rounding::half_even(n, c);
    let z = Double { bits: rounding::round(n, d) as u64 };
    lemma_round_parts(n, d);
    double::lemma_parts(y);
    let s = y.spacing();
    let sig = y.significand();
    lemma_pow2_pos(k);
    if s >= k {
        let rest = (s - k) as nat;
        lemma_pow2_adds(rest, k);
        let j = sig * pow2(rest);
        assert(y.units() * d == j * c) by (nonlinear_arith)
            requires
                y.units() == sig * (pow2(rest) * p),
                j == sig * pow2(rest),
                c == d * p,
        ;
        assert(y.units() == j * p) by (nonlinear_arith)
            requires
                y.units() == sig * (pow2(rest) * p),
                j == sig * pow2(rest),
        ;
        lemma_nearest_multiple(n, c, j);
        if y.magnitude() != z.magnitude() {
            order::law_magnitudes_follow_values(y, z);
            order::law_magnitudes_follow_values(z, y);
            assert(j != q);
        }
        assert((k * EXPONENT_STEP + q) % 2 == q % 2) by {
            assert(k * EXPONENT_STEP == 2 * (k * 0x8_0000_0000_0000));
        }
    } else {
        let j: nat = 0x10_0000_0000_0000;
        rounding::lemma_spacing_exists(n, d);
        lemma2_to64();
        lemma2_to64_rest();
        lemma_pow2_adds(52, k);
        lemma_pow2_unfold(k);
        rounding::lemma_pow2_monotone(s, (k - 1) as nat);
        let half = pow2((k - 1) as nat);
        lemma_pow2_pos((k - 1) as nat);
        lemma_pow2_pos(s);
        let w = pow2(s);
        assert(sig * w < j * p) by (nonlinear_arith)
            requires
                sig < 0x20_0000_0000_0000,
                w <= half,
                w > 0,
                p == 2 * half,
                j == 0x10_0000_0000_0000,
        ;
        assert(y.units() * d < j * c) by (nonlinear_arith)
            requires
                y.units() == sig * w,
                sig * w < j * p,
                c == d * p,
                d > 0,
        ;
        assert(n >= j * c) by (nonlinear_arith)
            requires
                n >= d * (j * p),
                c == d * p,
        ;
        lemma_nearest_multiple(n, c, j);
    }
}

/// A fraction is rounded to infinity exactly where it lies half a spacing or
/// more above the largest number.
pub proof fn law_rounding_overflows_above_the_largest(n: nat, d: nat)
    requires
        d > 0,
    ensures
        rounding::round(n, d) == INFINITY_BITS <==> 2 * n >= (d * pow2(2045))
            * 0x3f_ffff_ffff_ffff,
        rounding::round(n, d) <= INFINITY_BITS,
{
    rounding::lemma_spacing_exists(n, d);
    let k = rounding::spacing(n, d);
    let p = pow2(k);
    let c = d * p;
    let q = rounding::half_even(n, c);
    let top = d * pow2(2045);
    lemma_pow2_pos(k);
    lemma_pow2_pos(2045);
    lemma_mul_strictly_positive(d as int, p as int);
    lemma_mul_strictly_positive(d as int, pow2(2045) as int);
    lemma2_to64();
    lemma2_to64_rest();
    lemma_pow2_adds(53, k);
    lemma_pow2_adds(52, k);
    accuracy::lemma_half_even_error(n, c);
    assert(n < c * 0x20_0000_0000_0000) by (nonlinear_arith)
        requires
            n < d * (0x20_0000_0000_0000 * p),
            c == d * p,
    ;
    assert(q <= 0x20_0000_0000_0000) by (nonlinear_arith)
        requires
            n < c * 0x20_0000_0000_0000,
            2 * (q * c - n) <= c,
            c > 0,
    ;
    if k <= 2044 {
        rounding::lemma_pow2_monotone(k, 2044);
        lemma_pow2_unfold(2045);
        let half = pow2(2044);
        assert(2 * n < top * 0x3f_ffff_ffff_ffff) by (nonlinear_arith)
            requires
                n < (d * p) * 0x20_0000_0000_0000,
                p <= half,
                top == d * (2 * half),
                d > 0,
        ;
    } else if k == 2045 {
        lemma_fundamental_div_mod(n as int, c as int);
        let (a, r) = (n / c, n % c);
        lemma_mul_is_commutative(c as int, a as int);
        lemma_last_carry(n, c, a, r);
    } else {
        rounding::lemma_pow2_monotone(2046, k);
        lemma_pow2_unfold(2046);
        let base = pow2(2045);
        assert(2 * n >= top * 0x3f_ffff_ffff_ffff) by (nonlinear_arith)
            requires
                n >= d * (0x10_0000_0000_0000 * p),
                p >= 2 * base,
                top == d * base,
                d > 0,
        ;
        assert(q >= 0x10_0000_0000_0000) by (nonlinear_arith)
            requires
                n >= d * (0x10_0000_0000_0000 * p),
                c == d * p,
                2 * (n - q * c) <= c,
                c > 0,
        ;
    }
}

/// Where the last range carries over.
proof fn lemma_last_carry(n: nat, c: nat, a: nat, r: nat)
    requires
        c > 0,
        a == n / c,
        r == n % c,
        n == a * c + r,
        r < c,
        n < c * 0x20_0000_0000_0000,
    ensures
        rounding::half_even(n, c) >= 0x20_0000_0000_0000 <==> 2 * n >= c * 0x3f_ffff_ffff_ffff,
{
    let most: nat = 0x1f_ffff_ffff_ffff;
    assert(a <= most) by (nonlinear_arith)
        requires
            a * c <= n,
            n < c * 0x20_0000_0000_0000,
            c > 0,
            most == 0x1f_ffff_ffff_ffff,
    ;
    if a == most {
        assert(2 * n == c * 0x3f_ffff_ffff_fffe + 2 * r) by (nonlinear_arith)
            requires
                n == a * c + r,
                a == 0x1f_ffff_ffff_ffff,
        ;
        assert(c * 0x3f_ffff_ffff_ffff == c * 0x3f_ffff_ffff_fffe + c) by (nonlinear_arith);
    } else {
        assert(2 * n < c * 0x3f_ffff_ffff_ffff) by (nonlinear_arith)
            requires
                n == a * c + r,
                r < c,
                a + 1 <= 0x1f_ffff_ffff_ffff,
                c > 0,
        ;
    }
}

/// A sum is the number that is nearest to the exact sum.
pub proof fn law_sum_is_the_nearest(x: Double, y: Double, w: Double)
    requires
        x.is_finite(),
        y.is_finite(),
        w.is_finite(),
        double::sum(x, y).is_finite(),
    ensures
        distance(double::sum(x, y).value(), x.value() + y.value()) <= distance(
            w.value(),
            x.value() + y.value(),
        ),
{
    reveal(double::sum);
    let total = x.value() + y.value();
    let z = double::sum(x, y);
    let n: nat = if total >= 0 {
        total as nat
    } else {
        (-total) as nat
    };
    rounding::lemma_round_zero(1);
    assert(z.magnitude() == rounding::round(n, 1));
    law_rounding_is_to_the_nearest(n, 1, w);
    assert(z.units() == (Double { bits: rounding::round(n, 1) as u64 }).units());
    lemma_mul_basics(z.units() as int);
    lemma_mul_basics(w.units() as int);
    if total == 0 {
        double::lemma_parts(z);
    }
}

/// A product has the sign of its factors, and is nearest to the exact product.
pub proof fn law_product_is_the_nearest(x: Double, y: Double, w: Double)
    requires
        x.is_finite(),
        y.is_finite(),
        w.is_finite(),
        double::product(x, y).is_finite(),
    ensures
        double::product(x, y).negative() == (x.negative() != y.negative()),
        distance(
            (double::product(x, y).units() * pow2(1074)) as int,
            (x.units() * y.units()) as int,
        ) <= distance((w.units() * pow2(1074)) as int, (x.units() * y.units()) as int),
{
    reveal(double::product);
    let d = pow2(1074);
    let n = x.units() * y.units();
    let z = double::product(x, y);
    lemma_pow2_pos(1074);
    assert(z.magnitude() == rounding::round(n, d));
    law_rounding_is_to_the_nearest(n, d, w);
    assert(z.units() == (Double { bits: rounding::round(n, d) as u64 }).units());
}

/// A quotient has the sign of its terms, and is nearest to the exact quotient.
pub proof fn law_quotient_is_the_nearest(x: Double, y: Double, w: Double)
    requires
        x.is_finite(),
        y.is_finite(),
        !y.is_zero(),
        w.is_finite(),
        double::quotient(x, y).is_finite(),
    ensures
        double::quotient(x, y).negative() == (x.negative() != y.negative()),
        distance(
            (double::quotient(x, y).units() * y.units()) as int,
            (x.units() * pow2(1074)) as int,
        ) <= distance((w.units() * y.units()) as int, (x.units() * pow2(1074)) as int),
{
    reveal(double::quotient);
    let n = x.units() * pow2(1074);
    let z = double::quotient(x, y);
    double::lemma_parts(y);
    assert(z.magnitude() == rounding::round(n, y.units()));
    law_rounding_is_to_the_nearest(n, y.units(), w);
    assert(z.units() == (Double { bits: rounding::round(n, y.units()) as u64 }).units());
}

/// What is not a number stays so; an infinity stays one unless another one, or a
/// zero, makes it undecided; a number over zero is an infinity.
pub proof fn law_special_values_carry_over(x: Double, y: Double)
    ensures
        x.is_nan() || y.is_nan() ==> double::sum(x, y).is_nan() && double::product(x, y).is_nan()
            && double::quotient(x, y).is_nan(),
        x.is_infinite() && y.is_finite() ==> double::sum(x, y) == x && double::sum(y, x) == x,
        x.is_infinite() && y.is_infinite() ==> (double::sum(x, y).is_nan() <==> x.negative()
            != y.negative()) && double::quotient(x, y).is_nan() && double::product(
            x,
            y,
        ).is_infinite(),
        x.is_infinite() && y.is_zero() ==> double::product(x, y).is_nan() && double::quotient(
            x,
            y,
        ).is_infinite() && double::quotient(y, x).is_zero(),
        x.is_infinite() && y.is_finite() && !y.is_zero() ==> double::product(x, y).is_infinite()
            && double::quotient(x, y).is_infinite() && double::quotient(y, x).is_zero(),
        x.is_finite() && !x.is_zero() && y.is_zero() ==> double::quotient(x, y).is_infinite()
            && double::quotient(x, y).negative() == (x.negative() != y.negative()),
        x.is_zero() && y.is_zero() ==> double::quotient(x, y).is_nan(),
        x.is_nan() || y.is_nan() ==> !double::less(x, y) && !double::less_or_equal(x, y),
        x.is_infinite() && y.is_finite() ==> (double::less(x, y) <==> x.negative()) && (double::less(
            y,
            x,
        ) <==> !x.negative()),
{
    reveal(double::sum);
    reveal(double::product);
    reveal(double::quotient);
}

} // verus!
