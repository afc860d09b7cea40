//! Powers of two scale binary64 numbers without rounding, and so do prices
//! scale with the square-root price.
use crate::double;
use crate::double::Double;
use crate::math;
use crate::math::{ONE, Q96, TEN, TWO};
use crate::order;
use crate::rounding;
use crate::rounding::{EXPONENT_STEP, INFINITY_BITS};
use vstd::arithmetic::mul::*;
use vstd::arithmetic::power2::*;
use vstd::prelude::*;

verus! {

/// 4.
pub const FOUR: u64 = 0x4010_0000_0000_0000;

/// 2^159.
pub const LARGE_ROOT: u64 = 0x49e0_0000_0000_0000;

/// `x * 2^j`, as long as neither is too small or too large for it.
pub open spec fn shifted(x: Double, j: int) -> Double {
    Double { bits: (x.bits + j * EXPONENT_STEP) as u64 }
}

/// `2^e`.
pub open spec fn power(e: int) -> Double {
    Double { bits: ((e + 1023) * EXPONENT_STEP) as u64 }
}

/// Doubling a fraction that is not in the lowest range raises the exponent of
/// the number nearest to it.
proof fn lemma_round_doubled(n: nat, d: nat)
    requires
        d > 0,
        n >= d * pow2(52),
    ensures
        rounding::round(2 * n, d) == if rounding::round(n, d) + EXPONENT_STEP < INFINITY_BITS {
            rounding::round(n, d) + EXPONENT_STEP
        } else {
            INFINITY_BITS as int
        },
{
    rounding::lemma_spacing_exists(n, d);
    let k = rounding::spacing(n, d);
    lemma_pow2_unfold(53 + (k + 1));
    lemma_pow2_unfold(52 + (k + 1));
    lemma_pow2_unfold(k + 1);
    lemma_pow2_pos(k);
    assert(((53 + (k + 1)) - 1) as nat == 53 + k);
    assert(((52 + (k + 1)) - 1) as nat == 52 + k);
    let (p, q, r) = (pow2(53 + k), pow2(52 + k), pow2(k));
    assert(2 * n < d * (2 * p)) by (nonlinear_arith)
        requires
            n < d * p,
    ;
    assert(n >= d * q);
    assert(2 * n >= d * (2 * q)) by (nonlinear_arith)
        requires
            n >= d * q,
    ;
    rounding::lemma_spacing_is(2 * n, d, k + 1);
    lemma_mul_strictly_positive(d as int, r as int);
    rounding::lemma_half_even_scaled(n, d * r, 2);
    assert((d * r) * 2 == d * (2 * r)) by (nonlinear_arith);
}

/// Scaling by a power of two.
proof fn lemma_round_shifted(n: nat, d: nat, j: nat)
    requires
        d > 0,
        n >= d * pow2(52),
        rounding::round(n, d) + j * EXPONENT_STEP < INFINITY_BITS,
    ensures
        rounding::round(n * pow2(j), d) == rounding::round(n, d) + j * EXPONENT_STEP,
    decreases j,
{
    lemma2_to64();
    if j == 0 {
        lemma_mul_basics(n as int);
    } else {
        let i = (j - 1) as nat;
        lemma_round_shifted(n, d, i);
        lemma_pow2_unfold(j);
        lemma_pow2_pos(i);
        assert(n * pow2(i) >= n) by (nonlinear_arith)
            requires
                pow2(i) >= 1,
        ;
        lemma_round_doubled(n * pow2(i), d);
        assert(n * (2 * pow2(i)) == 2 * (n * pow2(i))) by (nonlinear_arith);
    }
}

/// A fraction that rounds to more than `2^(52+j)` units is not less.
pub(crate) proof fn lemma_round_above(n: nat, d: nat, j: nat)
    requires
        d > 0,
        j <= 2045,
        rounding::round(n, d) > (j + 1) * EXPONENT_STEP,
    ensures
        n >= d * pow2(52 + j),
{
    let x = Double { bits: ((j + 1) * EXPONENT_STEP) as u64 };
    lemma2_to64();
    lemma2_to64_rest();
    assert(x.magnitude() == (j + 1) * EXPONENT_STEP);
    assert(x.spacing() == j);
    assert(x.significand() == EXPONENT_STEP);
    lemma_pow2_adds(52, j);
    assert(x.units() == pow2(52 + j));
    order::law_rounding_is_exact(x);
    if n < d * pow2(52 + j) {
        lemma_mul_basics(n as int);
        lemma_mul_is_commutative(d as int, pow2(52 + j) as int);
        order::law_rounding_is_monotone(n, d, pow2(52 + j), 1);
    }
}

/// The units of a scaled number.
pub(crate) proof fn lemma_shifted(x: Double, j: nat)
    requires
        EXPONENT_STEP <= x.bits,
        x.bits + j * EXPONENT_STEP < INFINITY_BITS,
    ensures
        shifted(x, j as int).bits == x.bits + j * EXPONENT_STEP,
        shifted(x, j as int).units() == x.units() * pow2(j),
        shifted(x, j as int).is_finite(),
        x.is_finite(),
        order::unsigned(shifted(x, j as int)),
        order::unsigned(x),
        x.units() > 0,
{
    let y = shifted(x, j as int);
    double::lemma_parts(x);
    assert(y.magnitude() == x.magnitude() + j * EXPONENT_STEP);
    assert(y.spacing() == x.spacing() + j);
    assert(y.significand() == x.significand());
    lemma_pow2_adds(x.spacing(), j);
    lemma_mul_is_associative(
        x.significand() as int,
        pow2(x.spacing()) as int,
        pow2(j) as int,
    );
}

/// A number scaled up, divided.
pub(crate) proof fn lemma_quotient_shifted(x: Double, z: Double, j: nat)
    requires
        EXPONENT_STEP <= x.bits,
        x.bits + j * EXPONENT_STEP < INFINITY_BITS,
        EXPONENT_STEP <= z.bits < INFINITY_BITS,
        EXPONENT_STEP < double::quotient(x, z).bits,
        double::quotient(x, z).bits + j * EXPONENT_STEP < INFINITY_BITS,
    ensures
        double::quotient(shifted(x, j as int), z) == shifted(double::quotient(x, z), j as int),
{
    reveal(double::quotient);
    lemma_shifted(x, j);
    lemma2_to64();
    lemma_shifted(z, 0);
    let (u, w, d) = (x.units(), z.units(), pow2(1074));
    lemma_round_above(u * d, w, 0);
    lemma_round_shifted(u * d, w, j);
    assert((u * d) * pow2(j) == (u * pow2(j)) * d) by (nonlinear_arith);
}

/// A number scaled up, multiplied.
pub(crate) proof fn lemma_product_shifted(x: Double, z: Double, j: nat)
    requires
        EXPONENT_STEP <= x.bits,
        x.bits + j * EXPONENT_STEP < INFINITY_BITS,
        EXPONENT_STEP <= z.bits < INFINITY_BITS,
        EXPONENT_STEP < double::product(x, z).bits,
        double::product(x, z).bits + j * EXPONENT_STEP < INFINITY_BITS,
    ensures
        double::product(shifted(x, j as int), z) == shifted(double::product(x, z), j as int),
{
    reveal(double::product);
    lemma_shifted(x, j);
    lemma2_to64();
    lemma_shifted(z, 0);
    let (u, w, d) = (x.units(), z.units(), pow2(1074));
    lemma_pow2_pos(1074);
    lemma_round_above(u * w, d, 0);
    lemma_round_shifted(u * w, d, j);
    assert((u * w) * pow2(j) == (u * pow2(j)) * w) by (nonlinear_arith);
}

/// A division by a number scaled up.
pub(crate) proof fn lemma_divisor_shifted(z: Double, y: Double, j: nat)
    requires
        EXPONENT_STEP <= y.bits,
        y.bits + j * EXPONENT_STEP < INFINITY_BITS,
        EXPONENT_STEP <= z.bits < INFINITY_BITS,
        (j + 1) * EXPONENT_STEP < double::quotient(z, y).bits < INFINITY_BITS,
    ensures
        double::quotient(z, shifted(y, j as int)) == shifted(double::quotient(z, y), -j),
{
    reveal(double::quotient);
    lemma_shifted(y, j);
    lemma2_to64();
    lemma_shifted(z, 0);
    let (u, w, d, p) = (z.units(), y.units(), pow2(1074), pow2(j));
    let n = u * d;
    lemma_pow2_pos(j);
    lemma_mul_strictly_positive(w as int, p as int);
    lemma_round_above(n, w, j);
    lemma_pow2_adds(52, j);
    assert(n >= (w * p) * pow2(52)) by (nonlinear_arith)
        requires
            n >= w * (pow2(52) * p),
    ;
    rounding::lemma_round_scaled(n, w, p);
    lemma_round_lowered(n, w * p, j, rounding::round(n, w));
}

/// A fraction whose multiple is known, scaled down again.
proof fn lemma_round_lowered(n: nat, d: nat, j: nat, whole: nat)
    requires
        d > 0,
        n >= d * pow2(52),
        rounding::round(n * pow2(j), d) == whole,
        whole < INFINITY_BITS,
    ensures
        rounding::round(n, d) + j * EXPONENT_STEP == whole,
    decreases j,
{
    lemma2_to64();
    if j == 0 {
        lemma_mul_basics(n as int);
    } else {
        let i = (j - 1) as nat;
        lemma_pow2_unfold(j);
        lemma_pow2_pos(i);
        let m = n * pow2(i);
        assert(n * (2 * pow2(i)) == 2 * m) by (nonlinear_arith)
            requires
                m == n * pow2(i),
        ;
        assert(m >= n) by (nonlinear_arith)
            requires
                m == n * pow2(i),
                pow2(i) >= 1,
        ;
        lemma_round_doubled(m, d);
        lemma_round_lowered(n, d, i, (whole - EXPONENT_STEP) as nat);
    }
}

/// The units of a power of two.
pub(crate) proof fn lemma_power(e: int)
    requires
        -1022 <= e <= 1023,
    ensures
        power(e).bits == (e + 1023) * EXPONENT_STEP,
        power(e).units() == pow2((e + 1074) as nat),
        power(e).is_finite(),
        order::unsigned(power(e)),
        EXPONENT_STEP <= power(e).bits < INFINITY_BITS,
{
    let x = power(e);
    let k = (e + 1022) as nat;
    assert(x.magnitude() == (k + 1) * EXPONENT_STEP);
    assert(x.spacing() == k);
    assert(x.significand() == EXPONENT_STEP);
    lemma2_to64();
    lemma2_to64_rest();
    lemma_pow2_adds(52, k);
}

/// Products of powers of two.
proof fn lemma_power_product(a: int, b: int)
    requires
        -1022 <= a <= 1023,
        -1022 <= b <= 1023,
        -1022 <= a + b <= 1023,
    ensures
        double::product(power(a), power(b)) == power(a + b),
{
    reveal(double::product);
    lemma_power(a);
    lemma_power(b);
    lemma_power(a + b);
    let d = pow2(1074);
    let n = pow2((a + b + 1074) as nat);
    lemma_pow2_pos(1074);
    lemma_pow2_adds((a + 1074) as nat, (b + 1074) as nat);
    lemma_pow2_adds((a + b + 1074) as nat, 1074);
    lemma_mul_basics(d as int);
    rounding::lemma_round_scaled(n, 1, d);
    order::law_rounding_is_exact(power(a + b));
}

/// Quotients of powers of two.
proof fn lemma_power_quotient(a: int, b: int)
    requires
        -1022 <= a <= 1023,
        -1022 <= b <= 1023,
        -1022 <= a - b <= 1023,
    ensures
        double::quotient(power(a), power(b)) == power(a - b),
{
    reveal(double::quotient);
    lemma_power(a);
    lemma_power(b);
    lemma_power(a - b);
    double::lemma_parts(power(b));
    let d = pow2((b + 1074) as nat);
    let n = pow2((a - b + 1074) as nat);
    lemma_pow2_pos((b + 1074) as nat);
    lemma_pow2_adds((a + 1074) as nat, 1074);
    lemma_pow2_adds((a - b + 1074) as nat, (b + 1074) as nat);
    lemma_mul_basics(d as int);
    rounding::lemma_round_scaled(n, 1, d);
    order::law_rounding_is_exact(power(a - b));
}

/// Whether a number lies between two powers of two.
pub open spec fn between(x: Double, low: int, high: int) -> bool {
    power(low).bits <= x.bits <= power(high).bits
}

/// Products of numbers between powers of two.
pub(crate) proof fn lemma_product_between(x: Double, y: Double, a: int, b: int, c: int, d: int)
    requires
        -1022 <= a <= b <= 1023,
        -1022 <= c <= d <= 1023,
        -1022 <= a + c,
        b + d <= 1023,
        between(x, a, b),
        between(y, c, d),
    ensures
        between(double::product(x, y), a + c, b + d),
{
    lemma_power(a);
    lemma_power(b);
    lemma_power(c);
    lemma_power(d);
    lemma_power(a + c);
    lemma_power(b + d);
    lemma_power_product(a, c);
    lemma_power_product(b, d);
    lemma_product_ordered(power(a), x, power(c), y);
    lemma_product_ordered(x, power(b), y, power(d));
}

/// Products of larger numbers are no smaller.
proof fn lemma_product_ordered(v: Double, w: Double, x: Double, y: Double)
    requires
        v.bits <= w.bits < INFINITY_BITS,
        x.bits <= y.bits < INFINITY_BITS,
    ensures
        double::product(v, x).bits <= double::product(w, y).bits,
{
    lemma_finite_product(v, x);
    lemma_finite_product(w, x);
    lemma_finite_product(w, y);
    order::law_product_is_monotone(v, w, x);
    order::law_product_commutes(w, x);
    order::law_product_commutes(w, y);
    order::law_product_is_monotone(x, y, w);
}

/// Quotients of larger numbers by smaller ones are no smaller.
proof fn lemma_quotient_ordered(v: Double, w: Double, x: Double, y: Double)
    requires
        v.bits <= w.bits < INFINITY_BITS,
        0 < x.bits <= y.bits < INFINITY_BITS,
    ensures
        double::quotient(v, y).bits <= double::quotient(w, x).bits,
{
    order::lemma_quotient_operands(v, y);
    order::lemma_quotient_operands(w, y);
    order::lemma_quotient_operands(w, x);
    order::law_quotient_is_monotone(v, w, y);
    order::law_quotient_is_antitone(x, y, w);
}

/// Products of finite numbers are numbers.
pub(crate) proof fn lemma_finite_product(x: Double, y: Double)
    requires
        x.is_finite(),
        y.is_finite(),
    ensures
        !double::product(x, y).is_nan(),
{
    reveal(double::product);
}

/// Quotients of numbers between powers of two.
pub(crate) proof fn lemma_quotient_between(x: Double, y: Double, a: int, b: int, c: int, d: int)
    requires
        -1022 <= a <= b <= 1023,
        -1022 <= c <= d <= 1023,
        -1022 <= a - d,
        b - c <= 1023,
        between(x, a, b),
        between(y, c, d),
    ensures
        between(double::quotient(x, y), a - d, b - c),
{
    lemma_power(a);
    lemma_power(b);
    lemma_power(c);
    lemma_power(d);
    lemma_power(a - d);
    lemma_power(b - c);
    lemma_power_quotient(a, d);
    lemma_power_quotient(b, c);
    lemma_quotient_ordered(power(a), x, y, power(d));
    lemma_quotient_ordered(x, power(b), power(c), y);
}

/// The factor between the decimals of USDC and WETH.
proof fn lemma_decimals()
    ensures
        between(math::power_of_ten(-12), -48, 0),
{
    let one = math::number(ONE);
    let ten = math::number(TEN);
    assert(one == power(0));
    lemma_power(0);
    lemma_power(3);
    lemma_power(4);
    assert(between(ten, 3, 4));
    let t2 = double::product(ten, ten);
    let t4 = double::product(t2, t2);
    let t8 = double::product(t4, t4);
    lemma_product_between(ten, ten, 3, 4, 3, 4);
    lemma_product_between(t2, t2, 6, 8, 6, 8);
    lemma_product_between(t4, t4, 12, 16, 12, 16);
    let low = double::product(one, t4);
    lemma_product_between(one, t4, 0, 0, 12, 16);
    lemma_product_between(low, t8, 12, 16, 24, 32);
    assert(math::squared_power(ten, 12, one) == double::product(low, t8)) by {
        assert(math::squared_power(ten, 12, one) == math::squared_power(t2, 6, one));
        assert(math::squared_power(t2, 6, one) == math::squared_power(t4, 3, one));
        assert(math::squared_power(t4, 3, one) == math::squared_power(t8, 1, low));
    }
    lemma_quotient_between(one, double::product(low, t8), 0, 0, 36, 48);
    lemma_power(-36);
    lemma_power(-48);
}

/// A number times one, and divided by it.
pub(crate) proof fn lemma_by_one(x: Double)
    requires
        EXPONENT_STEP <= x.bits < INFINITY_BITS,
    ensures
        double::product(math::number(ONE), x) == x,
        double::quotient(x, math::number(ONE)) == x,
{
    reveal(double::product);
    reveal(double::quotient);
    let one = math::number(ONE);
    let (u, d) = (x.units(), pow2(1074));
    order::lemma_one();
    lemma_pow2_pos(1074);
    assert(one == double::of_nat(1));
    order::law_rounding_is_exact(x);
    lemma_mul_basics(d as int);
    rounding::lemma_round_scaled(u, 1, d);
    lemma_mul_is_commutative(u as int, d as int);
}

/// Doubling the square-root price quarters the price of ETH exactly, for the
/// decimals of USDC and WETH and a square-root price from 1 to 2^159.
pub proof fn law_doubled_root_quarters_the_price(x: Double)
    requires
        double::less_or_equal(math::number(ONE), x),
        double::less_or_equal(x, math::number(LARGE_ROOT)),
    ensures
        math::eth_price(double::product(x, math::number(TWO)), 6, 18) == double::quotient(
            math::eth_price(x, 6, 18),
            math::number(FOUR),
        ),
{
    let one = math::number(ONE);
    let q = math::number(Q96);
    let tens = math::power_of_ten(-12);
    assert(one == power(0));
    assert(q == power(96));
    assert(math::number(LARGE_ROOT) == power(159));
    assert(between(x, 0, 159));
    lemma_decimals();
    // The price of `x`.
    let root = double::quotient(x, q);
    let square = double::product(root, root);
    let adjusted = double::product(square, tens);
    let price = double::quotient(one, adjusted);
    lemma_quotient_between(x, q, 0, 159, 96, 96);
    lemma_product_between(root, root, -96, 63, -96, 63);
    lemma_product_between(square, tens, -192, 126, -48, 0);
    lemma_quotient_between(one, adjusted, 0, 0, -240, 126);
    assert(price == math::eth_price(x, 6, 18));
    // The price of twice that.
    let two = math::number(TWO);
    let y = double::product(x, two);
    assert(two == shifted(one, 1));
    lemma_by_one(x);
    lemma_product_shifted(one, x, 1);
    order::law_product_commutes(x, two);
    assert(y == shifted(x, 1));
    lemma_quotient_shifted(x, q, 1);
    let root_y = shifted(root, 1);
    assert(double::quotient(y, q) == root_y);
    lemma_product_shifted(root, root, 1);
    order::law_product_commutes(root_y, root);
    lemma_product_shifted(root, root_y, 1);
    let square_y = shifted(square, 2);
    assert(double::product(root_y, root_y) == square_y);
    lemma_product_shifted(square, tens, 2);
    let adjusted_y = shifted(adjusted, 2);
    assert(double::product(square_y, tens) == adjusted_y);
    lemma_divisor_shifted(one, adjusted, 2);
    assert(math::eth_price(y, 6, 18) == shifted(price, -2));
    // A quarter of the price of `x`.
    assert(math::number(FOUR) == shifted(one, 2));
    lemma_by_one(price);
    lemma_divisor_shifted(price, one, 2);
}

} // verus!
