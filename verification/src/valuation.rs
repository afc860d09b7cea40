//! How close the price of ETH is to the exact one.
use crate::accuracy;
use crate::algebra;
use crate::double;
use crate::double::Double;
use crate::fidelity;
use crate::math;
use crate::math::{ONE, Q96, TEN, ZERO};
use crate::order;
use crate::scaling;
use crate::state_sync;
use crate::state_sync::PoolReading;
use crate::types::{PoolConfig, PoolState};
use vstd::arithmetic::mul::*;
use vstd::arithmetic::power::*;
use vstd::arithmetic::power2::*;
use vstd::prelude::*;

verus! {

/// Products of close numbers are close: `z` is rounded from `x * u`.
pub(crate) proof fn lemma_close_product(x: real, y: real, i: nat, u: real, v: real, j: nat, z: real)
    requires
        i <= 2000,
        j <= 2000,
        x >= 0real,
        y >= 0real,
        u >= 0real,
        v >= 0real,
        accuracy::within(x, y, i as real, y),
        accuracy::within(u, v, j as real, v),
        accuracy::within(z, x * u, 1real, x * u),
    ensures
        accuracy::within(z, y * v, (i + j + 2) as real, y * v),
{
    let big = 9_007_199_254_740_992real;
    let (p, q) = (i as real, j as real);
    let yv = y * v;
    algebra::lemma_product_monotone(0real, y, 0real, v);
    // `x * big <= (big + p) * y`, and so on.
    algebra::lemma_plus(big, p, y);
    algebra::lemma_minus(big, p, y);
    algebra::lemma_plus(big, q, v);
    algebra::lemma_minus(big, q, v);
    let (xb, ub) = (x * big, u * big);
    algebra::lemma_product_monotone(0real, big - p, 0real, y);
    algebra::lemma_product_monotone(0real, big - q, 0real, v);
    algebra::lemma_product_monotone((big - p) * y, xb, (big - q) * v, ub);
    algebra::lemma_product_monotone(xb, (big + p) * y, ub, (big + q) * v);
    algebra::identity_pairs(big + p, y, big + q, v);
    algebra::identity_pairs(big - p, y, big - q, v);
    let s = x * u;
    assert(xb * ub == s * (big * big)) by {
        algebra::identity_pairs(x, big, u, big);
    }
    lemma_cross_terms(p, q);
    let above = big * (p + q) + p * q;
    let below = big * (p + q) - p * q;
    algebra::lemma_multiple(yv, (big + p) * (big + q), big * big + above);
    algebra::lemma_multiple(yv, (big - p) * (big - q), big * big - below);
    // `s` in terms of `y * v`.
    let bb = big * big;
    algebra::lemma_plus(bb, above, yv);
    algebra::lemma_minus(bb, below, yv);
    let k = p + q + 1real / 2real;
    algebra::lemma_product_monotone(above, big * k, yv, yv);
    algebra::lemma_product_monotone(0real, big * k - below, 0real, yv);
    algebra::lemma_minus(big * k, below, yv);
    assert((big * k) * yv == big * (k * yv)) by (nonlinear_arith);
    assert((s - yv) * big <= k * yv);
    assert((yv - s) * big <= k * yv);
    assert((i + j + 2) as real == k + 3real / 2real);
    lemma_last_rounding(z, s, yv, k);
}

/// The terms of two relative errors.
proof fn lemma_cross_terms(p: real, q: real)
    requires
        0real <= p <= 2000real,
        0real <= q <= 2000real,
    ensures
        ({
            let big = 9_007_199_254_740_992real;
            &&& (big + p) * (big + q) == big * big + (big * (p + q) + p * q)
            &&& (big - p) * (big - q) == big * big - (big * (p + q) - p * q)
            &&& 0real <= p * q <= 4_000_000real
            &&& big * (p + q) + p * q <= big * (p + q + 1real / 2real)
            &&& big * (p + q) - p * q <= big * (p + q + 1real / 2real)
        }),
{
    let big = 9_007_199_254_740_992real;
    algebra::lemma_product_monotone(0real, p, 0real, q);
    algebra::lemma_product_monotone(p, 2000real, q, 2000real);
    algebra::lemma_plus(big, p, big + q);
    algebra::lemma_plus(big, q, big);
    algebra::lemma_plus(big, q, p);
    algebra::lemma_minus(big, p, big - q);
    algebra::lemma_minus(big, q, big);
    algebra::lemma_minus(big, q, p);
}

/// One more rounding.
pub(crate) proof fn lemma_last_rounding(z: real, s: real, y: real, k: real)
    requires
        0real <= k <= 5000real,
        y >= 0real,
        s >= 0real,
        (s - y) * 9_007_199_254_740_992real <= k * y,
        (y - s) * 9_007_199_254_740_992real <= k * y,
        accuracy::within(z, s, 1real, s),
    ensures
        accuracy::within(z, y, k + 3real / 2real, y),
{
    algebra::lemma_plus(k, 3real / 2real, y);
    algebra::lemma_product_monotone(0real, k, 0real, y);
    algebra::lemma_product_monotone(k, 5000real, y, y);
}

/// `10^n`.
pub open spec fn ten_to(n: nat) -> real {
    pow(10, n) as real
}

/// Powers of ten multiply.
proof fn lemma_ten_adds(a: nat, b: nat)
    ensures
        ten_to(a) * ten_to(b) == ten_to(a + b),
        ten_to(a) > 0real,
{
    lemma_pow_adds(10, a, b);
    lemma_pow_positive(10, a);
    lemma_pow_positive(10, b);
    accuracy::lemma_cast_product(pow(10, a), pow(10, b) as nat);
}

/// A power of ten by repeated squaring: `base` is close to `10^m`, `acc` to
/// `10^t`.
proof fn lemma_power(base: Double, m: nat, i: nat, n: nat, acc: Double, t: nat, j: nat)
    requires
        1 <= n,
        1 <= m,
        m * n + t <= 255,
        j + n * (i + 2) <= 510,
        scaling::between(base, 3int * m, 4int * m),
        scaling::between(acc, 3int * t, 4int * t),
        accuracy::within(accuracy::real_of(base), ten_to(m), i as real, ten_to(m)),
        accuracy::within(accuracy::real_of(acc), ten_to(t), j as real, ten_to(t)),
    ensures
        ({
            let e = m * n + t;
            let result = math::squared_power(base, n, acc);
            &&& scaling::between(result, 3int * e, 4int * e)
            &&& accuracy::within(
                accuracy::real_of(result),
                ten_to(e),
                (j + n * (i + 2)) as real,
                ten_to(e),
            )
        }),
    decreases n,
{
    assert(m <= m * n && i + 2 <= n * (i + 2)) by (nonlinear_arith)
        requires
            1 <= n,
    ;
    let odd = n % 2 == 1;
    let next = double::product(acc, base);
    if odd {
        lemma_step(acc, t, j, base, m, i);
    }
    if n < 2 {
        assert(n == 1);
        lemma_mul_basics(m as int);
        lemma_mul_basics((i + 2) as int);
    } else {
        let half = n / 2;
        assert(n == 2 * half + n % 2);
        assert(m * n == (m + m) * half + m * (n % 2)) by (nonlinear_arith)
            requires
                n == 2 * half + n % 2,
        ;
        assert(n * (i + 2) == half * ((i + i + 2) + 2) + (n % 2) * (i + 2)) by (nonlinear_arith)
            requires
                n == 2 * half + n % 2,
        ;
        assert((m + m) <= (m + m) * half && i + i + 4 <= half * (i + i + 4)) by (nonlinear_arith)
            requires
                1 <= half,
        ;
        lemma_mul_basics(m as int);
        lemma_mul_basics((i + 2) as int);
        lemma_step(base, m, i, base, m, i);
        let square = double::product(base, base);
        if odd {
            lemma_power(square, m + m, i + i + 2, half, next, t + m, j + i + 2);
        } else {
            lemma_power(square, m + m, i + i + 2, half, acc, t, j);
        }
    }
}

/// A product of two numbers that are close to powers of ten.
proof fn lemma_step(x: Double, a: nat, i: nat, y: Double, b: nat, j: nat)
    requires
        i <= 510,
        j <= 510,
        a + b <= 255,
        scaling::between(x, 3int * a, 4int * a),
        scaling::between(y, 3int * b, 4int * b),
        accuracy::within(accuracy::real_of(x), ten_to(a), i as real, ten_to(a)),
        accuracy::within(accuracy::real_of(y), ten_to(b), j as real, ten_to(b)),
    ensures
        scaling::between(double::product(x, y), 3int * (a + b), 4int * (a + b)),
        accuracy::within(
            accuracy::real_of(double::product(x, y)),
            ten_to(a + b),
            (i + j + 2) as real,
            ten_to(a + b),
        ),
{
    let z = double::product(x, y);
    scaling::lemma_product_between(x, y, 3int * a, 4int * a, 3int * b, 4int * b);
    fidelity::lemma_between(x, 3int * a, 4int * a);
    fidelity::lemma_between(y, 3int * b, 4int * b);
    fidelity::lemma_between(z, 3int * (a + b), 4int * (a + b));
    accuracy::law_product_is_accurate(x, y);
    lemma_ten_adds(a, b);
    lemma_ten_adds(b, a);
    algebra::lemma_product_positive(accuracy::real_of(x), accuracy::real_of(y));
    lemma_close_product(
        accuracy::real_of(x),
        ten_to(a),
        i,
        accuracy::real_of(y),
        ten_to(b),
        j,
        accuracy::real_of(z),
    );
}

/// A power of ten is off from the exact one by no more than twice its exponent
/// in roundings.
pub proof fn law_power_of_ten_is_accurate(n: nat)
    requires
        n <= 255,
    ensures
        scaling::between(math::power_of_ten(n as int), 3int * n, 4int * n),
        accuracy::within(
            accuracy::real_of(math::power_of_ten(n as int)),
            ten_to(n),
            (2 * n) as real,
            ten_to(n),
        ),
{
    let one = math::number(ONE);
    let ten = math::number(TEN);
    fidelity::lemma_units();
    lemma_ten();
    assert(ten_to(0) == 1real) by {
        lemma_pow0(10);
    }
    assert(ten_to(1) == 10real) by {
        lemma_pow1(10);
    }
    if n == 0 {
        scaling::lemma_power(0);
        assert(math::squared_power(ten, 0, one) == one);
        assert((2 * n) as real == 0real);
    } else {
        lemma_mul_basics(n as int);
        let none: nat = 0;
        assert(none + n * (none + 2) == 2 * n && 1 * n + none == n) by (nonlinear_arith)
            requires
                none == 0,
        ;
        lemma_power(ten, 1, none, n, one, none, none);
    }
}

/// Ten is exact.
proof fn lemma_ten()
    ensures
        accuracy::real_of(math::number(TEN)) == 10real,
        scaling::between(math::number(TEN), 3, 4),
{
    let ten = math::number(TEN);
    scaling::lemma_power(3);
    scaling::lemma_power(4);
    assert(ten.spacing() == 1025);
    assert(ten.significand() == 0x14_0000_0000_0000);
    lemma2_to64();
    lemma2_to64_rest();
    lemma_pow2_adds(49, 1025);
    let d = pow2(1025);
    assert(0x14_0000_0000_0000 * d == 10 * (0x2_0000_0000_0000 * d));
    fidelity::lemma_integer(ten, 10);
}

/// Close numbers have close inverses: `z` is rounded from `1 / x`.
proof fn lemma_close_inverse(x: real, y: real, k: nat, z: real)
    requires
        k <= 2000,
        x > 0real,
        y > 0real,
        accuracy::within(x, y, k as real, y),
        accuracy::within(z, 1real / x, 1real, 1real / x),
    ensures
        accuracy::within(z, 1real / y, (k + 3) as real, 1real / y),
{
    let c = (k + 1) as real;
    let p = k as real;
    assert(c == p + 1real);
    // `k * y <= (k + 1) * x`
    let big = 9_007_199_254_740_992real;
    algebra::lemma_minus(big, p, y);
    algebra::lemma_product_monotone(p, 2000real, y, y);
    algebra::lemma_product_monotone(0real, p, 0real, y);
    algebra::lemma_product_monotone(0real, p, 0real, x);
    algebra::lemma_plus(p, 1real, x);
    // `x >= y / 2` and `p * (y - x) <= x`
    let gap = if y >= x {
        y - x
    } else {
        0real
    };
    algebra::lemma_product_monotone(p, 2000real, gap, gap);
    algebra::lemma_minus(y, x, p);
    assert(p * y <= c * x) by {
        if y >= x {
            assert(p * (y - x) <= 2000real * gap);
        } else {
            algebra::lemma_product_monotone(p, p, y, x);
        }
    }
    fidelity::lemma_inverses(x, y, c);
    fidelity::lemma_inverse(1real, x);
    fidelity::lemma_inverse(1real, y);
    let (i, j) = (1real / x, 1real / y);
    assert((k + 3) as real == c + 2real);
    algebra::lemma_plus(c, 2real, j);
    algebra::lemma_product_monotone(c, 2001real, j, j);
    algebra::lemma_product_monotone(0real, c, 0real, j);
}

/// A number whose quotient by another is one is that other.
proof fn lemma_whole(x: real, t: real)
    requires
        t > 0real,
        x / t == 1real,
    ensures
        x == t,
{
    algebra::lemma_quotient_back(x, t);
    algebra::lemma_multiple(t, x / t, 1real);
}

/// The power of ten between the decimals of the tokens.
proof fn lemma_shift(e: int)
    requires
        -180 <= e <= 180,
    ensures
        ({
            let n: nat = if e < 0 {
                (-e) as nat
            } else {
                e as nat
            };
            let full = if e < 0 {
                1real / ten_to(n)
            } else {
                ten_to(n)
            };
            &&& scaling::between(math::power_of_ten(e), -720, 720)
            &&& full > 0real
            &&& accuracy::within(
                accuracy::real_of(math::power_of_ten(e)),
                full,
                (2 * n + 3) as real,
                full,
            )
        }),
{
    let n: nat = if e < 0 {
        (-e) as nat
    } else {
        e as nat
    };
    let power = math::power_of_ten(n as int);
    law_power_of_ten_is_accurate(n);
    lemma_ten_adds(n, 0);
    fidelity::lemma_between(power, 3int * n, 4int * n);
    fidelity::lemma_widened(power, 3int * n, 4int * n, 0, 720);
    let p = accuracy::real_of(power);
    if e < 0 {
        let one = math::number(ONE);
        let shift = math::power_of_ten(e);
        fidelity::lemma_units();
        fidelity::lemma_between(one, 0, 0);
        scaling::lemma_quotient_between(one, power, 0, 0, 0, 720);
        fidelity::lemma_between(shift, -720, 0);
        fidelity::lemma_widened(shift, -720, 0, -720, 720);
        accuracy::law_quotient_is_accurate(one, power);
        fidelity::lemma_inverse(1real, p);
        fidelity::lemma_inverse(1real, ten_to(n));
        lemma_close_inverse(p, ten_to(n), 2 * n, accuracy::real_of(shift));
    } else {
        fidelity::lemma_widened(power, 0, 720, -720, 720);
        let t = ten_to(n);
        algebra::lemma_plus((2 * n) as real, 3real, t);
        assert((2 * n + 3) as real == (2 * n) as real + 3real);
    }
}

/// The square of the price's root, with the decimals put in.
proof fn lemma_adjusted(x: Double, e: int)
    requires
        scaling::between(x, -32, 224),
        -180 <= e <= 180,
    ensures
        ({
            let root = double::quotient(x, math::number(Q96));
            let adjusted = double::product(double::product(root, root), math::power_of_ten(e));
            let n: nat = if e < 0 {
                (-e) as nat
            } else {
                e as nat
            };
            let r = fidelity::exact_root(x);
            let full = (r * r) * if e < 0 {
                1real / ten_to(n)
            } else {
                ten_to(n)
            };
            &&& scaling::between(adjusted, -976, 976)
            &&& full > 0real
            &&& accuracy::within(
                accuracy::real_of(adjusted),
                full,
                (2 * n + 6) as real,
                full,
            )
        }),
{
    let root = double::quotient(x, math::number(Q96));
    let square = double::product(root, root);
    let shift = math::power_of_ten(e);
    let adjusted = double::product(square, shift);
    let n: nat = if e < 0 {
        (-e) as nat
    } else {
        e as nat
    };
    fidelity::lemma_root(x);
    lemma_shift(e);
    scaling::lemma_product_between(root, root, -128, 128, -128, 128);
    scaling::lemma_product_between(square, shift, -256, 256, -720, 720);
    fidelity::lemma_between(root, -128, 128);
    fidelity::lemma_between(square, -256, 256);
    fidelity::lemma_between(shift, -720, 720);
    fidelity::lemma_between(adjusted, -976, 976);
    accuracy::law_product_is_accurate(root, root);
    accuracy::law_product_is_accurate(square, shift);
    let r = fidelity::exact_root(x);
    let full = if e < 0 {
        1real / ten_to(n)
    } else {
        ten_to(n)
    };
    algebra::lemma_product_positive(r, r);
    algebra::lemma_product_positive(r * r, full);
    algebra::lemma_product_positive(accuracy::real_of(square), accuracy::real_of(shift));
    assert((2 * n + 6) as nat == 1 + (2 * n + 3) + 2);
    lemma_close_product(
        accuracy::real_of(square),
        r * r,
        1,
        accuracy::real_of(shift),
        full,
        2 * n + 3,
        accuracy::real_of(adjusted),
    );
}

/// The price of ETH, times the square of the exact root, is a power of ten:
/// that of the difference of the decimals, where token0 has fewer of them. The
/// price over that power is the square where it has not. Both hold up to a
/// rounding error that grows with the difference.
pub proof fn law_price_is_accurate(x: Double, decimals0: u8, decimals1: u8)
    requires
        scaling::between(x, -32, 224),
        -180 <= decimals0 - decimals1 <= 180,
    ensures
        ({
            let price = math::eth_price(x, decimals0, decimals1);
            let r = fidelity::exact_root(x);
            let p = accuracy::real_of(price);
            &&& price.is_finite()
            &&& p > 0real
            &&& if decimals0 < decimals1 {
                let n = (decimals1 - decimals0) as nat;
                accuracy::within(p * (r * r), ten_to(n), (2 * n + 9) as real, ten_to(n))
            } else {
                let n = (decimals0 - decimals1) as nat;
                accuracy::within(p, (r * r) * ten_to(n), (2 * n + 6) as real, (r * r) * ten_to(n))
            }
        }),
{
    let one = math::number(ONE);
    let root = double::quotient(x, math::number(Q96));
    let e = decimals0 - decimals1;
    let adjusted = double::product(double::product(root, root), math::power_of_ten(e));
    let r = fidelity::exact_root(x);
    lemma_adjusted(x, e);
    fidelity::lemma_root(x);
    fidelity::lemma_between(x, -32, 224);
    fidelity::lemma_between(adjusted, -976, 976);
    algebra::lemma_product_positive(r, r);
    assert(!double::less_or_equal(x, math::number(ZERO)));
    if decimals0 < decimals1 {
        let n = (decimals1 - decimals0) as nat;
        let price = double::quotient(one, adjusted);
        let a = accuracy::real_of(adjusted);
        fidelity::lemma_units();
        fidelity::lemma_between(one, 0, 0);
        scaling::lemma_quotient_between(one, adjusted, 0, 0, -976, 976);
        fidelity::lemma_between(price, -976, 976);
        accuracy::law_quotient_is_accurate(one, adjusted);
        lemma_ten_adds(n, 0);
        let t = ten_to(n);
        fidelity::lemma_inverse(1real, t);
        let full = (r * r) * (1real / t);
        fidelity::lemma_inverse(1real, a);
        fidelity::lemma_inverse(1real, full);
        lemma_close_inverse(a, full, 2 * n + 6, accuracy::real_of(price));
        // `(1 / full) * (r * r) == t`
        let inverse = 1real / full;
        algebra::lemma_associative(inverse, r * r, 1real / t);
        fidelity::lemma_inverse(inverse * (r * r), t);
        lemma_whole(inverse * (r * r), t);
        fidelity::lemma_multiplied(
            accuracy::real_of(price),
            inverse,
            (2 * n + 9) as real,
            inverse,
            r * r,
        );
        assert(math::eth_price(x, decimals0, decimals1) == price);
        assert(inverse * (r * r) == t);
    } else {
        let n = (decimals0 - decimals1) as nat;
        assert(math::eth_price(x, decimals0, decimals1) == adjusted);
        assert(n == e);
    }
}

/// Two close steps in a row.
proof fn lemma_close_chain(x: real, y: real, z: real, k: nat)
    requires
        k <= 2000,
        z >= 0real,
        accuracy::within(x, y, 6real, y),
        accuracy::within(y, z, k as real, z),
    ensures
        accuracy::within(x, z, (k + 8) as real, z),
{
    let p = k as real;
    algebra::lemma_product_monotone(p, 2000real, z, z);
    algebra::lemma_product_monotone(0real, p, 0real, z);
    algebra::lemma_plus(p, 8real, z);
    assert((k + 8) as real == p + 8real);
}

/// A whole number lies between powers of two.
pub(crate) proof fn lemma_whole_between(n: nat, high: nat)
    requires
        1 <= n <= pow2(high),
        high <= 1000,
    ensures
        scaling::between(double::of_nat(n), 0, high as int),
{
    let d = pow2(1074);
    let top = scaling::power(high as int);
    scaling::lemma_power(0);
    scaling::lemma_power(high as int);
    lemma_pow2_pos(1074);
    lemma_pow2_adds(high, 1074);
    lemma_mul_basics(d as int);
    lemma_mul_inequality(1, n as int, d as int);
    lemma_mul_inequality(n as int, pow2(high) as int, d as int);
    fidelity::lemma_rounded_below(d, n * d);
    fidelity::lemma_rounded_below(n * d, top.units());
    order::law_rounding_is_exact(top);
    order::law_rounding_is_exact(scaling::power(0));
}

/// The rounded root against the exact one: both squared.
proof fn lemma_squares_close(r: real, s: real)
    requires
        r > 0real,
        s > 0real,
        accuracy::within(r, s, 1real, s),
    ensures
        accuracy::within(s * s, r * r, 6real, r * r),
        accuracy::within(r * r, s * s, 6real, s * s),
{
    let two: nat = 2;
    algebra::lemma_product_positive(r, r);
    algebra::lemma_product_positive(s, s);
    assert(two as real == 2real);
    assert(accuracy::within(s, r, 2real, r));
    assert(accuracy::within(r, s, 2real, s));
    lemma_close_product(s, r, two, s, r, two, s * s);
    lemma_close_product(r, s, two, r, s, two, r * r);
    assert((two + two + 2) as real == 6real);
}

/// The price of a pool that was read is that of the square-root price which it
/// reported, whatever it was before: with `s` for that number over 2^96, the
/// price times `s * s` is ten to the power by which token1 has more decimals,
/// up to rounding; or the price is `s * s` times ten to the power by which
/// token0 has more.
pub proof fn law_read_price_is_the_reported_one(
    config: PoolConfig,
    before: PoolState,
    reading: PoolReading,
    block_number: u64,
)
    requires
        reading.slot0 is Ok,
        reading.liquidity is Ok,
        1 <= reading.slot0->Ok_0.sqrt_price_x96@ <= pow2(224),
        -180 <= config.token0_decimals - config.token1_decimals <= 180,
    ensures
        ({
            let after = state_sync::after_reading(config, before, reading, block_number);
            let s = reading.slot0->Ok_0.sqrt_price_x96@ as real
                / 79_228_162_514_264_337_593_543_950_336real;
            let p = accuracy::real_of(after.eth_price_usd);
            &&& after.eth_price_usd.is_finite()
            &&& p > 0real
            &&& if config.token0_decimals < config.token1_decimals {
                let n = (config.token1_decimals - config.token0_decimals) as nat;
                accuracy::within(p * (s * s), ten_to(n), (2 * n + 17) as real, ten_to(n))
            } else {
                let n = (config.token0_decimals - config.token1_decimals) as nat;
                accuracy::within(
                    p,
                    (s * s) * ten_to(n),
                    (2 * n + 17) as real,
                    (s * s) * ten_to(n),
                )
            }
        }),
{
    let whole = reading.slot0->Ok_0.sqrt_price_x96@;
    let x = double::of_nat(whole);
    let unit = 79_228_162_514_264_337_593_543_950_336real;
    let s = whole as real / unit;
    lemma_whole_between(whole, 224);
    fidelity::lemma_widened(x, 0, 224, -32, 224);
    fidelity::lemma_between(x, 0, 224);
    accuracy::law_integers_are_accurate(whole);
    law_price_is_accurate(x, config.token0_decimals, config.token1_decimals);
    let r = fidelity::exact_root(x);
    fidelity::lemma_root(x);
    assert(accuracy::within(r, s, 1real, s));
    lemma_squares_close(r, s);
    let after = state_sync::after_reading(config, before, reading, block_number);
    let p = accuracy::real_of(after.eth_price_usd);
    assert(after.eth_price_usd == math::eth_price(
        x,
        config.token0_decimals,
        config.token1_decimals,
    ));
    if config.token0_decimals < config.token1_decimals {
        let n = (config.token1_decimals - config.token0_decimals) as nat;
        lemma_ten_adds(n, 0);
        fidelity::lemma_multiplied(s * s, r * r, 6real, r * r, p);
        algebra::identity_exchange(s * s, p);
        algebra::identity_exchange(r * r, p);
        lemma_close_chain(p * (s * s), p * (r * r), ten_to(n), 2 * n + 9);
    } else {
        let n = (config.token0_decimals - config.token1_decimals) as nat;
        let t = ten_to(n);
        lemma_ten_adds(n, 0);
        fidelity::lemma_multiplied(r * r, s * s, 6real, s * s, t);
        algebra::lemma_product_positive(s, s);
        algebra::lemma_product_positive(s * s, t);
        lemma_price_chain(p, (r * r) * t, (s * s) * t, 2 * n + 6);
    }
}

/// A whole number of up to 256 bits, rounded.
proof fn lemma_rounded_whole(n: nat)
    requires
        n <= pow2(256),
    ensures
        double::of_nat(n).is_finite(),
        accuracy::within(accuracy::real_of(double::of_nat(n)), n as real, 1real, n as real),
{
    if n == 0 {
        accuracy::law_small_integers_are_exact(0);
    } else {
        lemma_whole_between(n, 256);
        fidelity::lemma_between(double::of_nat(n), 0, 256);
        accuracy::law_integers_are_accurate(n);
    }
}

/// The numbers by which a pool that was read is priced are those that it
/// reported, up to one rounding.
pub proof fn law_read_numbers_are_the_reported_ones(
    config: PoolConfig,
    before: PoolState,
    reading: PoolReading,
    block_number: u64,
)
    requires
        reading.slot0 is Ok,
        reading.liquidity is Ok,
    ensures
        ({
            let after = state_sync::after_reading(config, before, reading, block_number);
            let root = reading.slot0->Ok_0.sqrt_price_x96@ as real;
            let depth = reading.liquidity->Ok_0 as real;
            &&& after.sqrt_price_f64.is_finite()
            &&& after.liquidity_f64.is_finite()
            &&& accuracy::within(accuracy::real_of(after.sqrt_price_f64), root, 1real, root)
            &&& accuracy::within(accuracy::real_of(after.liquidity_f64), depth, 1real, depth)
        }),
{
    let number = reading.slot0->Ok_0.sqrt_price_x96;
    let n = number@;
    let m = reading.liquidity->Ok_0 as nat;
    lemma2_to64();
    lemma_pow2_adds(64, 64);
    lemma_pow2_adds(128, 128);
    let p = pow2(128);
    assert(number.high * p + number.low <= p * p) by (nonlinear_arith)
        requires
            number.high + 1 <= p,
            number.low < p,
    ;
    assert(p <= p * p) by (nonlinear_arith)
        requires
            p >= 1,
    ;
    lemma_rounded_whole(n);
    lemma_rounded_whole(m);
}

/// Two close steps in a row, the longer one first.
proof fn lemma_price_chain(x: real, y: real, z: real, k: nat)
    requires
        k <= 2000,
        z >= 0real,
        accuracy::within(x, y, k as real, y),
        accuracy::within(y, z, 6real, z),
    ensures
        accuracy::within(x, z, (k + 11) as real, z),
{
    let p = k as real;
    // `y <= 2 * z`, and `p * y <= p * z + z`.
    let big = 9_007_199_254_740_992real;
    algebra::lemma_product_monotone(0real, p, 0real, z);
    algebra::lemma_minus(y, z, p);
    let gap = if y >= z {
        y - z
    } else {
        0real
    };
    algebra::lemma_product_monotone(p, 2000real, gap, gap);
    algebra::lemma_product_monotone(0real, p, 0real, z - y + gap);
    algebra::lemma_minus(z + gap, y, p);
    algebra::lemma_plus(z, gap, p);
    algebra::lemma_plus(p, 11real, z);
    assert((k + 11) as real == p + 11real);
}

} // verus!
