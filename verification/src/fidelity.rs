//! How close the rounded swaps and profits are to the exact ones.
use crate::accuracy;
use crate::algebra;
use crate::double;
use crate::double::Double;
use crate::exact;
use crate::math;
use crate::math::{Market, BASIS_POINTS, ONE, Q96, USDC_UNIT, WETH_UNIT, ZERO};
use crate::order;
use crate::pricing;
use crate::rounding;
use crate::rounding::{EXPONENT_STEP, INFINITY_BITS};
use crate::scaling;
use vstd::arithmetic::mul::*;
use vstd::arithmetic::power2::*;
use vstd::prelude::*;

verus! {

/// The exact square root of a price that is given as a multiple of 2^-96.
pub open spec fn exact_root(sqrt_price: Double) -> real {
    accuracy::real_of(sqrt_price) / 79_228_162_514_264_337_593_543_950_336real
}

/// Whether the numbers of a pool are far from the limits of their format: a
/// square-root price from 2^-32 to 2^224, a liquidity from 2^-64 to 2^192, a fee
/// below everything. The whole numbers of 160 and 128 bits that a pool reports
/// are such, but for 0.
pub open spec fn is_regular_pool(sqrt_price: Double, liquidity: Double, fee: Double) -> bool {
    &&& scaling::between(sqrt_price, -32, 224)
    &&& scaling::between(liquidity, -64, 192)
    &&& order::unsigned(fee)
    &&& double::less(fee, math::number(ONE))
}

/// The USDC that a pool holds.
pub open spec fn exact_usdc_reserve(root: real, liquidity: real) -> real {
    liquidity * (1real / root) / 1_000_000real
}

/// The WETH that a pool holds.
pub open spec fn exact_weth_reserve(root: real, liquidity: real) -> real {
    liquidity * root / 1_000_000_000_000_000_000real
}

/// A number between powers of two is positive and finite.
pub(crate) proof fn lemma_between(x: Double, low: int, high: int)
    requires
        -1022 <= low <= high <= 1023,
        scaling::between(x, low, high),
    ensures
        x.is_finite(),
        !x.is_zero(),
        order::unsigned(x),
        EXPONENT_STEP <= x.bits < INFINITY_BITS,
        -1022 < low ==> EXPONENT_STEP < x.magnitude(),
        accuracy::real_of(x) > 0real,
{
    scaling::lemma_power(low);
    scaling::lemma_power(high);
    double::lemma_parts(x);
    accuracy::lemma_scale();
    accuracy::lemma_real_units(x);
    algebra::lemma_positive_factor(accuracy::real_of(x), pow2(1074) as real);
}

/// A number of 2^1074 times `n` units is `n`.
pub(crate) proof fn lemma_integer(x: Double, n: nat)
    requires
        !x.negative(),
        x.units() == n * pow2(1074),
    ensures
        accuracy::real_of(x) == n as real,
{
    let t = pow2(1074) as real;
    accuracy::lemma_scale();
    accuracy::lemma_real_units(x);
    accuracy::lemma_cast_product(n as int, pow2(1074));
    algebra::lemma_cancel(accuracy::real_of(x), n as real, t);
    algebra::lemma_cancel(n as real, accuracy::real_of(x), t);
}

/// The base units of one WETH.
pub(crate) proof fn lemma_weth_unit()
    ensures
        math::number(WETH_UNIT).units() == 1_000_000_000_000_000_000 * pow2(1074),
        math::number(WETH_UNIT).is_finite(),
        !math::number(WETH_UNIT).negative(),
{
    let d = pow2(1074);
    let weth = math::number(WETH_UNIT);
    lemma2_to64();
    assert(weth.spacing() == 1081);
    assert(weth.significand() == 7_812_500_000_000_000);
    lemma_pow2_adds(7, 1074);
    assert(7_812_500_000_000_000 * (128 * d) == 1_000_000_000_000_000_000 * d);
}

/// The units of the tokens, one and the basis points are exact.
pub(crate) proof fn lemma_units()
    ensures
        accuracy::real_of(math::number(ONE)) == 1real,
        accuracy::real_of(math::number(WETH_UNIT)) == 1_000_000_000_000_000_000real,
        accuracy::real_of(math::number(USDC_UNIT)) == 1_000_000real,
        accuracy::real_of(math::number(BASIS_POINTS)) == 10_000real,
        scaling::between(math::number(ONE), 0, 0),
        scaling::between(math::number(WETH_UNIT), 59, 60),
        scaling::between(math::number(USDC_UNIT), 19, 20),
        scaling::between(math::number(BASIS_POINTS), 13, 14),
{
    let d = pow2(1074);
    lemma2_to64();
    lemma2_to64_rest();
    let one = math::number(ONE);
    scaling::lemma_power(0);
    assert(one == scaling::power(0));
    lemma_mul_basics(d as int);
    lemma_integer(one, 1);
    let weth = math::number(WETH_UNIT);
    lemma_weth_unit();
    lemma_integer(weth, 1_000_000_000_000_000_000);
    let usdc = math::number(USDC_UNIT);
    assert(usdc.spacing() == 1041);
    assert(usdc.significand() == 8_589_934_592_000_000);
    lemma_pow2_adds(33, 1041);
    assert(8_589_934_592_000_000 * pow2(1041) == 1_000_000 * (8_589_934_592 * pow2(1041)));
    lemma_integer(usdc, 1_000_000);
    let points = math::number(BASIS_POINTS);
    assert(points.spacing() == 1035);
    assert(points.significand() == 5_497_558_138_880_000);
    lemma_pow2_adds(39, 1035);
    assert(5_497_558_138_880_000 * pow2(1035) == 10_000 * (549_755_813_888 * pow2(1035)));
    lemma_integer(points, 10_000);
}

/// Dividing by 2^96 is exact.
pub(crate) proof fn lemma_root(x: Double)
    requires
        scaling::between(x, -32, 224),
    ensures
        ({
            let root = double::quotient(x, math::number(Q96));
            &&& scaling::between(root, -128, 128)
            &&& accuracy::real_of(root) == exact_root(x)
            &&& exact_root(x) > 0real
        }),
{
    let q = math::number(Q96);
    let one = math::number(ONE);
    let root = double::quotient(x, q);
    scaling::lemma_power(0);
    scaling::lemma_power(96);
    scaling::lemma_power(-32);
    scaling::lemma_power(224);
    scaling::lemma_power(-128);
    scaling::lemma_power(128);
    assert(q == scaling::power(96));
    assert(q == scaling::shifted(one, 96));
    scaling::lemma_by_one(x);
    scaling::lemma_divisor_shifted(x, one, 96);
    assert(root == scaling::shifted(x, -96));
    scaling::lemma_shifted(root, 96);
    assert(scaling::shifted(root, 96) == x);
    let n = 79_228_162_514_264_337_593_543_950_336nat;
    assert(pow2(96) == n) by {
        lemma2_to64();
        lemma2_to64_rest();
        lemma_pow2_adds(48, 48);
    }
    lemma_between(x, -32, 224);
    lemma_between(root, -128, 128);
    accuracy::lemma_real_units(x);
    accuracy::lemma_real_units(root);
    accuracy::lemma_scale();
    let t = pow2(1074) as real;
    let r = accuracy::real_of(root);
    accuracy::lemma_cast_product(root.units() as int, n);
    // `(r * n) * t == x * t`
    let big = 79_228_162_514_264_337_593_543_950_336real;
    assert((r * big) * t == (r * t) * big) by (nonlinear_arith);
    algebra::lemma_cancel(r * big, accuracy::real_of(x), t);
    algebra::lemma_cancel(accuracy::real_of(x), r * big, t);
    algebra::lemma_quotient(accuracy::real_of(x), big, r);
}

/// A bound on a distance holds of its multiple.
pub(crate) proof fn lemma_multiplied(x: real, y: real, k: real, scale: real, w: real)
    requires
        accuracy::within(x, y, k, scale),
        w >= 0real,
    ensures
        accuracy::within(x * w, y * w, k, scale * w),
{
    let big = 9_007_199_254_740_992real;
    let (up, down) = (k * scale - (x - y) * big, k * scale - (y - x) * big);
    algebra::lemma_product_monotone(0real, up, 0real, w);
    algebra::lemma_product_monotone(0real, down, 0real, w);
    algebra::lemma_minus(k * scale, (x - y) * big, w);
    algebra::lemma_minus(k * scale, (y - x) * big, w);
    algebra::lemma_associative(k, scale, w);
    algebra::lemma_minus(x, y, w);
    algebra::lemma_minus(y, x, w);
    assert(((x - y) * big) * w == ((x - y) * w) * big) by (nonlinear_arith);
    assert(((y - x) * big) * w == ((y - x) * w) * big) by (nonlinear_arith);
}

/// A quotient is a product with the inverse.
pub(crate) proof fn lemma_inverse(x: real, w: real)
    requires
        w > 0real,
    ensures
        x / w == x * (1real / w),
        1real / w > 0real,
        (1real / w) * w == 1real,
{
    let i = 1real / w;
    algebra::lemma_quotient_back(1real, w);
    algebra::lemma_associative(x, i, w);
    algebra::lemma_multiple(x, i * w, 1real);
    algebra::lemma_quotient(x, w, x * i);
    algebra::lemma_positive_factor(i, w);
}

/// Close numbers have close inverses.
pub(crate) proof fn lemma_inverses(x: real, y: real, c: real)
    requires
        x > 0real,
        y > 0real,
        (y - x) * 9_007_199_254_740_992real <= c * x,
        (x - y) * 9_007_199_254_740_992real <= c * x,
    ensures
        accuracy::within(1real / x, 1real / y, c, 1real / y),
{
    let big = 9_007_199_254_740_992real;
    let (p, q) = (1real / x, 1real / y);
    lemma_inverse(1real, x);
    lemma_inverse(1real, y);
    algebra::lemma_product_positive(x, y);
    // `(p - q) * (x * y) == y - x`
    algebra::lemma_associative(p, x, y);
    algebra::lemma_multiple(y, p * x, 1real);
    algebra::identity_middle(q, x, y);
    algebra::lemma_multiple(x, q * y, 1real);
    assert(p * (x * y) == y && q * (x * y) == x);
    algebra::lemma_minus(p, q, x * y);
    algebra::lemma_minus(q, p, x * y);
    assert(((p - q) * big) * (x * y) == ((p - q) * (x * y)) * big) by (nonlinear_arith);
    assert(((q - p) * big) * (x * y) == ((q - p) * (x * y)) * big) by (nonlinear_arith);
    algebra::lemma_associative(c, q, x * y);
    algebra::lemma_multiple(c, q * (x * y), x);
    algebra::lemma_cancel((p - q) * big, c * q, x * y);
    algebra::lemma_cancel((q - p) * big, c * q, x * y);
}

/// What a fee leaves of one.
#[verifier::rlimit(60)]
pub(crate) proof fn lemma_part(fee: Double)
    requires
        order::unsigned(fee),
        double::less(fee, math::number(ONE)),
    ensures
        ({
            let part = double::difference(math::number(ONE), fee);
            let left = 1real - accuracy::real_of(fee);
            &&& scaling::between(part, -53, 0)
            &&& 0real < left <= 1real
            &&& accuracy::within(accuracy::real_of(part), left, 1real, left)
        }),
{
    let one = math::number(ONE);
    let part = double::difference(one, fee);
    let near = Double { bits: 0x3fef_ffff_ffff_ffff };
    let least = double::difference(one, near);
    scaling::lemma_power(0);
    scaling::lemma_power(-53);
    assert(one == scaling::power(0));
    pricing::lemma_part(fee);
    assert(least == scaling::power(-53)) by {
        reveal(double::sum);
        let minus = double::negation(near);
        assert(minus.magnitude() == near.magnitude());
        assert(near.spacing() == 1021);
        assert(near.significand() == 0x1f_ffff_ffff_ffff);
        lemma2_to64();
        lemma2_to64_rest();
        lemma_pow2_adds(53, 1021);
        lemma_pow2_pos(1021);
        let p = pow2(1021);
        assert(minus.units() == near.units());
        assert(near.units() == 0x1f_ffff_ffff_ffff * p);
        assert(one.units() == 0x20_0000_0000_0000 * p);
        assert(minus.negative() && !one.negative());
        assert(one.value() == 0x20_0000_0000_0000 * p);
        assert(minus.value() == -(0x1f_ffff_ffff_ffff * p));
        assert(0x20_0000_0000_0000 * p - 0x1f_ffff_ffff_ffff * p == p) by (nonlinear_arith);
        assert(one.value() + minus.value() == p);
        order::law_rounding_is_exact(scaling::power(-53));
    }
    order::law_difference_is_antitone(fee, near, one);
    assert(scaling::between(part, -53, 0));
    // The exact part.
    lemma_units();
    lemma_between(part, -53, 0);
    accuracy::lemma_real_units(fee);
    let minus = double::negation(fee);
    assert(minus.magnitude() == fee.magnitude());
    accuracy::law_sum_is_accurate(one, minus);
    order::law_order_follows_values(fee, one);
    accuracy::lemma_real_units(one);
    accuracy::lemma_scale();
    let t = pow2(1074) as real;
    let left = 1real - accuracy::real_of(fee);
    algebra::lemma_minus(1real, accuracy::real_of(fee), t);
    assert(left * t > 0real);
    algebra::lemma_positive_factor(left, t);
}

/// An amount that goes in, after the fee and in base units.
#[verifier::rlimit(60)]
proof fn lemma_input(amount: Double, fee: Double, unit: Double, low: int, high: int)
    requires
        -800 <= low <= high <= 800,
        scaling::between(amount, low, high),
        order::unsigned(fee),
        double::less(fee, math::number(ONE)),
        scaling::between(unit, 19, 60),
    ensures
        ({
            let raw = double::product(math::after_fee(amount, fee), unit);
            let full = accuracy::real_of(amount) * (1real - accuracy::real_of(fee))
                * accuracy::real_of(unit);
            &&& scaling::between(raw, low - 34, high + 60)
            &&& full > 0real
            &&& accuracy::within(accuracy::real_of(raw), full, 5real, full)
        }),
{
    let part = double::difference(math::number(ONE), fee);
    let rest = math::after_fee(amount, fee);
    let raw = double::product(rest, unit);
    let (a, p, u) = (
        accuracy::real_of(amount),
        accuracy::real_of(part),
        accuracy::real_of(unit),
    );
    let left = 1real - accuracy::real_of(fee);
    lemma_part(fee);
    scaling::lemma_product_between(amount, part, low, high, -53, 0);
    scaling::lemma_product_between(rest, unit, low - 53, high, 19, 60);
    lemma_between(amount, low, high);
    lemma_between(part, -53, 0);
    lemma_between(rest, low - 53, high);
    lemma_between(unit, 19, 60);
    lemma_between(raw, low - 34, high + 60);
    accuracy::law_product_is_accurate(amount, part);
    accuracy::law_product_is_accurate(rest, unit);
    algebra::lemma_product_positive(a, p);
    algebra::lemma_product_positive(a, left);
    lemma_multiplied(p, left, 1real, left, a);
    algebra::identity_exchange(p, a);
    algebra::identity_exchange(left, a);
    let r = accuracy::real_of(rest);
    assert(accuracy::within(r, a * left, 3real, a * left));
    algebra::lemma_product_positive(r, u);
    algebra::lemma_product_positive(a * left, u);
    lemma_multiplied(r, a * left, 3real, a * left, u);
}

/// A power of two and itself.
pub(crate) proof fn lemma_power_doubled(b: int)
    requires
        -1022 <= b < 1023,
    ensures
        double::sum(scaling::power(b), scaling::power(b)) == scaling::power(b + 1),
{
    reveal(double::sum);
    let top = scaling::power(b);
    let most = scaling::power(b + 1);
    scaling::lemma_power(b);
    scaling::lemma_power(b + 1);
    lemma_pow2_unfold((b + 1 + 1074) as nat);
    assert(((b + 1 + 1074) as nat - 1) as nat == (b + 1074) as nat);
    lemma_pow2_pos((b + 1074) as nat);
    assert(top.value() + top.value() == most.units());
    order::law_rounding_is_exact(most);
}

/// Sums of numbers between powers of two.
pub(crate) proof fn lemma_sum_between(x: Double, y: Double, a: int, b: int, c: int)
    requires
        -1022 <= a <= b < 1023,
        -1022 <= c <= b,
        scaling::between(x, a, b),
        scaling::between(y, c, b),
    ensures
        scaling::between(double::sum(x, y), a, b + 1),
{
    let top = scaling::power(b);
    let most = scaling::power(b + 1);
    scaling::lemma_power(a);
    scaling::lemma_power(b);
    scaling::lemma_power(b + 1);
    lemma_between(x, a, b);
    lemma_between(y, c, b);
    lemma_power_doubled(b);
    lemma_sum_ordered(x, top, y, top);
}

/// Sums of larger numbers are no smaller, and no smaller than their parts.
pub(crate) proof fn lemma_sum_ordered(v: Double, w: Double, x: Double, y: Double)
    requires
        v.bits <= w.bits < INFINITY_BITS,
        x.bits <= y.bits < INFINITY_BITS,
    ensures
        v.bits <= double::sum(v, x).bits <= double::sum(w, y).bits,
{
    assert(!double::sum(v, x).is_nan() && !double::sum(w, x).is_nan() && !double::sum(
        w,
        y,
    ).is_nan()) by {
        reveal(double::sum);
    }
    order::law_sum_grows(v, x);
    order::law_sum_grows(w, x);
    order::law_sum_grows(w, y);
    order::law_sum_is_monotone(v, w, x);
    order::law_sum_commutes(w, x);
    order::law_sum_commutes(w, y);
    order::law_sum_is_monotone(x, y, w);
}

/// Whether a number is 0, or lies between two powers of two but for its sign.
pub open spec fn is_sized(x: Double, low: int, high: int) -> bool {
    x.is_zero() || scaling::between(double::absolute(x), low, high)
}

/// A number of at least a power of two is a multiple of a smaller one.
proof fn lemma_multiple_units(x: Double, low: int, high: int)
    requires
        -1022 <= low <= high <= 1023,
        scaling::between(x, low, high),
    ensures
        exists|c: nat| x.units() == #[trigger] (c * pow2((low + 1022) as nat)),
{
    scaling::lemma_power(low);
    lemma_between(x, low, high);
    let g = (low + 1022) as nat;
    double::lemma_parts(x);
    assert(x.spacing() >= g);
    let rest = (x.spacing() - g) as nat;
    lemma_pow2_adds(rest, g);
    lemma_mul_is_associative(x.significand() as int, pow2(rest) as int, pow2(g) as int);
    assert(x.units() == (x.significand() * pow2(rest)) * pow2(g));
}

/// The distance of two whole numbers.
spec fn apart(a: nat, b: nat) -> nat {
    if a >= b {
        (a - b) as nat
    } else {
        (b - a) as nat
    }
}

/// A difference in units.
proof fn lemma_difference_units(x: Double, y: Double)
    requires
        x.is_finite(),
        y.is_finite(),
        order::unsigned(x),
        order::unsigned(y),
    ensures
        double::difference(x, y).magnitude() == rounding::round(apart(x.units(), y.units()), 1),
{
    reveal(double::sum);
    let minus = double::negation(y);
    assert(minus.magnitude() == y.magnitude());
    assert(minus.units() == y.units());
    assert(minus.value() == -y.value());
    rounding::lemma_round_zero(1);
}

/// Different multiples are apart by no less than what they are multiples of.
proof fn lemma_apart(i: nat, j: nat, g: nat)
    requires
        g > 0,
        i != j,
    ensures
        apart(i * g, j * g) >= g,
{
    if i > j {
        assert(i * g - j * g >= g) by (nonlinear_arith)
            requires
                i >= j + 1,
                g > 0,
        ;
    } else {
        assert(j * g - i * g >= g) by (nonlinear_arith)
            requires
                j >= i + 1,
                g > 0,
        ;
    }
}

/// The difference of numbers between powers of two.
pub(crate) proof fn lemma_difference_sized(x: Double, y: Double, low: int, high: int)
    requires
        -970 <= low <= high <= 1023,
        scaling::between(x, low, high),
        scaling::between(y, low, high),
    ensures
        is_sized(double::difference(x, y), low - 52, high),
        double::difference(x, y).is_finite(),
{
    let d = double::difference(x, y);
    let n = apart(x.units(), y.units());
    lemma_apart_between(x, y, low, high);
    lemma_between(x, low, high);
    lemma_between(y, low, high);
    lemma_difference_units(x, y);
    lemma_sized(d, n, low - 52, high);
}

/// The distance of numbers between powers of two, in units.
proof fn lemma_apart_between(x: Double, y: Double, low: int, high: int)
    requires
        -970 <= low <= high <= 1023,
        scaling::between(x, low, high),
        scaling::between(y, low, high),
    ensures
        ({
            let n = apart(x.units(), y.units());
            &&& n == 0 || n >= scaling::power(low - 52).units()
            &&& n <= scaling::power(high).units()
        }),
{
    let most = scaling::power(high);
    scaling::lemma_power(low - 52);
    scaling::lemma_power(high);
    lemma_between(x, low, high);
    lemma_between(y, low, high);
    lemma_multiple_units(x, low, high);
    lemma_multiple_units(y, low, high);
    let g = pow2((low + 1022) as nat);
    lemma_pow2_pos((low + 1022) as nat);
    let i = choose|c: nat| x.units() == #[trigger] (c * g);
    let j = choose|c: nat| y.units() == #[trigger] (c * g);
    order::law_magnitudes_follow_values(x, most);
    order::law_magnitudes_follow_values(y, most);
    if i != j {
        lemma_apart(i, j, g);
    }
}

/// A number that is nearest to a whole number of units.
proof fn lemma_sized(d: Double, n: nat, low: int, high: int)
    requires
        -1022 <= low <= high <= 1023,
        d.magnitude() == rounding::round(n, 1),
        n == 0 || n >= scaling::power(low).units(),
        n <= scaling::power(high).units(),
    ensures
        is_sized(d, low, high),
        d.is_finite(),
{
    let least = scaling::power(low);
    let most = scaling::power(high);
    scaling::lemma_power(low);
    scaling::lemma_power(high);
    order::law_rounding_is_exact(least);
    order::law_rounding_is_exact(most);
    lemma_rounded_below(n, most.units());
    if n == 0 {
        rounding::lemma_round_zero(1);
    } else {
        lemma_rounded_below(least.units(), n);
    }
}

/// Whole numbers of units round in their order.
pub(crate) proof fn lemma_rounded_below(a: nat, b: nat)
    requires
        a <= b,
    ensures
        rounding::round(a, 1) <= rounding::round(b, 1),
{
    lemma_mul_basics(a as int);
    lemma_mul_basics(b as int);
    order::law_rounding_is_monotone(a, 1, b, 1);
}

/// A product of a positive number and any other.
pub(crate) proof fn lemma_product_sized(x: Double, y: Double, a: int, b: int, c: int, d: int)
    requires
        -1021 <= a <= b <= 1023,
        -1021 <= c <= d <= 1023,
        -1021 <= a + c,
        b + d <= 1023,
        scaling::between(x, a, b),
        is_sized(y, c, d),
    ensures
        is_sized(double::product(x, y), a + c, b + d),
        double::product(x, y).is_finite(),
        y.is_zero() ==> double::product(x, y).is_zero(),
        accuracy::within(
            accuracy::real_of(double::product(x, y)),
            accuracy::real_of(x) * accuracy::real_of(y),
            1real,
            accuracy::size(accuracy::real_of(x) * accuracy::real_of(y)),
        ),
{
    let z = double::product(x, y);
    let size = double::absolute(y);
    lemma_between(x, a, b);
    assert(size.magnitude() == y.magnitude());
    assert(size.units() == y.units());
    if y.is_zero() {
        reveal(double::product);
        double::lemma_parts(y);
        lemma_mul_basics(x.units() as int);
        lemma_pow2_pos(1074);
        rounding::lemma_round_zero(pow2(1074));
    } else {
        lemma_between(size, c, d);
        scaling::lemma_product_between(x, size, a, b, c, d);
        lemma_between(double::product(x, size), a + c, b + d);
        assert(z.magnitude() == double::product(x, size).magnitude()) by {
            reveal(double::product);
        }
    }
    accuracy::law_product_is_accurate(x, y);
}

/// A quotient of any number by a positive one.
pub(crate) proof fn lemma_quotient_sized(x: Double, y: Double, a: int, b: int, c: int, d: int)
    requires
        -1021 <= a <= b <= 1023,
        -1021 <= c <= d <= 1023,
        -1021 <= a - d,
        b - c <= 1023,
        is_sized(x, a, b),
        scaling::between(y, c, d),
    ensures
        is_sized(double::quotient(x, y), a - d, b - c),
        double::quotient(x, y).is_finite(),
        accuracy::within(
            accuracy::real_of(double::quotient(x, y)),
            accuracy::real_of(x) / accuracy::real_of(y),
            1real,
            accuracy::size(accuracy::real_of(x) / accuracy::real_of(y)),
        ),
{
    let z = double::quotient(x, y);
    let size = double::absolute(x);
    lemma_between(y, c, d);
    double::lemma_parts(y);
    assert(size.magnitude() == x.magnitude());
    assert(size.units() == x.units());
    if x.is_zero() {
        reveal(double::quotient);
        double::lemma_parts(x);
        lemma_mul_basics(pow2(1074) as int);
        rounding::lemma_round_zero(y.units());
    } else {
        lemma_between(size, a, b);
        scaling::lemma_quotient_between(size, y, a, b, c, d);
        lemma_between(double::quotient(size, y), a - d, b - c);
        assert(z.magnitude() == double::quotient(size, y).magnitude()) by {
            reveal(double::quotient);
        }
    }
    accuracy::law_quotient_is_accurate(x, y);
}

/// The root after WETH went in.
#[verifier::rlimit(60)]
proof fn lemma_raised(root: Double, liquidity: Double, amount: Double, fee: Double)
    requires
        scaling::between(root, -128, 128),
        scaling::between(liquidity, -64, 192),
        scaling::between(amount, -128, 128),
        order::unsigned(fee),
        double::less(fee, math::number(ONE)),
    ensures
        ({
            let up = math::raised_root(root, liquidity, amount, fee);
            let full = exact::exact_raised_root(
                accuracy::real_of(root),
                accuracy::real_of(liquidity),
                accuracy::real_of(fee),
                accuracy::real_of(amount),
            );
            &&& scaling::between(up, -128, 253)
            &&& 0real < accuracy::real_of(root) <= full
            &&& accuracy::within(accuracy::real_of(up), full, 9real, full)
        }),
{
    let unit = math::number(WETH_UNIT);
    let raw = double::product(math::after_fee(amount, fee), unit);
    let moved = double::quotient(raw, liquidity);
    let up = double::sum(root, moved);
    lemma_units();
    lemma_input(amount, fee, unit, -128, 128);
    scaling::lemma_quotient_between(raw, liquidity, -162, 188, -64, 192);
    lemma_between(raw, -162, 188);
    lemma_between(liquidity, -64, 192);
    lemma_between(moved, -354, 252);
    lemma_between(root, -128, 128);
    accuracy::law_quotient_is_accurate(raw, liquidity);
    scaling::lemma_power(128);
    scaling::lemma_power(252);
    lemma_sum_between(root, moved, -128, 252, -354);
    lemma_between(up, -128, 253);
    accuracy::law_sum_is_accurate(root, moved);
    let l = accuracy::real_of(liquidity);
    let full = accuracy::real_of(amount) * (1real - accuracy::real_of(fee))
        * 1_000_000_000_000_000_000real;
    let exact_move = full / l;
    lemma_inverse(full, l);
    lemma_inverse(accuracy::real_of(raw), l);
    lemma_multiplied(accuracy::real_of(raw), full, 5real, full, 1real / l);
    algebra::lemma_product_positive(full, 1real / l);
    algebra::lemma_product_positive(accuracy::real_of(raw), 1real / l);
    assert(accuracy::within(accuracy::real_of(moved), exact_move, 7real, exact_move));
}

/// How far the inverse of the root falls.
#[verifier::rlimit(60)]
proof fn lemma_fall(root: Double, up: Double, full: real)
    requires
        scaling::between(root, -128, 128),
        scaling::between(up, -128, 253),
        double::less_or_equal(root, up),
        0real < accuracy::real_of(root) <= full,
        accuracy::within(accuracy::real_of(up), full, 9real, full),
    ensures
        ({
            let one = math::number(ONE);
            let fall = double::difference(
                double::quotient(one, root),
                double::quotient(one, up),
            );
            let r = accuracy::real_of(root);
            &&& is_sized(fall, -305, 128)
            &&& order::unsigned(fall)
            &&& 0real <= 1real / r - 1real / full <= 1real / r
            &&& 1real / r > 0real
            &&& accuracy::within(
                accuracy::real_of(fall),
                1real / r - 1real / full,
                15real,
                1real / r,
            )
        }),
{
    let one = math::number(ONE);
    let before = double::quotient(one, root);
    let after = double::quotient(one, up);
    let fall = double::difference(before, after);
    lemma_units();
    scaling::lemma_quotient_between(one, root, 0, 0, -128, 128);
    scaling::lemma_quotient_between(one, up, 0, 0, -128, 253);
    lemma_between(one, 0, 0);
    lemma_between(root, -128, 128);
    lemma_between(up, -128, 253);
    lemma_between(before, -128, 128);
    lemma_between(after, -253, 128);
    scaling::lemma_power(-128);
    scaling::lemma_power(-253);
    accuracy::law_quotient_is_accurate(one, root);
    accuracy::law_quotient_is_accurate(one, up);
    lemma_difference_sized(before, after, -253, 128);
    order::law_quotient_is_antitone(root, up, one);
    pricing::lemma_difference_unsigned(before, after);
    let minus = double::negation(after);
    assert(minus.magnitude() == after.magnitude());
    accuracy::lemma_real_units(after);
    accuracy::law_sum_is_accurate(before, minus);
    let (r, u) = (accuracy::real_of(root), accuracy::real_of(up));
    lemma_inverse(1real, r);
    lemma_inverse(1real, u);
    lemma_inverse(1real, full);
    lemma_inverses(u, full, 10real);
    lemma_falling(r, full);
    accuracy::lemma_real_units(fall);
}

/// A larger number has a smaller inverse.
proof fn lemma_falling(x: real, y: real)
    requires
        0real < x <= y,
    ensures
        1real / y <= 1real / x,
{
    lemma_inverse(1real, x);
    lemma_inverse(1real, y);
    let (p, q) = (1real / x, 1real / y);
    // `q * x <= q * y == p * x`
    algebra::lemma_product_monotone(q, q, x, y);
    algebra::lemma_cancel(q, p, x);
}

/// The USDC that a swap gives are off from the exact ones by no more than 20
/// times 2^-53 of what the pool holds, for amounts from 2^-128 to 2^128 WETH.
#[verifier::rlimit(60)]
pub proof fn law_usdc_out_is_accurate(
    sqrt_price: Double,
    liquidity: Double,
    amount: Double,
    fee: Double,
)
    requires
        is_regular_pool(sqrt_price, liquidity, fee),
        scaling::between(amount, -128, 128),
    ensures
        ({
            let out = math::usdc_out(sqrt_price, liquidity, amount, fee);
            let (r, l) = (exact_root(sqrt_price), accuracy::real_of(liquidity));
            &&& order::unsigned(out)
            &&& is_sized(out, -389, 301)
            &&& accuracy::within(
                accuracy::real_of(out),
                exact::exact_usdc_out(
                    r,
                    l,
                    accuracy::real_of(fee),
                    accuracy::real_of(amount),
                ),
                20real,
                exact_usdc_reserve(r, l),
            )
        }),
{
    let one = math::number(ONE);
    let unit = math::number(USDC_UNIT);
    let root = double::quotient(sqrt_price, math::number(Q96));
    let up = math::raised_root(root, liquidity, amount, fee);
    let fall = double::difference(double::quotient(one, root), double::quotient(one, up));
    lemma_root(sqrt_price);
    lemma_raised(root, liquidity, amount, fee);
    lemma_between(root, -128, 128);
    lemma_between(liquidity, -64, 192);
    lemma_between(amount, -128, 128);
    lemma_between(up, -128, 253);
    lemma_between(sqrt_price, -32, 224);
    pricing::law_weth_in_raises_the_root(root, liquidity, amount, fee);
    let (r, l) = (exact_root(sqrt_price), accuracy::real_of(liquidity));
    let full = exact::exact_raised_root(
        r,
        l,
        accuracy::real_of(fee),
        accuracy::real_of(amount),
    );
    lemma_fall(root, up, full);
    let out = double::quotient(double::product(liquidity, fall), unit);
    lemma_usdc_given(liquidity, fall);
    assert(double::absolute(out) == out);
    assert(math::usdc_out(sqrt_price, liquidity, amount, fee) == out);
    lemma_usdc_distance(
        accuracy::real_of(fall),
        1real / r - 1real / full,
        1real / r,
        l,
        accuracy::real_of(double::product(liquidity, fall)),
        accuracy::real_of(out),
    );
}

/// What a pool gives for a fall of the inverse.
proof fn lemma_usdc_given(liquidity: Double, fall: Double)
    requires
        scaling::between(liquidity, -64, 192),
        is_sized(fall, -305, 128),
        order::unsigned(fall),
    ensures
        ({
            let given = double::product(liquidity, fall);
            let out = double::quotient(given, math::number(USDC_UNIT));
            let (l, f, g) = (
                accuracy::real_of(liquidity),
                accuracy::real_of(fall),
                accuracy::real_of(given),
            );
            &&& is_sized(out, -389, 301)
            &&& order::unsigned(out)
            &&& l > 0real
            &&& f >= 0real
            &&& g >= 0real
            &&& accuracy::within(g, l * f, 1real, accuracy::size(l * f))
            &&& accuracy::within(
                accuracy::real_of(out),
                g / 1_000_000real,
                1real,
                accuracy::size(g / 1_000_000real),
            )
        }),
{
    let unit = math::number(USDC_UNIT);
    let given = double::product(liquidity, fall);
    let out = double::quotient(given, unit);
    lemma_units();
    lemma_between(liquidity, -64, 192);
    lemma_between(unit, 19, 20);
    lemma_product_sized(liquidity, fall, -64, 192, -305, 128);
    lemma_quotient_sized(given, unit, -369, 320, 19, 20);
    assert(!given.negative()) by {
        reveal(double::product);
    }
    assert(!out.negative()) by {
        reveal(double::quotient);
    }
    accuracy::lemma_real_units(fall);
    accuracy::lemma_real_units(given);
}

/// The same distance in numbers.
proof fn lemma_usdc_distance(f: real, gap: real, inverse: real, l: real, given: real, out: real)
    requires
        l > 0real,
        f >= 0real,
        given >= 0real,
        0real <= gap <= inverse,
        accuracy::within(f, gap, 15real, inverse),
        accuracy::within(given, l * f, 1real, accuracy::size(l * f)),
        accuracy::within(
            out,
            given / 1_000_000real,
            1real,
            accuracy::size(given / 1_000_000real),
        ),
    ensures
        accuracy::within(out, l * gap / 1_000_000real, 20real, l * inverse / 1_000_000real),
{
    lemma_multiplied(f, gap, 15real, inverse, l);
    algebra::identity_exchange(l, f);
    algebra::identity_exchange(l, gap);
    algebra::identity_exchange(l, inverse);
    algebra::lemma_product_monotone(0real, l, 0real, f);
    algebra::lemma_product_monotone(l, l, gap, inverse);
    algebra::lemma_product_monotone(0real, l, 0real, gap);
}

/// The denominator of the lowered price.
#[verifier::rlimit(60)]
proof fn lemma_deepened(root: Double, liquidity: Double, amount: Double, fee: Double)
    requires
        scaling::between(root, -128, 128),
        scaling::between(liquidity, -64, 192),
        scaling::between(amount, -389, 301),
        order::unsigned(fee),
        double::less(fee, math::number(ONE)),
    ensures
        ({
            let deep = math::deepened(root, liquidity, amount, fee);
            let l = accuracy::real_of(liquidity);
            let full = l + accuracy::real_of(amount) * (1real - accuracy::real_of(fee))
                * 1_000_000real * accuracy::real_of(root);
            &&& scaling::between(deep, -64, 490)
            &&& 0real < l <= full
            &&& accuracy::within(accuracy::real_of(deep), full, 9real, full)
        }),
{
    let unit = math::number(USDC_UNIT);
    let raw = double::product(math::after_fee(amount, fee), unit);
    let moved = double::product(raw, root);
    let deep = double::sum(liquidity, moved);
    lemma_units();
    lemma_input(amount, fee, unit, -389, 301);
    scaling::lemma_product_between(raw, root, -423, 361, -128, 128);
    lemma_between(raw, -423, 361);
    lemma_between(root, -128, 128);
    lemma_between(moved, -551, 489);
    lemma_between(liquidity, -64, 192);
    accuracy::law_product_is_accurate(raw, root);
    scaling::lemma_power(192);
    scaling::lemma_power(489);
    lemma_sum_between(liquidity, moved, -64, 489, -551);
    lemma_between(deep, -64, 490);
    accuracy::law_sum_is_accurate(liquidity, moved);
    let s = accuracy::real_of(root);
    let full = accuracy::real_of(amount) * (1real - accuracy::real_of(fee)) * 1_000_000real;
    lemma_multiplied(accuracy::real_of(raw), full, 5real, full, s);
    algebra::lemma_product_positive(full, s);
    algebra::lemma_product_positive(accuracy::real_of(raw), s);
    assert(accuracy::within(accuracy::real_of(moved), full * s, 7real, full * s));
}

/// The root after USDC went in.
#[verifier::rlimit(60)]
proof fn lemma_lowered(root: Double, liquidity: Double, deep: Double, full: real)
    requires
        scaling::between(root, -128, 128),
        scaling::between(liquidity, -64, 192),
        scaling::between(deep, -64, 490),
        0real < accuracy::real_of(liquidity) <= full,
        accuracy::within(accuracy::real_of(deep), full, 9real, full),
    ensures
        ({
            let low = double::quotient(double::product(liquidity, root), deep);
            let (s, n) = (accuracy::real_of(root), accuracy::real_of(liquidity));
            let exact_low = n * s / full;
            &&& scaling::between(low, -682, 384)
            &&& 0real < exact_low <= s
            &&& accuracy::within(accuracy::real_of(low), exact_low, 14real, exact_low)
        }),
{
    let held = double::product(liquidity, root);
    let low = double::quotient(held, deep);
    let (s, n, d) = (
        accuracy::real_of(root),
        accuracy::real_of(liquidity),
        accuracy::real_of(deep),
    );
    scaling::lemma_product_between(liquidity, root, -64, 192, -128, 128);
    scaling::lemma_quotient_between(held, deep, -192, 320, -64, 490);
    lemma_between(root, -128, 128);
    lemma_between(liquidity, -64, 192);
    lemma_between(held, -192, 320);
    lemma_between(deep, -64, 490);
    lemma_between(low, -682, 384);
    accuracy::law_product_is_accurate(liquidity, root);
    accuracy::law_quotient_is_accurate(held, deep);
    algebra::lemma_product_positive(n, s);
    let h = accuracy::real_of(held);
    lemma_inverse(h, d);
    lemma_inverse(n * s, full);
    lemma_inverses(d, full, 10real);
    let (i, j) = (1real / d, 1real / full);
    lemma_multiplied(h, n * s, 1real, n * s, i);
    lemma_multiplied(i, j, 10real, j, n * s);
    algebra::identity_exchange(i, n * s);
    algebra::identity_exchange(j, n * s);
    algebra::lemma_product_positive(n * s, i);
    algebra::lemma_product_positive(n * s, j);
    algebra::lemma_product_positive(h, i);
    let exact_low = n * s / full;
    assert(accuracy::within(h * i, exact_low, 12real, exact_low));
    // `exact_low * full == n * s <= full * s`
    algebra::lemma_quotient_back(n * s, full);
    algebra::lemma_product_monotone(n, full, s, s);
    algebra::identity_exchange(full, s);
    algebra::lemma_cancel(exact_low, s, full);
}

/// The WETH that a swap gives are off from the exact ones by no more than 21
/// times 2^-53 of what the pool holds, for amounts from 2^-389 to 2^301 USDC.
#[verifier::rlimit(60)]
pub proof fn law_weth_out_is_accurate(
    sqrt_price: Double,
    liquidity: Double,
    amount: Double,
    fee: Double,
)
    requires
        is_regular_pool(sqrt_price, liquidity, fee),
        scaling::between(amount, -389, 301),
    ensures
        ({
            let out = math::weth_out(sqrt_price, liquidity, amount, fee);
            let (s, n) = (exact_root(sqrt_price), accuracy::real_of(liquidity));
            let full = exact::exact_weth_out(
                s,
                n,
                accuracy::real_of(fee),
                accuracy::real_of(amount),
            );
            &&& order::unsigned(out)
            &&& is_sized(out, -858, 517)
            &&& 0real <= full <= exact_weth_reserve(s, n)
            &&& accuracy::within(
                accuracy::real_of(out),
                full,
                21real,
                exact_weth_reserve(s, n),
            )
        }),
{
    let unit = math::number(WETH_UNIT);
    let root = double::quotient(sqrt_price, math::number(Q96));
    let deep = math::deepened(root, liquidity, amount, fee);
    let low = double::quotient(double::product(liquidity, root), deep);
    let fall = double::difference(root, low);
    let given = double::product(liquidity, fall);
    let moved = double::quotient(given, unit);
    lemma_root(sqrt_price);
    lemma_deepened(root, liquidity, amount, fee);
    let (s, n) = (exact_root(sqrt_price), accuracy::real_of(liquidity));
    let full = n + accuracy::real_of(amount) * (1real - accuracy::real_of(fee)) * 1_000_000real
        * s;
    lemma_lowered(root, liquidity, deep, full);
    lemma_between(low, -682, 384);
    let exact_low = n * s / full;
    lemma_widened(root, -128, 128, -682, 384);
    lemma_weth_given(liquidity, root, low);
    lemma_weth_form(sqrt_price, liquidity, amount, fee);
    lemma_absolute(moved);
    lemma_weth_distance(
        s,
        accuracy::real_of(low),
        exact_low,
        n,
        accuracy::real_of(fall),
        accuracy::real_of(given),
        accuracy::real_of(moved),
    );
}

/// The form of the WETH output where nothing is missing.
pub(crate) proof fn lemma_weth_form(sqrt_price: Double, liquidity: Double, amount: Double, fee: Double)
    requires
        scaling::between(sqrt_price, -32, 224),
        scaling::between(liquidity, -64, 192),
        scaling::between(amount, -389, 301),
        ({
            let root = double::quotient(sqrt_price, math::number(Q96));
            scaling::between(math::deepened(root, liquidity, amount, fee), -64, 490)
        }),
    ensures
        ({
            let root = double::quotient(sqrt_price, math::number(Q96));
            let deep = math::deepened(root, liquidity, amount, fee);
            let low = double::quotient(double::product(liquidity, root), deep);
            math::weth_out(sqrt_price, liquidity, amount, fee) == double::absolute(
                double::quotient(
                    double::product(liquidity, double::difference(root, low)),
                    math::number(WETH_UNIT),
                ),
            )
        }),
{
    let root = double::quotient(sqrt_price, math::number(Q96));
    lemma_between(sqrt_price, -32, 224);
    lemma_between(liquidity, -64, 192);
    lemma_between(amount, -389, 301);
    lemma_between(math::deepened(root, liquidity, amount, fee), -64, 490);
}

/// A number between powers of two is between ones that are further apart.
pub(crate) proof fn lemma_widened(x: Double, a: int, b: int, low: int, high: int)
    requires
        -1022 <= low <= a <= b <= high <= 1023,
        scaling::between(x, a, b),
    ensures
        scaling::between(x, low, high),
{
    scaling::lemma_power(low);
    scaling::lemma_power(a);
    scaling::lemma_power(b);
    scaling::lemma_power(high);
}

/// What a pool gives for a fall of the root.
pub(crate) proof fn lemma_weth_given(liquidity: Double, root: Double, low: Double)
    requires
        scaling::between(liquidity, -64, 192),
        scaling::between(root, -682, 384),
        scaling::between(low, -682, 384),
    ensures
        ({
            let fall = double::difference(root, low);
            let given = double::product(liquidity, fall);
            let moved = double::quotient(given, math::number(WETH_UNIT));
            let (l, f, g) = (
                accuracy::real_of(liquidity),
                accuracy::real_of(fall),
                accuracy::real_of(given),
            );
            let apart = accuracy::real_of(root) - accuracy::real_of(low);
            &&& is_sized(moved, -858, 517)
            &&& moved.is_finite()
            &&& l > 0real
            &&& accuracy::within(f, apart, 1real, accuracy::size(apart))
            &&& accuracy::within(g, l * f, 1real, accuracy::size(l * f))
            &&& accuracy::within(
                accuracy::real_of(moved),
                g / 1_000_000_000_000_000_000real,
                1real,
                accuracy::size(g / 1_000_000_000_000_000_000real),
            )
        }),
{
    let unit = math::number(WETH_UNIT);
    let fall = double::difference(root, low);
    let given = double::product(liquidity, fall);
    lemma_units();
    lemma_between(liquidity, -64, 192);
    lemma_between(root, -682, 384);
    lemma_between(low, -682, 384);
    lemma_difference_sized(root, low, -682, 384);
    lemma_net(root, low);
    lemma_product_sized(liquidity, fall, -64, 192, -734, 384);
    lemma_quotient_sized(given, unit, -798, 576, 59, 60);
}

/// The same distance in numbers.
proof fn lemma_weth_distance(
    s: real,
    low: real,
    exact_low: real,
    n: real,
    f: real,
    given: real,
    moved: real,
)
    requires
        n > 0real,
        low > 0real,
        0real < exact_low <= s,
        accuracy::within(low, exact_low, 14real, exact_low),
        accuracy::within(f, s - low, 1real, accuracy::size(s - low)),
        accuracy::within(given, n * f, 1real, accuracy::size(n * f)),
        accuracy::within(
            moved,
            given / 1_000_000_000_000_000_000real,
            1real,
            accuracy::size(given / 1_000_000_000_000_000_000real),
        ),
    ensures
        ({
            let full = n * (s - exact_low) / 1_000_000_000_000_000_000real;
            let held = n * s / 1_000_000_000_000_000_000real;
            &&& 0real <= full <= held
            &&& accuracy::within(accuracy::size(moved), full, 21real, held)
        }),
{
    let gap = s - exact_low;
    assert(accuracy::within(f, gap, 16real, s));
    lemma_multiplied(f, gap, 16real, s, n);
    algebra::identity_exchange(n, f);
    algebra::identity_exchange(n, gap);
    algebra::identity_exchange(n, s);
    lemma_size_multiple(f, n, 2real * s);
    algebra::lemma_product_monotone(0real, n, 0real, gap);
    algebra::lemma_product_monotone(n, n, gap, s);
    assert(n * (2real * s) == 2real * (n * s)) by (nonlinear_arith);
}

/// The absolute value of a number.
pub(crate) proof fn lemma_absolute(x: Double)
    requires
        x.is_finite(),
    ensures
        accuracy::real_of(double::absolute(x)) == accuracy::size(accuracy::real_of(x)),
        order::unsigned(double::absolute(x)),
        double::absolute(x).magnitude() == x.magnitude(),
{
    let y = double::absolute(x);
    assert(y.magnitude() == x.magnitude());
    assert(y.units() == x.units());
    accuracy::lemma_real_units(x);
    accuracy::lemma_real_units(y);
    accuracy::lemma_scale();
    if x.negative() {
        let z = double::negation(x);
        assert(z == y);
        accuracy::lemma_real_units(z);
    } else {
        assert(x == y);
    }
}

/// The size of a multiple.
pub(crate) proof fn lemma_size_multiple(x: real, w: real, bound: real)
    requires
        w >= 0real,
        -bound <= x <= bound,
    ensures
        accuracy::size(w * x) <= w * bound,
{
    algebra::lemma_product_monotone(0real, w, 0real, bound - x);
    algebra::lemma_product_monotone(0real, w, 0real, bound + x);
    algebra::lemma_minus(bound, x, w);
    algebra::lemma_plus(bound, x, w);
}

/// A market without rounding.
pub open spec fn exact_market(m: Market) -> exact::ExactMarket {
    exact::ExactMarket {
        sell_root: exact_root(m.sell_sqrt_price),
        sell_liquidity: accuracy::real_of(m.sell_liquidity),
        sell_fee: accuracy::real_of(m.sell_fee),
        buy_root: exact_root(m.buy_sqrt_price),
        buy_liquidity: accuracy::real_of(m.buy_liquidity),
        buy_fee: accuracy::real_of(m.buy_fee),
        gas_cost: accuracy::real_of(m.gas_cost),
        loan_rate: accuracy::real_of(m.loan_fee_bps) / 10_000real,
        eth_price: accuracy::real_of(m.eth_price),
    }
}

/// Whether the numbers of a market are far from the limits of their format:
/// two regular pools, a price of ETH from 2^-100 to 2^128, and no loan fee or
/// one from 2^-500 to 2^128 basis points.
pub open spec fn is_regular(m: Market) -> bool {
    &&& is_regular_pool(m.sell_sqrt_price, m.sell_liquidity, m.sell_fee)
    &&& is_regular_pool(m.buy_sqrt_price, m.buy_liquidity, m.buy_fee)
    &&& scaling::between(m.eth_price, -100, 128)
    &&& order::unsigned(m.loan_fee_bps)
    &&& is_sized(m.loan_fee_bps, -500, 128)
}

/// A regular market is sound.
pub(crate) proof fn lemma_sound(m: Market)
    requires
        is_regular(m),
    ensures
        exact::is_sound(exact_market(m)),
        exact_market(m).loan_rate >= 0real,
{
    lemma_root(m.sell_sqrt_price);
    lemma_root(m.buy_sqrt_price);
    lemma_between(m.sell_liquidity, -64, 192);
    lemma_between(m.buy_liquidity, -64, 192);
    lemma_between(m.eth_price, -100, 128);
    lemma_part(m.sell_fee);
    lemma_part(m.buy_fee);
    accuracy::lemma_real_units(m.sell_fee);
    accuracy::lemma_real_units(m.buy_fee);
    accuracy::lemma_real_units(m.loan_fee_bps);
}

/// What bounds the rounding errors of a profit: multiples of what the cheap
/// pool holds, of what the USDC of the dear pool are worth there, and of what
/// is paid back.
pub open spec fn tolerance(m: exact::ExactMarket, amount: real) -> real {
    m.eth_price * (28real * exact_weth_reserve(m.buy_root, m.buy_liquidity) + 24real * (
    exact::steepest(m.buy_root, m.buy_fee) * exact_usdc_reserve(m.sell_root, m.sell_liquidity))
        + 12real * (amount * (1real + m.loan_rate))) + accuracy::size(m.gas_cost)
}

/// What the loan costs.
#[verifier::rlimit(60)]
proof fn lemma_repaid(amount: Double, loan_fee_bps: Double)
    requires
        scaling::between(amount, -128, 128),
        order::unsigned(loan_fee_bps),
        is_sized(loan_fee_bps, -500, 128),
    ensures
        ({
            let rate = double::quotient(loan_fee_bps, math::number(BASIS_POINTS));
            let repaid = double::product(amount, double::sum(math::number(ONE), rate));
            let full = accuracy::real_of(amount) * (1real + accuracy::real_of(loan_fee_bps)
                / 10_000real);
            &&& scaling::between(repaid, -128, 244)
            &&& full > 0real
            &&& accuracy::within(accuracy::real_of(repaid), full, 5real, full)
        }),
{
    let one = math::number(ONE);
    let points = math::number(BASIS_POINTS);
    let rate = double::quotient(loan_fee_bps, points);
    let whole = double::sum(one, rate);
    let repaid = double::product(amount, whole);
    lemma_units();
    lemma_between(one, 0, 0);
    lemma_between(points, 13, 14);
    lemma_quotient_sized(loan_fee_bps, points, -500, 128, 13, 14);
    assert(!rate.negative()) by {
        reveal(double::quotient);
    }
    scaling::lemma_power(0);
    let top = scaling::power(115);
    scaling::lemma_power(115);
    scaling::lemma_power(116);
    lemma_power_doubled(115);
    assert(rate.bits <= top.bits);
    lemma_sum_ordered(one, top, rate, top);
    assert(scaling::between(whole, 0, 116));
    lemma_between(whole, 0, 116);
    accuracy::law_sum_is_accurate(one, rate);
    accuracy::lemma_real_units(loan_fee_bps);
    accuracy::lemma_real_units(rate);
    let a = accuracy::real_of(amount);
    let full = 1real + accuracy::real_of(loan_fee_bps) / 10_000real;
    let w = accuracy::real_of(whole);
    assert(accuracy::within(w, full, 3real, full));
    scaling::lemma_product_between(amount, whole, -128, 128, 0, 116);
    lemma_between(amount, -128, 128);
    lemma_between(repaid, -128, 244);
    accuracy::law_product_is_accurate(amount, whole);
    lemma_multiplied(w, full, 3real, full, a);
    algebra::identity_exchange(w, a);
    algebra::identity_exchange(full, a);
    algebra::lemma_product_positive(a, full);
    algebra::lemma_product_positive(a, w);
}

/// The WETH that come back.
#[verifier::rlimit(60)]
proof fn lemma_returned(m: Market, amount: Double)
    requires
        is_regular(m),
        scaling::between(amount, -128, 128),
        double::less(
            math::number(ZERO),
            math::usdc_out(m.sell_sqrt_price, m.sell_liquidity, amount, m.sell_fee),
        ),
    ensures
        ({
            let usdc = math::usdc_out(m.sell_sqrt_price, m.sell_liquidity, amount, m.sell_fee);
            let weth = math::weth_out(m.buy_sqrt_price, m.buy_liquidity, usdc, m.buy_fee);
            let x = exact_market(m);
            let full = exact::weth_received(
                x,
                exact::usdc_received(x, accuracy::real_of(amount)),
            );
            let held = exact_weth_reserve(x.buy_root, x.buy_liquidity);
            let worth = exact::steepest(x.buy_root, x.buy_fee) * exact_usdc_reserve(
                x.sell_root,
                x.sell_liquidity,
            );
            &&& order::unsigned(weth)
            &&& is_sized(weth, -858, 517)
            &&& 0real <= full <= held
            &&& worth >= 0real
            &&& accuracy::within(
                accuracy::real_of(weth),
                full,
                1real,
                21real * held + 20real * worth,
            )
        }),
{
    let usdc = math::usdc_out(m.sell_sqrt_price, m.sell_liquidity, amount, m.sell_fee);
    let x = exact_market(m);
    let a = accuracy::real_of(amount);
    lemma_sound(m);
    lemma_between(amount, -128, 128);
    law_usdc_out_is_accurate(m.sell_sqrt_price, m.sell_liquidity, amount, m.sell_fee);
    assert(double::absolute(usdc) == usdc);
    assert(scaling::between(usdc, -389, 301));
    law_weth_out_is_accurate(m.buy_sqrt_price, m.buy_liquidity, usdc, m.buy_fee);
    lemma_between(usdc, -389, 301);
    exact::lemma_usdc_positive(x, a);
    lemma_received(
        x,
        accuracy::real_of(usdc),
        exact::usdc_received(x, a),
        accuracy::real_of(
            math::weth_out(m.buy_sqrt_price, m.buy_liquidity, usdc, m.buy_fee),
        ),
    );
}

/// The WETH that come back, in numbers: `given` and `full` for the USDC that go
/// in, rounded and exact, `w` for the rounded WETH that `given` buy.
#[verifier::rlimit(60)]
proof fn lemma_received(x: exact::ExactMarket, given: real, full: real, w: real)
    requires
        exact::is_sound(x),
        given >= 0real,
        full >= 0real,
        accuracy::within(given, full, 20real, exact_usdc_reserve(x.sell_root, x.sell_liquidity)),
        accuracy::within(
            w,
            exact::weth_received(x, given),
            21real,
            exact_weth_reserve(x.buy_root, x.buy_liquidity),
        ),
    ensures
        ({
            let held = exact_weth_reserve(x.buy_root, x.buy_liquidity);
            let worth = exact::steepest(x.buy_root, x.buy_fee) * exact_usdc_reserve(
                x.sell_root,
                x.sell_liquidity,
            );
            &&& 0real <= exact::weth_received(x, full) <= held
            &&& worth >= 0real
            &&& accuracy::within(
                w,
                exact::weth_received(x, full),
                1real,
                21real * held + 20real * worth,
            )
        }),
{
    let (s, n, fee) = (x.buy_root, x.buy_liquidity, x.buy_fee);
    let reserve = exact_usdc_reserve(x.sell_root, x.sell_liquidity);
    let st = exact::steepest(s, fee);
    lemma_usdc_held(x.sell_root, x.sell_liquidity);
    lemma_steepest(s, fee);
    algebra::lemma_product_monotone(0real, st, 0real, reserve);
    lemma_weth_held(s, n, fee, full);
    if given <= full {
        exact::law_weth_out_is_smooth(s, n, fee, given, full);
        lemma_drift(st, full - given, reserve);
    } else {
        exact::law_weth_out_is_smooth(s, n, fee, full, given);
        lemma_drift(st, given - full, reserve);
    }
}

/// A drift of the USDC, in WETH.
proof fn lemma_drift(steep: real, off: real, reserve: real)
    requires
        steep >= 0real,
        off * 9_007_199_254_740_992real <= 20real * reserve,
    ensures
        (steep * off) * 9_007_199_254_740_992real <= 20real * (steep * reserve),
{
    let big = 9_007_199_254_740_992real;
    let left = 20real * reserve - off * big;
    algebra::lemma_product_monotone(0real, steep, 0real, left);
    algebra::lemma_minus(20real * reserve, off * big, steep);
    assert(steep * (20real * reserve) == 20real * (steep * reserve)) by (nonlinear_arith);
    assert(steep * (off * big) == (steep * off) * big) by (nonlinear_arith);
}

/// What a pool holds is positive.
proof fn lemma_usdc_held(root: real, liquidity: real)
    requires
        root > 0real,
        liquidity > 0real,
    ensures
        exact_usdc_reserve(root, liquidity) > 0real,
{
    lemma_inverse(1real, root);
    algebra::lemma_product_positive(liquidity, 1real / root);
}

/// The steepest exchange is not negative.
proof fn lemma_steepest(root: real, fee: real)
    requires
        root > 0real,
        fee < 1real,
    ensures
        exact::steepest(root, fee) >= 0real,
{
    algebra::lemma_product_positive(root, root);
    algebra::lemma_product_positive(1real - fee, 1_000_000real);
    algebra::lemma_product_positive(root * root, (1real - fee) * 1_000_000real);
}

/// A swap gives no more WETH than the pool holds.
proof fn lemma_weth_held(root: real, liquidity: real, fee: real, amount: real)
    requires
        root > 0real,
        liquidity > 0real,
        0real <= fee < 1real,
        amount >= 0real,
    ensures
        0real <= exact::exact_weth_out(root, liquidity, fee, amount) <= exact_weth_reserve(
            root,
            liquidity,
        ),
{
    let full = liquidity + amount * (1real - fee) * 1_000_000real * root;
    algebra::lemma_product_monotone(0real, amount, 0real, 1real - fee);
    let input = amount * (1real - fee) * 1_000_000real;
    algebra::lemma_product_monotone(0real, input, 0real, root);
    algebra::lemma_product_positive(liquidity, root);
    let low = liquidity * root / full;
    lemma_inverse(liquidity * root, full);
    algebra::lemma_product_positive(liquidity * root, 1real / full);
    algebra::lemma_quotient_back(liquidity * root, full);
    algebra::lemma_product_monotone(liquidity, full, root, root);
    algebra::identity_exchange(full, root);
    algebra::lemma_cancel(low, root, full);
    algebra::lemma_product_monotone(0real, liquidity, 0real, root - low);
    algebra::lemma_product_monotone(liquidity, liquidity, root - low, root);
}

/// The profit in numbers: `w` and `back` for the WETH that come back, `r` and
/// `cost` for what is paid back, `c` for the difference, `g` for its worth, `p`
/// for the profit, each rounded and, but for the last three, exact.
proof fn lemma_profit_distance(
    w: real,
    back: real,
    held: real,
    worth: real,
    r: real,
    cost: real,
    c: real,
    price: real,
    g: real,
    gas: real,
    p: real,
)
    requires
        0real <= back <= held,
        worth >= 0real,
        w >= 0real,
        accuracy::within(w, back, 1real, 21real * held + 20real * worth),
        cost > 0real,
        r >= 0real,
        accuracy::within(r, cost, 5real, cost),
        accuracy::within(c, w - r, 1real, accuracy::size(w - r)),
        price > 0real,
        accuracy::within(g, price * c, 1real, accuracy::size(price * c)),
        accuracy::within(p, g - gas, 1real, accuracy::size(g - gas)),
    ensures
        accuracy::within(
            p,
            (back - cost) * price - gas,
            1real,
            price * (28real * held + 24real * worth + 12real * cost) + accuracy::size(gas),
        ),
{
    // The difference is off by no more than this, and no larger than that.
    let near = 23real * held + 21real * worth + 7real * cost;
    let most = 2real * held + worth + 2real * cost;
    assert(accuracy::within(c, back - cost, 1real, near));
    assert(-most <= c <= most);
    lemma_multiplied(c, back - cost, 1real, near, price);
    algebra::identity_exchange(price, c);
    algebra::identity_exchange(price, near);
    lemma_size_multiple(c, price, most);
    let (h, o, k) = (price * held, price * worth, price * cost);
    lemma_spread(price, 23real, held, 21real, worth, 7real, cost);
    lemma_spread(price, 2real, held, 1real, worth, 2real, cost);
    lemma_spread(price, 28real, held, 24real, worth, 12real, cost);
    algebra::lemma_product_monotone(0real, price, 0real, held);
    algebra::lemma_product_monotone(0real, price, 0real, worth);
    algebra::lemma_product_monotone(0real, price, 0real, cost);
    assert(accuracy::within(g, (back - cost) * price, 1real, 25real * h + 22real * o + 9real * k));
    let close = 3real * h + 2real * o + 3real * k;
    assert(-close <= g <= close);
}

/// A factor over a sum of multiples.
pub(crate) proof fn lemma_spread(f: real, i: real, x: real, j: real, y: real, k: real, z: real)
    ensures
        f * (i * x + j * y + k * z) == i * (f * x) + j * (f * y) + k * (f * z),
{
    algebra::lemma_plus(i * x + j * y, k * z, f);
    algebra::lemma_plus(i * x, j * y, f);
    algebra::identity_middle(f, i, x);
    algebra::identity_middle(f, j, y);
    algebra::identity_middle(f, k, z);
}

/// A profit is off from the exact one by no more than 2^-53 of its tolerance.
#[verifier::rlimit(60)]
pub proof fn law_profit_is_accurate(m: Market, amount: Double)
    requires
        is_regular(m),
        scaling::between(amount, -128, 128),
        math::profit(m, amount).is_finite(),
    ensures
        accuracy::within(
            accuracy::real_of(math::profit(m, amount)),
            exact::exact_profit(exact_market(m), accuracy::real_of(amount)),
            1real,
            tolerance(exact_market(m), accuracy::real_of(amount)),
        ),
{
    let usdc = math::usdc_out(m.sell_sqrt_price, m.sell_liquidity, amount, m.sell_fee);
    let weth = math::weth_out(m.buy_sqrt_price, m.buy_liquidity, usdc, m.buy_fee);
    let rate = double::quotient(m.loan_fee_bps, math::number(BASIS_POINTS));
    let repaid = double::product(amount, double::sum(math::number(ONE), rate));
    let left = double::difference(weth, repaid);
    let gross = double::product(left, m.eth_price);
    let net = double::difference(gross, m.gas_cost);
    let zero = math::number(ZERO);
    law_usdc_out_is_accurate(m.sell_sqrt_price, m.sell_liquidity, amount, m.sell_fee);
    assert(double::less(zero, usdc) && double::less(zero, weth) && math::profit(m, amount) == net)
        by {
        reveal(math::profit);
        if double::less(zero, usdc) {
            lemma_returned(m, amount);
        }
    }
    lemma_returned(m, amount);
    lemma_repaid(amount, m.loan_fee_bps);
    assert(double::absolute(weth) == weth);
    assert(scaling::between(weth, -858, 517));
    lemma_between(weth, -858, 517);
    lemma_between(repaid, -128, 244);
    lemma_between(m.eth_price, -100, 128);
    lemma_left(weth, repaid);
    order::law_product_commutes(left, m.eth_price);
    lemma_product_sized(m.eth_price, left, -100, 128, -910, 517);
    lemma_net(gross, m.gas_cost);
    let x = exact_market(m);
    let a = accuracy::real_of(amount);
    lemma_profit_distance(
        accuracy::real_of(weth),
        exact::weth_received(x, exact::usdc_received(x, a)),
        exact_weth_reserve(x.buy_root, x.buy_liquidity),
        exact::steepest(x.buy_root, x.buy_fee) * exact_usdc_reserve(
            x.sell_root,
            x.sell_liquidity,
        ),
        accuracy::real_of(repaid),
        a * (1real + x.loan_rate),
        accuracy::real_of(left),
        x.eth_price,
        accuracy::real_of(gross),
        x.gas_cost,
        accuracy::real_of(net),
    );
}

/// A sum of numbers of up to 2^1000 is one.
pub(crate) proof fn lemma_finite_sum(x: Double, y: Double)
    requires
        x.magnitude() <= scaling::power(1000).bits,
        y.magnitude() <= scaling::power(1000).bits,
    ensures
        double::sum(x, y).is_finite(),
{
    reveal(double::sum);
    let top = scaling::power(1000);
    let most = scaling::power(1001);
    scaling::lemma_power(1000);
    scaling::lemma_power(1001);
    lemma_pow2_unfold(2075);
    order::law_magnitudes_follow_values(x, top);
    order::law_magnitudes_follow_values(y, top);
    order::law_rounding_is_exact(most);
    rounding::lemma_round_zero(1);
    let total = x.value() + y.value();
    let n: nat = if total >= 0 {
        total as nat
    } else {
        (-total) as nat
    };
    assert(n <= most.units());
    lemma_rounded_below(n, most.units());
}

/// A trade goes through exactly where the dear pool gives USDC and the cheap
/// pool gives WETH for them; its profit is then a number, and negative infinity
/// otherwise.
#[verifier::rlimit(60)]
pub proof fn law_profit_is_a_number_where_the_pools_pay(m: Market, amount: Double)
    requires
        is_regular(m),
        scaling::between(amount, -128, 128),
        is_sized(m.gas_cost, -1022, 1000),
    ensures
        ({
            let usdc = math::usdc_out(m.sell_sqrt_price, m.sell_liquidity, amount, m.sell_fee);
            let weth = math::weth_out(m.buy_sqrt_price, m.buy_liquidity, usdc, m.buy_fee);
            let pays = double::less(math::number(ZERO), usdc) && double::less(
                math::number(ZERO),
                weth,
            );
            &&& pays ==> math::profit(m, amount).is_finite()
            &&& !pays ==> math::profit(m, amount) == math::number(math::NEGATIVE_INFINITY)
        }),
{
    let usdc = math::usdc_out(m.sell_sqrt_price, m.sell_liquidity, amount, m.sell_fee);
    let weth = math::weth_out(m.buy_sqrt_price, m.buy_liquidity, usdc, m.buy_fee);
    let rate = double::quotient(m.loan_fee_bps, math::number(BASIS_POINTS));
    let repaid = double::product(amount, double::sum(math::number(ONE), rate));
    let left = double::difference(weth, repaid);
    let gross = double::product(left, m.eth_price);
    let zero = math::number(ZERO);
    law_usdc_out_is_accurate(m.sell_sqrt_price, m.sell_liquidity, amount, m.sell_fee);
    lemma_between(amount, -128, 128);
    if double::less(zero, usdc) {
        lemma_returned(m, amount);
        if double::less(zero, weth) {
            assert(math::profit(m, amount) == double::difference(gross, m.gas_cost)) by {
                reveal(math::profit);
            }
            lemma_repaid(amount, m.loan_fee_bps);
            assert(double::absolute(weth) == weth);
            lemma_left(weth, repaid);
            order::law_product_commutes(left, m.eth_price);
            lemma_product_sized(m.eth_price, left, -100, 128, -910, 517);
            scaling::lemma_power(645);
            scaling::lemma_power(1000);
            assert(double::absolute(gross).magnitude() == gross.magnitude());
            assert(double::absolute(m.gas_cost).magnitude() == m.gas_cost.magnitude());
            assert(double::negation(m.gas_cost).magnitude() == m.gas_cost.magnitude());
            lemma_finite_sum(gross, double::negation(m.gas_cost));
        } else {
            reveal(math::profit);
        }
    } else {
        reveal(math::profit);
    }
}

/// What is left after the loan is paid back.
proof fn lemma_left(weth: Double, repaid: Double)
    requires
        scaling::between(weth, -858, 517),
        scaling::between(repaid, -128, 244),
    ensures
        ({
            let left = double::difference(weth, repaid);
            let exact_left = accuracy::real_of(weth) - accuracy::real_of(repaid);
            &&& is_sized(left, -910, 517)
            &&& accuracy::within(
                accuracy::real_of(left),
                exact_left,
                1real,
                accuracy::size(exact_left),
            )
        }),
{
    scaling::lemma_power(-858);
    scaling::lemma_power(-128);
    scaling::lemma_power(244);
    scaling::lemma_power(517);
    lemma_between(weth, -858, 517);
    lemma_between(repaid, -128, 244);
    lemma_difference_sized(weth, repaid, -858, 517);
    lemma_net(weth, repaid);
}

/// A difference that is finite.
pub(crate) proof fn lemma_net(x: Double, y: Double)
    requires
        x.is_finite(),
        double::difference(x, y).is_finite(),
    ensures
        y.is_finite(),
        accuracy::within(
            accuracy::real_of(double::difference(x, y)),
            accuracy::real_of(x) - accuracy::real_of(y),
            1real,
            accuracy::size(accuracy::real_of(x) - accuracy::real_of(y)),
        ),
{
    let minus = double::negation(y);
    assert(y.is_finite()) by {
        reveal(double::sum);
        assert(minus.magnitude() == y.magnitude());
    }
    assert(minus.magnitude() == y.magnitude());
    accuracy::lemma_real_units(y);
    accuracy::law_sum_is_accurate(x, minus);
}

/// The profit that is computed is concave up to rounding: it lies no further
/// above a tangent of the exact profit than the rounding of both ends allows.
pub proof fn law_computed_profit_is_concave(m: Market, x: Double, y: Double)
    requires
        is_regular(m),
        scaling::between(x, -128, 128),
        scaling::between(y, -128, 128),
        math::profit(m, x).is_finite(),
        math::profit(m, y).is_finite(),
    ensures
        ({
            let e = exact_market(m);
            let (a, b) = (accuracy::real_of(x), accuracy::real_of(y));
            (accuracy::real_of(math::profit(m, y)) - accuracy::real_of(math::profit(m, x))
                - exact::exact_slope(e, a) * (b - a)) * 9_007_199_254_740_992real <= tolerance(
                e,
                a,
            ) + tolerance(e, b)
        }),
{
    let e = exact_market(m);
    lemma_sound(m);
    lemma_between(x, -128, 128);
    lemma_between(y, -128, 128);
    law_profit_is_accurate(m, x);
    law_profit_is_accurate(m, y);
    exact::law_profit_is_concave(e, accuracy::real_of(x), accuracy::real_of(y));
}

/// The middle of two numbers.
pub open spec fn middle(x: Double, y: Double) -> Double {
    double::quotient(double::sum(x, y), math::number(math::TWO))
}

/// The middle of two trade sizes is one, and close to the exact middle.
proof fn lemma_middle(x: Double, y: Double)
    requires
        scaling::between(x, -128, 128),
        scaling::between(y, -128, 128),
    ensures
        scaling::between(middle(x, y), -128, 128),
        ({
            let half = (accuracy::real_of(x) + accuracy::real_of(y)) / 2real;
            accuracy::within(accuracy::real_of(middle(x, y)), half, 3real, half)
        }),
{
    let two = math::number(math::TWO);
    let (low, high) = (scaling::power(-128), scaling::power(128));
    let total = double::sum(x, y);
    scaling::lemma_power(-128);
    scaling::lemma_power(128);
    scaling::lemma_power(-127);
    scaling::lemma_power(129);
    scaling::lemma_power(1);
    assert(two == scaling::power(1));
    lemma_between(x, -128, 128);
    lemma_between(y, -128, 128);
    lemma_power_doubled(-128);
    lemma_power_doubled(128);
    lemma_sum_ordered(low, x, low, y);
    lemma_sum_ordered(x, high, y, high);
    assert(scaling::between(total, -127, 129));
    scaling::lemma_quotient_between(total, two, -127, 129, 1, 1);
    lemma_between(total, -127, 129);
    lemma_between(two, 1, 1);
    lemma_between(middle(x, y), -128, 128);
    accuracy::law_sum_is_accurate(x, y);
    accuracy::law_quotient_is_accurate(total, two);
    lemma_pow2_unfold(1075);
    assert(two.units() == 2 * pow2(1074));
    lemma_integer(two, 2);
    let t = accuracy::real_of(total);
    algebra::lemma_quotient_back(t, accuracy::real_of(two));
    let half = t / accuracy::real_of(two);
    assert(half * 2real == t);
}

/// The profit that is computed in the middle of two trade sizes is no less than
/// the mean of the profits that are computed there, up to rounding.
#[verifier::rlimit(60)]
pub proof fn law_middle_earns_no_less_than_the_mean(m: Market, x: Double, y: Double)
    requires
        is_regular(m),
        scaling::between(x, -128, 128),
        scaling::between(y, -128, 128),
        math::profit(m, x).is_finite(),
        math::profit(m, y).is_finite(),
        math::profit(m, middle(x, y)).is_finite(),
    ensures
        ({
            let z = middle(x, y);
            let e = exact_market(m);
            let (a, b, c) = (accuracy::real_of(x), accuracy::real_of(y), accuracy::real_of(z));
            let mean = (accuracy::real_of(math::profit(m, x)) + accuracy::real_of(
                math::profit(m, y),
            )) / 2real;
            (mean - accuracy::real_of(math::profit(m, z))) * 9_007_199_254_740_992real
                <= tolerance(e, c) + (tolerance(e, a) + tolerance(e, b)) / 2real + 3real * (
            accuracy::size(exact::exact_slope(e, c)) * ((a + b) / 2real))
        }),
{
    let z = middle(x, y);
    let e = exact_market(m);
    let (a, b, c) = (accuracy::real_of(x), accuracy::real_of(y), accuracy::real_of(z));
    lemma_sound(m);
    lemma_middle(x, y);
    lemma_between(x, -128, 128);
    lemma_between(y, -128, 128);
    lemma_between(z, -128, 128);
    law_profit_is_accurate(m, x);
    law_profit_is_accurate(m, y);
    law_profit_is_accurate(m, z);
    exact::law_profit_is_concave(e, c, a);
    exact::law_profit_is_concave(e, c, b);
    let slope = exact::exact_slope(e, c);
    let half = (a + b) / 2real;
    lemma_moved_slope(slope, half - c, half);
    algebra::lemma_plus(a - c, b - c, slope);
    assert((a - c) + (b - c) == 2real * (half - c));
    algebra::lemma_plus(half - c, half - c, slope);
}

/// What a slope makes of a small distance.
proof fn lemma_moved_slope(slope: real, off: real, half: real)
    requires
        off * 9_007_199_254_740_992real <= 3real * half,
        -off * 9_007_199_254_740_992real <= 3real * half,
    ensures
        (slope * off) * 9_007_199_254_740_992real <= 3real * (accuracy::size(slope) * half),
{
    let big = 9_007_199_254_740_992real;
    let steep = accuracy::size(slope);
    let signed = if slope < 0real {
        -off
    } else {
        off
    };
    assert(slope * off == steep * signed) by {
        algebra::lemma_minus(0real, slope, -off);
        algebra::lemma_minus(0real, off, slope);
    }
    let left = 3real * half - signed * big;
    algebra::lemma_product_monotone(0real, steep, 0real, left);
    algebra::lemma_minus(3real * half, signed * big, steep);
    assert(steep * (3real * half) == 3real * (steep * half)) by (nonlinear_arith);
    assert(steep * (signed * big) == (steep * signed) * big) by (nonlinear_arith);
}

/// Where the slope of the exact profit is zero, no other trade size has a
/// computed profit that is higher by more than the rounding of both allows.
pub proof fn law_flat_point_is_the_computed_maximum(m: Market, x: Double, y: Double)
    requires
        is_regular(m),
        scaling::between(x, -128, 128),
        scaling::between(y, -128, 128),
        math::profit(m, x).is_finite(),
        math::profit(m, y).is_finite(),
        exact::exact_slope(exact_market(m), accuracy::real_of(x)) == 0real,
    ensures
        ({
            let e = exact_market(m);
            let (a, b) = (accuracy::real_of(x), accuracy::real_of(y));
            (accuracy::real_of(math::profit(m, y)) - accuracy::real_of(math::profit(m, x)))
                * 9_007_199_254_740_992real <= tolerance(e, a) + tolerance(e, b)
        }),
{
    let e = exact_market(m);
    lemma_sound(m);
    lemma_between(x, -128, 128);
    lemma_between(y, -128, 128);
    law_profit_is_accurate(m, x);
    law_profit_is_accurate(m, y);
    exact::law_flat_point_is_the_maximum(e, accuracy::real_of(x), accuracy::real_of(y));
}

/// Selling in a pool and buying back in the same one earns nothing, up to
/// rounding.
pub proof fn law_one_pool_never_earns(m: Market, amount: Double)
    requires
        is_regular(m),
        m.sell_sqrt_price == m.buy_sqrt_price,
        m.sell_liquidity == m.buy_liquidity,
        scaling::between(amount, -128, 128),
        math::profit(m, amount).is_finite(),
    ensures
        (accuracy::real_of(math::profit(m, amount)) + accuracy::real_of(m.gas_cost))
            * 9_007_199_254_740_992real <= tolerance(
            exact_market(m),
            accuracy::real_of(amount),
        ),
{
    lemma_sound(m);
    lemma_between(amount, -128, 128);
    law_profit_is_accurate(m, amount);
    exact::law_one_pool_never_earns(exact_market(m), accuracy::real_of(amount));
}

/// The square-root price after `amount` WETH went into a pool without a fee.
pub open spec fn raised_price(sqrt_price: Double, liquidity: Double, amount: Double) -> Double {
    let root = double::quotient(sqrt_price, math::number(Q96));
    double::product(
        math::raised_root(root, liquidity, amount, math::number(ZERO)),
        math::number(Q96),
    )
}

/// Multiplying by 2^96 and dividing by it again changes nothing.
proof fn lemma_raised_price(up: Double)
    requires
        scaling::between(up, -128, 253),
        scaling::between(double::product(up, math::number(Q96)), -32, 224),
    ensures
        exact_root(double::product(up, math::number(Q96))) == accuracy::real_of(up),
{
    let q = math::number(Q96);
    let one = math::number(ONE);
    let high = double::product(up, q);
    scaling::lemma_power(0);
    scaling::lemma_power(-128);
    scaling::lemma_power(253);
    scaling::lemma_power(-32);
    scaling::lemma_power(224);
    assert(q == scaling::shifted(one, 96));
    scaling::lemma_by_one(up);
    scaling::lemma_product_shifted(one, up, 96);
    order::law_product_commutes(q, up);
    assert(high == scaling::shifted(up, 96));
    scaling::lemma_by_one(high);
    scaling::lemma_divisor_shifted(high, one, 96);
    assert(double::quotient(high, q) == up);
    lemma_root(high);
}

/// In a pool without a fee, selling what a swap bought gives back what was paid
/// for it, up to rounding.
#[verifier::rlimit(60)]
pub proof fn law_swap_is_undone(sqrt_price: Double, liquidity: Double, amount: Double)
    requires
        is_regular_pool(sqrt_price, liquidity, math::number(ZERO)),
        is_regular_pool(
            raised_price(sqrt_price, liquidity, amount),
            liquidity,
            math::number(ZERO),
        ),
        scaling::between(amount, -128, 128),
        double::less(
            math::number(ZERO),
            math::usdc_out(sqrt_price, liquidity, amount, math::number(ZERO)),
        ),
    ensures
        ({
            let free = math::number(ZERO);
            let high = raised_price(sqrt_price, liquidity, amount);
            let usdc = math::usdc_out(sqrt_price, liquidity, amount, free);
            let l = accuracy::real_of(liquidity);
            accuracy::within(
                accuracy::real_of(math::weth_out(high, liquidity, usdc, free)),
                accuracy::real_of(amount),
                1real,
                31real * exact_weth_reserve(exact_root(high), l) + 20real * (exact::steepest(
                    exact_root(high),
                    0real,
                ) * exact_usdc_reserve(exact_root(sqrt_price), l)),
            )
        }),
{
    let free = math::number(ZERO);
    let root = double::quotient(sqrt_price, math::number(Q96));
    let up = math::raised_root(root, liquidity, amount, free);
    let high = raised_price(sqrt_price, liquidity, amount);
    let usdc = math::usdc_out(sqrt_price, liquidity, amount, free);
    let a = accuracy::real_of(amount);
    let l = accuracy::real_of(liquidity);
    lemma_root(sqrt_price);
    lemma_raised(root, liquidity, amount, free);
    lemma_between(up, -128, 253);
    lemma_between(liquidity, -64, 192);
    lemma_between(amount, -128, 128);
    lemma_raised_price(up);
    assert(accuracy::real_of(free) == 0real) by {
        double::lemma_parts(free);
        accuracy::lemma_scale();
        accuracy::lemma_real_units(free);
        algebra::lemma_cancel(accuracy::real_of(free), 0real, pow2(1074) as real);
    }
    let (r, s) = (exact_root(sqrt_price), exact_root(high));
    let full = exact::exact_raised_root(r, l, 0real, a);
    law_usdc_out_is_accurate(sqrt_price, liquidity, amount, free);
    assert(double::absolute(usdc) == usdc);
    assert(scaling::between(usdc, -389, 301));
    lemma_between(usdc, -389, 301);
    law_weth_out_is_accurate(high, liquidity, usdc, free);
    let bought = exact::exact_usdc_out(r, l, 0real, a);
    lemma_bought(r, l, a);
    exact::law_swap_is_undone(r, l, a);
    let given = accuracy::real_of(usdc);
    lemma_usdc_held(r, l);
    let reserve = exact_usdc_reserve(r, l);
    let st = exact::steepest(s, 0real);
    lemma_steepest(s, 0real);
    if given <= bought {
        exact::law_weth_out_is_smooth(s, l, 0real, given, bought);
        lemma_drift(st, bought - given, reserve);
    } else {
        exact::law_weth_out_is_smooth(s, l, 0real, bought, given);
        lemma_drift(st, given - bought, reserve);
    }
    if s <= full {
        exact::law_weth_out_follows_the_root(s, full, l, 0real, bought);
    } else {
        exact::law_weth_out_follows_the_root(full, s, l, 0real, bought);
    }
    lemma_rise(s, full, l);
}

/// The USDC that a swap gives are not negative.
proof fn lemma_bought(root: real, liquidity: real, amount: real)
    requires
        root > 0real,
        liquidity > 0real,
        amount >= 0real,
    ensures
        exact::exact_usdc_out(root, liquidity, 0real, amount) >= 0real,
{
    let m = exact::ExactMarket {
        sell_root: root,
        sell_liquidity: liquidity,
        sell_fee: 0real,
        buy_root: 1real,
        buy_liquidity: 1real,
        buy_fee: 0real,
        gas_cost: 0real,
        loan_rate: 0real,
        eth_price: 1real,
    };
    exact::lemma_usdc_positive(m, amount);
}

/// A small rise of the root, in WETH.
proof fn lemma_rise(s: real, full: real, l: real)
    requires
        l > 0real,
        s > 0real,
        full > 0real,
        accuracy::within(s, full, 9real, full),
    ensures
        (l * (full - s) / 1_000_000_000_000_000_000real) * 9_007_199_254_740_992real <= 10real * (l
            * s / 1_000_000_000_000_000_000real),
        (l * (s - full) / 1_000_000_000_000_000_000real) * 9_007_199_254_740_992real <= 10real * (l
            * s / 1_000_000_000_000_000_000real),
{
    assert(accuracy::within(full, s, 10real, s));
    lemma_multiplied(full, s, 10real, s, l);
    algebra::lemma_minus(full, s, l);
    algebra::lemma_minus(s, full, l);
    algebra::identity_exchange(full, l);
    algebra::identity_exchange(s, l);
}

} // verus!
