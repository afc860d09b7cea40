//! How close the computed slopes are to what profits differ by.
use crate::accuracy;
use crate::algebra;
use crate::double;
use crate::double::Double;
use crate::exact;
use crate::fidelity;
use crate::math;
use crate::math::{
    Market, FIRST_STEP, FIRST_STEP_FLOOR, ONE, SECOND_STEP, SECOND_STEP_FLOOR, TWO,
};
use crate::order;
use crate::scaling;
use vstd::arithmetic::power2::*;
use vstd::prelude::*;

verus! {

/// Whether a number is off from one part of one by no more than 2^-53 of it.
pub open spec fn is_nearest_part(x: Double, parts: real) -> bool {
    accuracy::within(accuracy::real_of(x), 1real / parts, 1real, 1real / parts)
}

/// A constant that is nearest to a part of one: it has `significand * 2^k`
/// units, and one is `2^(k + j)` units.
pub(crate) proof fn lemma_nearest_part(x: Double, significand: nat, k: nat, j: nat, parts: nat)
    requires
        !x.negative(),
        x.significand() == significand,
        x.spacing() == k,
        k + j == 1074,
        parts > 0,
        9_007_199_254_740_992 * (significand * parts - pow2(j)) <= pow2(j),
        9_007_199_254_740_992 * (pow2(j) - significand * parts) <= pow2(j),
    ensures
        is_nearest_part(x, parts as real),
{
    let d = pow2(1074);
    let t = d as real;
    let g = pow2(k);
    let n = parts as real;
    let r = accuracy::real_of(x);
    accuracy::lemma_scale();
    accuracy::lemma_real_units(x);
    lemma_pow2_adds(j, k);
    lemma_pow2_pos(k);
    let off = significand * parts - pow2(j);
    accuracy::lemma_cast_product(x.units() as int, parts);
    algebra::lemma_multiple(n, r * t, x.units() as real);
    assert((r * n) * t == (r * t) * n) by (nonlinear_arith);
    let e = x.units() * parts - d;
    assert(e == off * g) by (nonlinear_arith)
        requires
            e == (significand * g) * parts - pow2(j) * g,
            off == significand * parts - pow2(j),
    ;
    assert(9_007_199_254_740_992 * e <= d && -(9_007_199_254_740_992 * e) <= d) by (nonlinear_arith)
        requires
            e == off * g,
            d == pow2(j) * g,
            g > 0,
            9_007_199_254_740_992 * off <= pow2(j),
            -(9_007_199_254_740_992 * off) <= pow2(j),
    ;
    algebra::lemma_minus(r * n, 1real, t);
    accuracy::lemma_bounded(r * n - 1real, 1real, t, e, d as int);
    let i = 1real / n;
    fidelity::lemma_inverse(1real, n);
    fidelity::lemma_multiplied(r * n, 1real, 1real, 1real, i);
    assert((r * n) * i == r * (i * n)) by (nonlinear_arith);
    algebra::lemma_multiple(r, i * n, 1real);
}

/// The steps of the derivatives are nearest to 10^-7, 10^-10, 10^-5 and 10^-8.
pub proof fn law_steps_are_accurate()
    ensures
        is_nearest_part(math::number(FIRST_STEP), 10_000_000real),
        is_nearest_part(math::number(FIRST_STEP_FLOOR), 10_000_000_000real),
        is_nearest_part(math::number(SECOND_STEP), 100_000real),
        is_nearest_part(math::number(SECOND_STEP_FLOOR), 100_000_000real),
{
    lemma2_to64();
    lemma2_to64_rest();
    lemma_pow2_adds(60, 16);
    lemma_pow2_adds(60, 26);
    lemma_pow2_adds(60, 9);
    lemma_pow2_adds(60, 19);
    lemma_nearest_part(math::number(FIRST_STEP), 7_555_786_372_591_432, 998, 76, 10_000_000);
    lemma_nearest_part(
        math::number(FIRST_STEP_FLOOR),
        7_737_125_245_533_627,
        988,
        86,
        10_000_000_000,
    );
    lemma_nearest_part(math::number(SECOND_STEP), 5_902_958_103_587_057, 1005, 69, 100_000);
    lemma_nearest_part(
        math::number(SECOND_STEP_FLOOR),
        6_044_629_098_073_146,
        995,
        79,
        100_000_000,
    );
}

/// The larger one of a part of an amount and a least step.
pub open spec fn exact_step(amount: real, parts: real, least: real) -> real {
    if amount / parts < 1real / least {
        1real / least
    } else {
        amount / parts
    }
}

/// The step of a derivative.
proof fn lemma_step(x: Double, part: Double, floor: Double, parts: nat, least: nat)
    requires
        scaling::between(x, -14, 128),
        scaling::between(part, -24, -16),
        scaling::between(floor, -34, -26),
        parts > 0,
        least > 0,
        is_nearest_part(part, parts as real),
        is_nearest_part(floor, least as real),
    ensures
        ({
            let h = double::larger(double::product(x, part), floor);
            let step = exact_step(accuracy::real_of(x), parts as real, least as real);
            &&& scaling::between(h, -38, 112)
            &&& step > 0real
            &&& accuracy::within(accuracy::real_of(h), step, 3real, step)
        }),
{
    let p = double::product(x, part);
    let a = accuracy::real_of(x);
    scaling::lemma_product_between(x, part, -14, 128, -24, -16);
    fidelity::lemma_between(x, -14, 128);
    fidelity::lemma_between(part, -24, -16);
    fidelity::lemma_between(floor, -34, -26);
    fidelity::lemma_between(p, -38, 112);
    fidelity::lemma_widened(floor, -34, -26, -38, 112);
    accuracy::law_product_is_accurate(x, part);
    fidelity::lemma_inverse(a, parts as real);
    fidelity::lemma_inverse(1real, least as real);
    let i = 1real / parts as real;
    algebra::lemma_product_positive(a, i);
    algebra::lemma_product_positive(a, accuracy::real_of(part));
    fidelity::lemma_multiplied(accuracy::real_of(part), i, 1real, i, a);
    algebra::identity_exchange(a, i);
    algebra::identity_exchange(a, accuracy::real_of(part));
    assert(accuracy::within(accuracy::real_of(p), a * i, 3real, a * i));
    order::law_order_follows_values(p, floor);
    accuracy::lemma_real_units(p);
    accuracy::lemma_real_units(floor);
    accuracy::lemma_scale();
    let t = pow2(1074) as real;
    if double::less(p, floor) {
        algebra::lemma_cancel(accuracy::real_of(p), accuracy::real_of(floor), t);
    } else {
        algebra::lemma_cancel(accuracy::real_of(floor), accuracy::real_of(p), t);
    }
}

/// Twice a number.
proof fn lemma_twice(h: Double)
    requires
        scaling::between(h, -38, 112),
    ensures
        ({
            let w = double::product(math::number(TWO), h);
            &&& scaling::between(w, -37, 113)
            &&& accuracy::real_of(w) == 2real * accuracy::real_of(h)
        }),
{
    let one = math::number(ONE);
    let two = math::number(TWO);
    let w = double::product(two, h);
    scaling::lemma_power(0);
    scaling::lemma_power(1);
    scaling::lemma_power(-38);
    scaling::lemma_power(-37);
    scaling::lemma_power(112);
    scaling::lemma_power(113);
    assert(two == scaling::shifted(one, 1));
    scaling::lemma_by_one(h);
    scaling::lemma_product_shifted(one, h, 1);
    assert(w == scaling::shifted(h, 1));
    scaling::lemma_shifted(h, 1);
    lemma2_to64();
    accuracy::lemma_real_units(h);
    accuracy::lemma_real_units(w);
    accuracy::lemma_scale();
    let t = pow2(1074) as real;
    let r = accuracy::real_of(h);
    assert((2real * r) * t == 2real * (r * t)) by (nonlinear_arith);
    algebra::lemma_cancel(accuracy::real_of(w), 2real * r, t);
    algebra::lemma_cancel(2real * r, accuracy::real_of(w), t);
}

/// A difference over twice a step.
proof fn lemma_difference_quotient(u: Double, v: Double, h: Double)
    requires
        scaling::between(h, -38, 112),
        u.is_finite(),
        v.is_finite(),
        fidelity::is_sized(double::difference(u, v), -800, 800),
    ensures
        ({
            let ratio = double::quotient(
                double::difference(u, v),
                double::product(math::number(TWO), h),
            );
            let change = accuracy::real_of(u) - accuracy::real_of(v);
            &&& ratio.is_finite()
            &&& accuracy::within(
                accuracy::real_of(ratio) * (2real * accuracy::real_of(h)),
                change,
                3real,
                accuracy::size(change),
            )
        }),
{
    let d = double::difference(u, v);
    let w = double::product(math::number(TWO), h);
    let ratio = double::quotient(d, w);
    lemma_twice(h);
    fidelity::lemma_between(w, -37, 113);
    assert(d.is_finite()) by {
        if !d.is_zero() {
            fidelity::lemma_between(double::absolute(d), -800, 800);
            assert(double::absolute(d).magnitude() == d.magnitude());
        }
    }
    fidelity::lemma_net(u, v);
    fidelity::lemma_quotient_sized(d, w, -800, 800, -37, 113);
    let (x, y) = (accuracy::real_of(d), accuracy::real_of(w));
    let q = x / y;
    fidelity::lemma_multiplied(accuracy::real_of(ratio), q, 1real, accuracy::size(q), y);
    algebra::lemma_quotient_back(x, y);
    assert(accuracy::size(q) * y == accuracy::size(x)) by {
        if x >= 0real {
            algebra::lemma_cancel(0real, q, y);
        } else {
            algebra::lemma_cancel(q, 0real, y);
        }
        algebra::lemma_minus(0real, q, y);
    }
}

/// The slope is what the profits at both ends of a step differ by, over twice
/// the step: 10^-7 of the trade size, and no less than 10^-10.
pub proof fn law_slope_is_the_change_of_profit(m: Market, amount: Double, h: Double)
    requires
        scaling::between(amount, -14, 128),
        h == double::larger(
            double::product(amount, math::number(FIRST_STEP)),
            math::number(FIRST_STEP_FLOOR),
        ),
        math::profit(m, double::sum(amount, h)).is_finite(),
        math::profit(m, double::difference(amount, h)).is_finite(),
        fidelity::is_sized(
            double::difference(
                math::profit(m, double::sum(amount, h)),
                math::profit(m, double::difference(amount, h)),
            ),
            -800,
            800,
        ),
    ensures
        ({
            let step = exact_step(accuracy::real_of(amount), 10_000_000real, 10_000_000_000real);
            let change = accuracy::real_of(math::profit(m, double::sum(amount, h)))
                - accuracy::real_of(math::profit(m, double::difference(amount, h)));
            let slope = math::slope(m, amount);
            &&& accuracy::within(accuracy::real_of(h), step, 3real, step)
            &&& slope.is_finite()
            &&& accuracy::within(
                accuracy::real_of(slope) * (2real * accuracy::real_of(h)),
                change,
                3real,
                accuracy::size(change),
            )
        }),
{
    reveal(math::slope);
    lemma_first_step(amount);
    lemma_difference_quotient(
        math::profit(m, double::sum(amount, h)),
        math::profit(m, double::difference(amount, h)),
        h,
    );
}

/// The step of the slope.
proof fn lemma_first_step(amount: Double)
    requires
        scaling::between(amount, -14, 128),
    ensures
        ({
            let h = double::larger(
                double::product(amount, math::number(FIRST_STEP)),
                math::number(FIRST_STEP_FLOOR),
            );
            let step = exact_step(accuracy::real_of(amount), 10_000_000real, 10_000_000_000real);
            &&& scaling::between(h, -38, 112)
            &&& step > 0real
            &&& accuracy::within(accuracy::real_of(h), step, 3real, step)
        }),
{
    law_steps_are_accurate();
    scaling::lemma_power(-24);
    scaling::lemma_power(-16);
    scaling::lemma_power(-34);
    scaling::lemma_power(-26);
    lemma_step(
        amount,
        math::number(FIRST_STEP),
        math::number(FIRST_STEP_FLOOR),
        10_000_000,
        10_000_000_000,
    );
}

/// The step of the curvature.
proof fn lemma_second_step(amount: Double)
    requires
        scaling::between(amount, -14, 128),
    ensures
        ({
            let h = double::larger(
                double::product(amount, math::number(SECOND_STEP)),
                math::number(SECOND_STEP_FLOOR),
            );
            let step = exact_step(accuracy::real_of(amount), 100_000real, 100_000_000real);
            &&& scaling::between(h, -38, 112)
            &&& step > 0real
            &&& accuracy::within(accuracy::real_of(h), step, 3real, step)
        }),
{
    law_steps_are_accurate();
    scaling::lemma_power(-24);
    scaling::lemma_power(-16);
    scaling::lemma_power(-34);
    scaling::lemma_power(-26);
    lemma_step(
        amount,
        math::number(SECOND_STEP),
        math::number(SECOND_STEP_FLOOR),
        100_000,
        100_000_000,
    );
}

/// The curvature is what the slopes at both ends of a step differ by, over twice
/// the step: 10^-5 of the trade size, and no less than 10^-8.
pub proof fn law_curvature_is_the_change_of_slope(m: Market, amount: Double, h: Double)
    requires
        scaling::between(amount, -14, 128),
        h == double::larger(
            double::product(amount, math::number(SECOND_STEP)),
            math::number(SECOND_STEP_FLOOR),
        ),
        math::slope(m, double::sum(amount, h)).is_finite(),
        math::slope(m, double::difference(amount, h)).is_finite(),
        fidelity::is_sized(
            double::difference(
                math::slope(m, double::sum(amount, h)),
                math::slope(m, double::difference(amount, h)),
            ),
            -800,
            800,
        ),
    ensures
        ({
            let step = exact_step(accuracy::real_of(amount), 100_000real, 100_000_000real);
            let change = accuracy::real_of(math::slope(m, double::sum(amount, h)))
                - accuracy::real_of(math::slope(m, double::difference(amount, h)));
            let curvature = math::curvature(m, amount);
            &&& accuracy::within(accuracy::real_of(h), step, 3real, step)
            &&& curvature.is_finite()
            &&& accuracy::within(
                accuracy::real_of(curvature) * (2real * accuracy::real_of(h)),
                change,
                3real,
                accuracy::size(change),
            )
        }),
{
    reveal(math::curvature);
    lemma_second_step(amount);
    lemma_difference_quotient(
        math::slope(m, double::sum(amount, h)),
        math::slope(m, double::difference(amount, h)),
        h,
    );
}

/// What the computed profits at both ends of a step differ by lies between the
/// slopes of the exact profit at these ends, times their distance, up to
/// rounding. So the computed slope is no further from the exact one than the
/// exact one changes within the step, and rounding allows.
pub proof fn law_slope_lies_between_the_exact_ones(m: Market, amount: Double, h: Double)
    requires
        fidelity::is_regular(m),
        scaling::between(amount, -14, 128),
        h == double::larger(
            double::product(amount, math::number(FIRST_STEP)),
            math::number(FIRST_STEP_FLOOR),
        ),
        scaling::between(double::sum(amount, h), -128, 128),
        scaling::between(double::difference(amount, h), -128, 128),
        math::profit(m, double::sum(amount, h)).is_finite(),
        math::profit(m, double::difference(amount, h)).is_finite(),
        fidelity::is_sized(
            double::difference(
                math::profit(m, double::sum(amount, h)),
                math::profit(m, double::difference(amount, h)),
            ),
            -800,
            800,
        ),
    ensures
        ({
            let e = fidelity::exact_market(m);
            let big = 9_007_199_254_740_992real;
            let above = accuracy::real_of(double::sum(amount, h));
            let below = accuracy::real_of(double::difference(amount, h));
            let change = accuracy::real_of(math::profit(m, double::sum(amount, h)))
                - accuracy::real_of(math::profit(m, double::difference(amount, h)));
            let slack = fidelity::tolerance(e, above) + fidelity::tolerance(e, below);
            &&& (exact::exact_slope(e, above) * (above - below) - change) * big <= slack
            &&& (change - exact::exact_slope(e, below) * (above - below)) * big <= slack
            &&& accuracy::within(
                accuracy::real_of(math::slope(m, amount)) * (2real * accuracy::real_of(h)),
                change,
                3real,
                accuracy::size(change),
            )
        }),
{
    let e = fidelity::exact_market(m);
    let (u, v) = (double::sum(amount, h), double::difference(amount, h));
    let (above, below) = (accuracy::real_of(u), accuracy::real_of(v));
    law_slope_is_the_change_of_profit(m, amount, h);
    fidelity::law_computed_profit_is_concave(m, u, v);
    fidelity::law_computed_profit_is_concave(m, v, u);
    algebra::lemma_minus(below, above, exact::exact_slope(e, above));
    algebra::lemma_minus(above, below, exact::exact_slope(e, above));
}

} // verus!
