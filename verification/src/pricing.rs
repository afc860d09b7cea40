//! What holds of prices, swap outputs and profits whatever the numbers are.
use crate::double;
use crate::double::Double;
use crate::math;
use crate::math::{Market, NEGATIVE_INFINITY, ONE, Q96, USDC_UNIT, WETH_UNIT, ZERO};
use crate::order;
use vstd::prelude::*;

verus! {

/// The difference of a number and a smaller one has no sign.
pub(crate) proof fn lemma_difference_unsigned(x: Double, y: Double)
    requires
        order::unsigned(x),
        order::unsigned(y),
        double::less_or_equal(y, x),
        !double::difference(x, y).is_nan(),
    ensures
        order::unsigned(double::difference(x, y)),
{
    reveal(double::sum);
    if x.is_finite() && y.is_finite() {
        order::law_order_follows_values(y, x);
        let minus = double::negation(y);
        assert(minus.magnitude() == y.magnitude());
        assert(minus.value() == -y.value());
    }
}

/// What a fee leaves of one is a part of one.
pub(crate) proof fn lemma_part(fee: Double)
    requires
        order::unsigned(fee),
        double::less_or_equal(fee, math::number(ONE)),
    ensures
        order::unsigned(double::difference(math::number(ONE), fee)),
        double::less_or_equal(
            double::difference(math::number(ONE), fee),
            math::number(ONE),
        ),
{
    reveal(double::sum);
    let one = math::number(ONE);
    let zero = math::number(ZERO);
    lemma_difference_unsigned(one, fee);
    order::law_difference_is_antitone(zero, fee, one);
    let minus = double::negation(zero);
    assert(minus.magnitude() == 0);
    double::lemma_parts(one);
    double::lemma_parts(minus);
    order::law_rounding_is_exact(one);
    assert(double::difference(one, zero) == one);
}

/// A fee between nothing and everything takes from an amount and never adds
/// to it.
pub proof fn law_fee_only_takes(amount: Double, fee: Double)
    requires
        order::unsigned(amount),
        order::unsigned(fee),
        double::less_or_equal(fee, math::number(ONE)),
        !math::after_fee(amount, fee).is_nan(),
    ensures
        double::less_or_equal(math::after_fee(amount, fee), amount),
        order::unsigned(math::after_fee(amount, fee)),
{
    lemma_part(fee);
    order::lemma_one();
    order::law_product_shrinks(amount, double::difference(math::number(ONE), fee));
}

/// WETH that goes into a pool does not lower its square-root price.
pub proof fn law_weth_in_raises_the_root(
    root: Double,
    liquidity: Double,
    amount: Double,
    fee: Double,
)
    requires
        order::unsigned(liquidity),
        order::unsigned(amount),
        order::unsigned(fee),
        double::less_or_equal(fee, math::number(ONE)),
        !math::raised_root(root, liquidity, amount, fee).is_nan(),
    ensures
        double::less_or_equal(root, math::raised_root(root, liquidity, amount, fee)),
        order::unsigned(root) ==> order::unsigned(
            math::raised_root(root, liquidity, amount, fee),
        ),
{
    broadcast use order::group_operands;

    let unit = math::number(WETH_UNIT);
    law_fee_only_takes(amount, fee);
    let rest = math::after_fee(amount, fee);
    order::law_product_is_monotone(rest, rest, unit);
    let raw = double::product(rest, unit);
    order::law_quotient_is_monotone(raw, raw, liquidity);
    order::law_sum_grows(root, double::quotient(raw, liquidity));
}

/// More WETH raises the square-root price no less.
proof fn lemma_raised_root_monotone(
    root: Double,
    liquidity: Double,
    a: Double,
    b: Double,
    fee: Double,
)
    requires
        order::unsigned(liquidity),
        order::unsigned(a),
        order::unsigned(b),
        double::less_or_equal(a, b),
        order::unsigned(fee),
        double::less_or_equal(fee, math::number(ONE)),
        !math::raised_root(root, liquidity, a, fee).is_nan(),
        !math::raised_root(root, liquidity, b, fee).is_nan(),
    ensures
        double::less_or_equal(
            math::raised_root(root, liquidity, a, fee),
            math::raised_root(root, liquidity, b, fee),
        ),
{
    broadcast use order::group_operands;

    let unit = math::number(WETH_UNIT);
    let part = double::difference(math::number(ONE), fee);
    lemma_part(fee);
    order::law_product_is_monotone(a, b, part);
    let (ra, rb) = (math::after_fee(a, fee), math::after_fee(b, fee));
    order::law_product_is_monotone(ra, rb, unit);
    let (wa, wb) = (double::product(ra, unit), double::product(rb, unit));
    order::law_quotient_is_monotone(wa, wb, liquidity);
    let (qa, qb) = (double::quotient(wa, liquidity), double::quotient(wb, liquidity));
    order::law_sum_commutes(root, qa);
    order::law_sum_commutes(root, qb);
    order::law_sum_is_monotone(qa, qb, root);
}

/// A swap never gives a negative amount.
pub proof fn law_swaps_give_nothing_negative(
    sqrt_price: Double,
    liquidity: Double,
    amount: Double,
    fee: Double,
)
    ensures
        !double::less(math::usdc_out(sqrt_price, liquidity, amount, fee), math::number(ZERO)),
        !double::less(math::weth_out(sqrt_price, liquidity, amount, fee), math::number(ZERO)),
{
}

/// A swap of nothing, or in a pool without price or liquidity, gives nothing.
pub proof fn law_nothing_for_nothing(
    sqrt_price: Double,
    liquidity: Double,
    amount: Double,
    fee: Double,
)
    requires
        double::less_or_equal(amount, math::number(ZERO)) || double::less_or_equal(
            sqrt_price,
            math::number(ZERO),
        ) || double::less_or_equal(liquidity, math::number(ZERO)),
    ensures
        math::usdc_out(sqrt_price, liquidity, amount, fee) == math::number(ZERO),
        math::weth_out(sqrt_price, liquidity, amount, fee) == math::number(ZERO),
{
}

/// A swap's output, `liquidity * distance / unit`, for the distance that the
/// price, or its inverse, moves.
#[verifier::opaque]
spec fn output(liquidity: Double, distance: Double, unit: Double) -> Double {
    double::absolute(double::quotient(double::product(liquidity, distance), unit))
}

/// An output that is a number comes from a distance that is one, and has no
/// sign.
proof fn lemma_output(liquidity: Double, distance: Double, unit: Double)
    ensures
        !output(liquidity, distance, unit).is_nan() ==> !distance.is_nan(),
        !output(liquidity, distance, unit).negative(),
{
    reveal(output);
    let moved = double::product(liquidity, distance);
    order::lemma_product_operands(liquidity, distance);
    order::lemma_quotient_operands(moved, unit);
}

/// A longer move gives no smaller output.
proof fn lemma_outputs(liquidity: Double, da: Double, db: Double, unit: Double)
    requires
        order::unsigned(liquidity),
        order::unsigned(da),
        order::unsigned(db),
        order::unsigned(unit),
        double::less_or_equal(da, db),
        !output(liquidity, da, unit).is_nan(),
        !output(liquidity, db, unit).is_nan(),
    ensures
        double::less_or_equal(output(liquidity, da, unit), output(liquidity, db, unit)),
{
    reveal(output);
    let (pa, pb) = (double::product(liquidity, da), double::product(liquidity, db));
    let (qa, qb) = (double::quotient(pa, unit), double::quotient(pb, unit));
    assert(!qa.is_nan() && !qb.is_nan());
    order::lemma_quotient_operands(pa, unit);
    order::lemma_quotient_operands(pb, unit);
    order::law_product_commutes(liquidity, da);
    order::law_product_commutes(liquidity, db);
    order::law_product_is_monotone(da, db, liquidity);
    order::law_quotient_is_monotone(pa, pb, unit);
    assert(double::absolute(qa) == qa);
    assert(double::absolute(qb) == qb);
}

/// How far `amount` WETH lower the inverse of the square-root price.
#[verifier::opaque]
spec fn inverse_distance(root: Double, liquidity: Double, amount: Double, fee: Double) -> Double {
    double::difference(
        double::quotient(math::number(ONE), root),
        double::quotient(
            math::number(ONE),
            math::raised_root(root, liquidity, amount, fee),
        ),
    )
}

/// A distance that is a number comes from roots that are numbers.
proof fn lemma_inverse_operands(root: Double, liquidity: Double, amount: Double, fee: Double)
    requires
        !inverse_distance(root, liquidity, amount, fee).is_nan(),
    ensures
        !root.is_nan(),
        !math::raised_root(root, liquidity, amount, fee).is_nan(),
{
    reveal(inverse_distance);
    let one = math::number(ONE);
    let raised = math::raised_root(root, liquidity, amount, fee);
    let after = double::quotient(one, raised);
    order::lemma_sum_operands(double::quotient(one, root), double::negation(after));
    assert(double::negation(after).magnitude() == after.magnitude());
    order::lemma_quotient_operands(one, root);
    order::lemma_quotient_operands(one, raised);
}

/// More WETH moves the inverse no less far.
proof fn lemma_inverse_distances(
    root: Double,
    liquidity: Double,
    a: Double,
    b: Double,
    fee: Double,
)
    requires
        order::unsigned(root),
        order::unsigned(liquidity),
        order::unsigned(a),
        order::unsigned(b),
        double::less_or_equal(a, b),
        order::unsigned(fee),
        double::less_or_equal(fee, math::number(ONE)),
        !inverse_distance(root, liquidity, a, fee).is_nan(),
        !inverse_distance(root, liquidity, b, fee).is_nan(),
    ensures
        order::unsigned(inverse_distance(root, liquidity, a, fee)),
        order::unsigned(inverse_distance(root, liquidity, b, fee)),
        double::less_or_equal(
            inverse_distance(root, liquidity, a, fee),
            inverse_distance(root, liquidity, b, fee),
        ),
{
    let one = math::number(ONE);
    let up_a = math::raised_root(root, liquidity, a, fee);
    let up_b = math::raised_root(root, liquidity, b, fee);
    lemma_inverse_operands(root, liquidity, a, fee);
    lemma_inverse_operands(root, liquidity, b, fee);
    lemma_raised_root_monotone(root, liquidity, a, b, fee);
    law_weth_in_raises_the_root(root, liquidity, a, fee);
    law_weth_in_raises_the_root(root, liquidity, b, fee);
    reveal(inverse_distance);
    let inv = double::quotient(one, root);
    let inv_a = double::quotient(one, up_a);
    let inv_b = double::quotient(one, up_b);
    order::lemma_sum_operands(inv, double::negation(inv_a));
    order::lemma_sum_operands(inv, double::negation(inv_b));
    assert(double::negation(inv_a).magnitude() == inv_a.magnitude());
    assert(double::negation(inv_b).magnitude() == inv_b.magnitude());
    order::law_quotient_is_antitone(root, up_a, one);
    order::law_quotient_is_antitone(root, up_b, one);
    order::law_quotient_is_antitone(up_a, up_b, one);
    order::law_difference_is_antitone(inv_b, inv_a, inv);
    lemma_difference_unsigned(inv, inv_a);
    lemma_difference_unsigned(inv, inv_b);
}

/// The USDC output, taken apart.
proof fn lemma_usdc_out(sqrt_price: Double, liquidity: Double, amount: Double, fee: Double)
    ensures
        ({
            let zero = math::number(ZERO);
            let root = double::quotient(sqrt_price, math::number(Q96));
            let out = math::usdc_out(sqrt_price, liquidity, amount, fee);
            if double::less_or_equal(sqrt_price, zero) || double::less_or_equal(liquidity, zero)
                || double::less_or_equal(amount, zero) || double::less_or_equal(
                math::raised_root(root, liquidity, amount, fee),
                zero,
            ) {
                out == zero
            } else {
                out == output(
                    liquidity,
                    inverse_distance(root, liquidity, amount, fee),
                    math::number(USDC_UNIT),
                )
            }
        }),
{
    reveal(output);
    reveal(inverse_distance);
}

/// More WETH buys no less USDC.
pub proof fn law_more_weth_buys_no_less_usdc(
    sqrt_price: Double,
    liquidity: Double,
    a: Double,
    b: Double,
    fee: Double,
)
    requires
        double::less_or_equal(a, b),
        order::unsigned(fee),
        double::less_or_equal(fee, math::number(ONE)),
        !math::usdc_out(sqrt_price, liquidity, a, fee).is_nan(),
        !math::usdc_out(sqrt_price, liquidity, b, fee).is_nan(),
    ensures
        double::less_or_equal(
            math::usdc_out(sqrt_price, liquidity, a, fee),
            math::usdc_out(sqrt_price, liquidity, b, fee),
        ),
{
    let zero = math::number(ZERO);
    let q = math::number(Q96);
    let unit = math::number(USDC_UNIT);
    let root = double::quotient(sqrt_price, q);
    let up_a = math::raised_root(root, liquidity, a, fee);
    let up_b = math::raised_root(root, liquidity, b, fee);
    let (da, db) = (
        inverse_distance(root, liquidity, a, fee),
        inverse_distance(root, liquidity, b, fee),
    );
    lemma_usdc_out(sqrt_price, liquidity, a, fee);
    lemma_usdc_out(sqrt_price, liquidity, b, fee);
    lemma_output(liquidity, da, unit);
    lemma_output(liquidity, db, unit);
    if !double::less_or_equal(sqrt_price, zero) && !double::less_or_equal(liquidity, zero)
        && !double::less_or_equal(a, zero) && !double::less_or_equal(up_a, zero) {
        lemma_inverse_operands(root, liquidity, a, fee);
        lemma_raised_operands(root, liquidity, a, fee);
        order::lemma_quotient_operands(sqrt_price, q);
        order::law_quotient_is_monotone(sqrt_price, sqrt_price, q);
        if !up_b.is_nan() {
            lemma_raised_root_monotone(root, liquidity, a, b, fee);
        }
        assert(!double::less_or_equal(up_b, zero));
        lemma_inverse_distances(root, liquidity, a, b, fee);
        lemma_outputs(liquidity, da, db, unit);
    }
}

/// The USDC that a pool holds: `liquidity * (1 / root) / 10^6`.
pub open spec fn usdc_reserve(sqrt_price: Double, liquidity: Double) -> Double {
    let root = double::quotient(sqrt_price, math::number(Q96));
    double::quotient(
        double::product(liquidity, double::quotient(math::number(ONE), root)),
        math::number(USDC_UNIT),
    )
}

/// A number less nothing.
pub(crate) proof fn lemma_less_nothing(x: Double)
    requires
        order::unsigned(x),
    ensures
        double::difference(x, math::number(ZERO)) == x,
{
    reveal(double::sum);
    let minus = double::negation(math::number(ZERO));
    assert(minus.magnitude() == 0);
    double::lemma_parts(minus);
    if x.is_finite() {
        double::lemma_parts(x);
        order::law_rounding_is_exact(x);
    }
}

/// What a pool holds is a number without a sign.
proof fn lemma_reserve(sqrt_price: Double, liquidity: Double)
    requires
        double::less(math::number(ZERO), sqrt_price),
        double::less(math::number(ZERO), liquidity),
        liquidity.is_finite(),
    ensures
        ({
            let root = double::quotient(sqrt_price, math::number(Q96));
            &&& order::unsigned(root)
            &&& order::unsigned(double::quotient(math::number(ONE), root))
            &&& order::unsigned(usdc_reserve(sqrt_price, liquidity))
        }),
{
    let one = math::number(ONE);
    let q = math::number(Q96);
    let unit = math::number(USDC_UNIT);
    let root = double::quotient(sqrt_price, q);
    let inverse = double::quotient(one, root);
    order::lemma_quotient_operands(sqrt_price, q);
    order::law_quotient_is_monotone(sqrt_price, sqrt_price, q);
    assert(!inverse.is_nan()) by {
        reveal(double::quotient);
        order::lemma_quotient_operands(one, root);
    }
    order::law_quotient_is_monotone(one, one, root);
    let held = double::product(liquidity, inverse);
    assert(!held.is_nan()) by {
        reveal(double::product);
    }
    order::law_product_commutes(liquidity, inverse);
    order::law_product_is_monotone(inverse, inverse, liquidity);
    order::lemma_quotient_operands(held, unit);
    order::law_quotient_is_monotone(held, held, unit);
}

/// A swap never gives more USDC than the pool holds.
#[verifier::rlimit(60)]
pub proof fn law_swap_gives_no_more_than_the_reserve(
    sqrt_price: Double,
    liquidity: Double,
    amount: Double,
    fee: Double,
)
    requires
        double::less(math::number(ZERO), sqrt_price),
        double::less(math::number(ZERO), liquidity),
        liquidity.is_finite(),
        order::unsigned(fee),
        double::less_or_equal(fee, math::number(ONE)),
        !math::usdc_out(sqrt_price, liquidity, amount, fee).is_nan(),
    ensures
        double::less_or_equal(
            math::usdc_out(sqrt_price, liquidity, amount, fee),
            usdc_reserve(sqrt_price, liquidity),
        ),
{
    let zero = math::number(ZERO);
    let unit = math::number(USDC_UNIT);
    let root = double::quotient(sqrt_price, math::number(Q96));
    let inverse = double::quotient(math::number(ONE), root);
    let reserve = usdc_reserve(sqrt_price, liquidity);
    lemma_reserve(sqrt_price, liquidity);
    let raised = math::raised_root(root, liquidity, amount, fee);
    let distance = inverse_distance(root, liquidity, amount, fee);
    lemma_usdc_out(sqrt_price, liquidity, amount, fee);
    lemma_output(liquidity, distance, unit);
    if !double::less_or_equal(amount, zero) && !double::less_or_equal(raised, zero) {
        lemma_inverse_operands(root, liquidity, amount, fee);
        lemma_raised_operands(root, liquidity, amount, fee);
        lemma_inverse_distances(root, liquidity, amount, amount, fee);
        law_weth_in_raises_the_root(root, liquidity, amount, fee);
        assert(double::less_or_equal(distance, inverse)) by {
            reveal(inverse_distance);
            lemma_distance_below_inverse(root, raised);
        }
        assert(output(liquidity, inverse, unit) == reserve) by {
            reveal(output);
            assert(double::absolute(reserve) == reserve);
        }
        lemma_outputs(liquidity, distance, inverse, unit);
    }
}

/// The inverse falls by no more than itself.
pub(crate) proof fn lemma_distance_below_inverse(root: Double, raised: Double)
    requires
        order::unsigned(root),
        order::unsigned(raised),
        !double::difference(
            double::quotient(math::number(ONE), root),
            double::quotient(math::number(ONE), raised),
        ).is_nan(),
    ensures
        double::less_or_equal(
            double::difference(
                double::quotient(math::number(ONE), root),
                double::quotient(math::number(ONE), raised),
            ),
            double::quotient(math::number(ONE), root),
        ),
{
    let one = math::number(ONE);
    let inverse = double::quotient(one, root);
    let after = double::quotient(one, raised);
    order::lemma_sum_operands(inverse, double::negation(after));
    assert(double::negation(after).magnitude() == after.magnitude());
    order::law_quotient_is_monotone(one, one, root);
    order::law_quotient_is_monotone(one, one, raised);
    lemma_less_nothing(inverse);
    order::law_difference_is_antitone(math::number(ZERO), after, inverse);
}

/// A raised root that is a number comes from a liquidity that is one.
proof fn lemma_raised_operands(root: Double, liquidity: Double, amount: Double, fee: Double)
    requires
        !math::raised_root(root, liquidity, amount, fee).is_nan(),
    ensures
        !liquidity.is_nan(),
        !amount.is_nan(),
{
    broadcast use order::group_operands;

}

/// The square-root price of a pool after `amount` USDC went in.
pub open spec fn lowered_root(
    root: Double,
    liquidity: Double,
    amount: Double,
    fee: Double,
) -> Double {
    double::quotient(
        double::product(liquidity, root),
        math::deepened(root, liquidity, amount, fee),
    )
}

/// More USDC lowers the square-root price no less.
pub proof fn law_usdc_in_lowers_the_root(
    root: Double,
    liquidity: Double,
    a: Double,
    b: Double,
    fee: Double,
)
    requires
        order::unsigned(root),
        order::unsigned(liquidity),
        order::unsigned(a),
        order::unsigned(b),
        double::less_or_equal(a, b),
        order::unsigned(fee),
        double::less_or_equal(fee, math::number(ONE)),
        !lowered_root(root, liquidity, a, fee).is_nan(),
        !lowered_root(root, liquidity, b, fee).is_nan(),
    ensures
        double::less_or_equal(
            lowered_root(root, liquidity, b, fee),
            lowered_root(root, liquidity, a, fee),
        ),
        order::unsigned(lowered_root(root, liquidity, a, fee)),
        order::unsigned(lowered_root(root, liquidity, b, fee)),
        order::unsigned(math::deepened(root, liquidity, b, fee)),
        double::less_or_equal(liquidity, math::deepened(root, liquidity, a, fee)),
{
    broadcast use order::group_operands;

    let unit = math::number(USDC_UNIT);
    let part = double::difference(math::number(ONE), fee);
    lemma_part(fee);
    order::law_product_is_monotone(a, b, part);
    let (ra, rb) = (math::after_fee(a, fee), math::after_fee(b, fee));
    order::law_product_is_monotone(ra, rb, unit);
    let (wa, wb) = (double::product(ra, unit), double::product(rb, unit));
    order::law_product_is_monotone(wa, wb, root);
    let (xa, xb) = (double::product(wa, root), double::product(wb, root));
    order::law_sum_commutes(liquidity, xa);
    order::law_sum_commutes(liquidity, xb);
    order::law_sum_is_monotone(xa, xb, liquidity);
    order::law_sum_grows(liquidity, xa);
    order::law_sum_grows(liquidity, xb);
    order::law_product_is_monotone(liquidity, liquidity, root);
    order::law_quotient_is_antitone(
        math::deepened(root, liquidity, a, fee),
        math::deepened(root, liquidity, b, fee),
        double::product(liquidity, root),
    );
}

/// How far `amount` USDC lower the square-root price.
#[verifier::opaque]
spec fn root_distance(root: Double, liquidity: Double, amount: Double, fee: Double) -> Double {
    double::difference(root, lowered_root(root, liquidity, amount, fee))
}

/// A distance that is a number comes from roots that are numbers.
proof fn lemma_root_operands(root: Double, liquidity: Double, amount: Double, fee: Double)
    requires
        !root_distance(root, liquidity, amount, fee).is_nan(),
    ensures
        !root.is_nan(),
        !liquidity.is_nan(),
        !lowered_root(root, liquidity, amount, fee).is_nan(),
        !math::deepened(root, liquidity, amount, fee).is_nan(),
{
    reveal(root_distance);
    let low = lowered_root(root, liquidity, amount, fee);
    order::lemma_sum_operands(root, double::negation(low));
    assert(double::negation(low).magnitude() == low.magnitude());
    order::lemma_quotient_operands(
        double::product(liquidity, root),
        math::deepened(root, liquidity, amount, fee),
    );
    order::lemma_product_operands(liquidity, root);
}

/// The WETH output, taken apart.
proof fn lemma_weth_out(sqrt_price: Double, liquidity: Double, amount: Double, fee: Double)
    ensures
        ({
            let zero = math::number(ZERO);
            let root = double::quotient(sqrt_price, math::number(Q96));
            let out = math::weth_out(sqrt_price, liquidity, amount, fee);
            if double::less_or_equal(sqrt_price, zero) || double::less_or_equal(liquidity, zero)
                || double::less_or_equal(amount, zero) || double::less_or_equal(
                math::deepened(root, liquidity, amount, fee),
                zero,
            ) {
                out == zero
            } else {
                out == output(
                    liquidity,
                    root_distance(root, liquidity, amount, fee),
                    math::number(WETH_UNIT),
                )
            }
        }),
{
    reveal(output);
    reveal(root_distance);
}

/// More USDC buys no less WETH, unless rounding has the smaller of the two
/// amounts seem to raise the price.
pub proof fn law_more_usdc_buys_no_less_weth(
    sqrt_price: Double,
    liquidity: Double,
    a: Double,
    b: Double,
    fee: Double,
)
    requires
        double::less_or_equal(a, b),
        order::unsigned(fee),
        double::less_or_equal(fee, math::number(ONE)),
        !math::weth_out(sqrt_price, liquidity, a, fee).is_nan(),
        !math::weth_out(sqrt_price, liquidity, b, fee).is_nan(),
        ({
            let root = double::quotient(sqrt_price, math::number(Q96));
            !double::less(root, lowered_root(root, liquidity, a, fee))
        }),
    ensures
        double::less_or_equal(
            math::weth_out(sqrt_price, liquidity, a, fee),
            math::weth_out(sqrt_price, liquidity, b, fee),
        ),
{
    let zero = math::number(ZERO);
    let q = math::number(Q96);
    let unit = math::number(WETH_UNIT);
    let root = double::quotient(sqrt_price, q);
    let deep_a = math::deepened(root, liquidity, a, fee);
    let deep_b = math::deepened(root, liquidity, b, fee);
    let (da, db) = (
        root_distance(root, liquidity, a, fee),
        root_distance(root, liquidity, b, fee),
    );
    lemma_weth_out(sqrt_price, liquidity, a, fee);
    lemma_weth_out(sqrt_price, liquidity, b, fee);
    lemma_output(liquidity, da, unit);
    lemma_output(liquidity, db, unit);
    if !double::less_or_equal(sqrt_price, zero) && !double::less_or_equal(liquidity, zero)
        && !double::less_or_equal(a, zero) && !double::less_or_equal(deep_a, zero) {
        lemma_root_operands(root, liquidity, a, fee);
        order::lemma_quotient_operands(sqrt_price, q);
        order::law_quotient_is_monotone(sqrt_price, sqrt_price, q);
        if !deep_b.is_nan() {
            lemma_deepened_grows(root, liquidity, b, fee);
        }
        assert(!double::less_or_equal(deep_b, zero));
        lemma_root_operands(root, liquidity, b, fee);
        law_usdc_in_lowers_the_root(root, liquidity, a, b, fee);
        reveal(root_distance);
        lemma_root_distances(
            root,
            lowered_root(root, liquidity, a, fee),
            lowered_root(root, liquidity, b, fee),
        );
        lemma_outputs(liquidity, da, db, unit);
    }
}

/// A lower root is further away.
proof fn lemma_root_distances(root: Double, low_a: Double, low_b: Double)
    requires
        order::unsigned(root),
        order::unsigned(low_a),
        order::unsigned(low_b),
        double::less_or_equal(low_b, low_a),
        double::less_or_equal(low_a, root),
        !double::difference(root, low_a).is_nan(),
        !double::difference(root, low_b).is_nan(),
    ensures
        order::unsigned(double::difference(root, low_a)),
        order::unsigned(double::difference(root, low_b)),
        double::less_or_equal(
            double::difference(root, low_a),
            double::difference(root, low_b),
        ),
{
    order::law_difference_is_antitone(low_b, low_a, root);
    lemma_difference_unsigned(root, low_a);
    lemma_difference_unsigned(root, low_b);
}

/// The denominator of the lowered price is no smaller than the liquidity.
proof fn lemma_deepened_grows(root: Double, liquidity: Double, amount: Double, fee: Double)
    requires
        order::unsigned(root),
        order::unsigned(liquidity),
        order::unsigned(amount),
        order::unsigned(fee),
        double::less_or_equal(fee, math::number(ONE)),
        !math::deepened(root, liquidity, amount, fee).is_nan(),
    ensures
        double::less_or_equal(liquidity, math::deepened(root, liquidity, amount, fee)),
{
    broadcast use order::group_operands;

    let unit = math::number(USDC_UNIT);
    law_fee_only_takes(amount, fee);
    let rest = math::after_fee(amount, fee);
    order::law_product_is_monotone(rest, rest, unit);
    let raw = double::product(rest, unit);
    order::law_product_is_monotone(raw, raw, root);
    order::law_sum_grows(liquidity, double::product(raw, root));
}

/// Powers of numbers of at least one are such numbers.
proof fn lemma_large_power(base: Double, exponent: nat, acc: Double)
    requires
        double::less_or_equal(double::of_nat(1), base),
        double::less_or_equal(double::of_nat(1), acc),
    ensures
        double::less_or_equal(double::of_nat(1), math::squared_power(base, exponent, acc)),
    decreases exponent,
{
    order::law_product_of_large_is_large(acc, base);
    if exponent >= 2 {
        order::law_product_of_large_is_large(base, base);
        let next = if exponent % 2 == 1 {
            double::product(acc, base)
        } else {
            acc
        };
        lemma_large_power(double::product(base, base), exponent / 2, next);
    }
}

/// Powers of ten have no sign.
proof fn lemma_power_of_ten_unsigned(exponent: int)
    ensures
        order::unsigned(math::power_of_ten(exponent)),
{
    let one = math::number(ONE);
    order::lemma_one();
    let size = if exponent < 0 {
        (-exponent) as nat
    } else {
        exponent as nat
    };
    lemma_large_power(math::number(math::TEN), size, one);
    let power = math::squared_power(math::number(math::TEN), size, one);
    if exponent < 0 {
        order::lemma_quotient_operands(one, power);
        order::law_quotient_is_monotone(one, one, power);
    }
}

/// A price is never negative, and 0 where the square-root price is not above
/// 0.
pub proof fn law_price_is_not_negative(sqrt_price: Double, decimals0: u8, decimals1: u8)
    ensures
        double::less_or_equal(sqrt_price, math::number(ZERO)) ==> math::eth_price(
            sqrt_price,
            decimals0,
            decimals1,
        ) == math::number(ZERO),
        !double::less(math::eth_price(sqrt_price, decimals0, decimals1), math::number(ZERO)),
{
    broadcast use order::group_operands;

    let one = math::number(ONE);
    let root = double::quotient(sqrt_price, math::number(Q96));
    let power = math::power_of_ten(decimals0 - decimals1);
    let square = double::product(root, root);
    let adjusted = double::product(square, power);
    lemma_power_of_ten_unsigned(decimals0 - decimals1);
    if !double::less_or_equal(sqrt_price, math::number(ZERO)) && !adjusted.is_nan()
        && !adjusted.is_zero() {
        order::law_quotient_is_monotone(sqrt_price, sqrt_price, math::number(Q96));
        order::law_product_is_monotone(root, root, root);
        order::law_product_is_monotone(square, square, power);
        order::law_quotient_is_monotone(one, one, adjusted);
    }
}

/// A higher square-root price means no higher price of ETH where token0 has
/// fewer decimals, and no lower one otherwise, as long as the price does not
/// vanish.
pub proof fn law_price_follows_the_root(low: Double, high: Double, decimals0: u8, decimals1: u8)
    requires
        double::less(math::number(ZERO), low),
        double::less_or_equal(low, high),
        double::less(math::number(ZERO), math::eth_price(low, decimals0, decimals1)),
        !math::eth_price(high, decimals0, decimals1).is_nan(),
    ensures
        decimals0 < decimals1 ==> double::less_or_equal(
            math::eth_price(high, decimals0, decimals1),
            math::eth_price(low, decimals0, decimals1),
        ),
        decimals0 >= decimals1 ==> double::less_or_equal(
            math::eth_price(low, decimals0, decimals1),
            math::eth_price(high, decimals0, decimals1),
        ),
{
    broadcast use order::group_operands;

    let one = math::number(ONE);
    let q = math::number(Q96);
    let power = math::power_of_ten(decimals0 - decimals1);
    lemma_power_of_ten_unsigned(decimals0 - decimals1);
    let (ra, rb) = (double::quotient(low, q), double::quotient(high, q));
    order::law_quotient_is_monotone(low, high, q);
    let (sa, sb) = (double::product(ra, ra), double::product(rb, rb));
    let (xa, xb) = (double::product(sa, power), double::product(sb, power));
    assert(!xa.is_nan() && !xa.is_zero());
    lemma_squares(ra, rb);
    if xb.is_nan() {
        assert(!xb.is_zero());
        assert(math::eth_price(high, decimals0, decimals1).is_nan());
    }
    order::law_product_is_monotone(sa, sb, power);
    assert(!xb.is_zero());
    order::law_quotient_is_antitone(xa, xb, one);
}

/// Squares are ordered as their roots are.
proof fn lemma_squares(x: Double, y: Double)
    requires
        order::unsigned(x),
        order::unsigned(y),
        double::less_or_equal(x, y),
        !double::product(x, x).is_nan(),
        !double::product(y, y).is_nan(),
    ensures
        double::less_or_equal(double::product(x, x), double::product(y, y)),
        order::unsigned(double::product(x, x)),
        order::unsigned(double::product(y, y)),
{
    if double::product(x, y).is_nan() {
        reveal(double::product);
        assert(x.is_zero() && y.is_infinite());
    } else {
        order::law_product_commutes(x, y);
        order::law_product_is_monotone(x, y, x);
        order::law_product_is_monotone(x, y, y);
    }
}

/// A trade that gets nothing through is a loss without bound.
pub proof fn law_no_trade_no_profit(m: Market, amount: Double)
    requires
        double::less_or_equal(amount, math::number(ZERO)) || double::less_or_equal(
            m.sell_liquidity,
            math::number(ZERO),
        ) || double::less_or_equal(m.sell_sqrt_price, math::number(ZERO))
            || double::less_or_equal(m.buy_liquidity, math::number(ZERO))
            || double::less_or_equal(m.buy_sqrt_price, math::number(ZERO)),
    ensures
        math::profit(m, amount) == math::number(NEGATIVE_INFINITY),
{
    reveal(math::profit);
    assert(double::less_or_equal(math::number(ZERO), math::number(ZERO)));
}

/// Dearer gas makes no trade more profitable.
pub proof fn law_gas_only_costs(m: Market, gas: Double, amount: Double)
    requires
        double::less_or_equal(m.gas_cost, gas),
        !math::profit(m, amount).is_nan(),
        !math::profit(Market { gas_cost: gas, ..m }, amount).is_nan(),
    ensures
        double::less_or_equal(
            math::profit(Market { gas_cost: gas, ..m }, amount),
            math::profit(m, amount),
        ),
{
    reveal(math::profit);
    let usdc = math::usdc_out(m.sell_sqrt_price, m.sell_liquidity, amount, m.sell_fee);
    let weth = math::weth_out(m.buy_sqrt_price, m.buy_liquidity, usdc, m.buy_fee);
    let rate = double::quotient(m.loan_fee_bps, math::number(math::BASIS_POINTS));
    let repaid = double::product(amount, double::sum(math::number(ONE), rate));
    let gross = double::product(double::difference(weth, repaid), m.eth_price);
    if !(double::less_or_equal(amount, math::number(ZERO)) || double::less_or_equal(
        usdc,
        math::number(ZERO),
    ) || double::less_or_equal(weth, math::number(ZERO))) {
        order::law_difference_is_antitone(m.gas_cost, gas, gross);
    }
}

} // verus!
