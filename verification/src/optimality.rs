//! By how much another trade size can beat the one that a search gives.
use crate::accuracy;
use crate::algebra;
use crate::double;
use crate::double::Double;
use crate::exact;
use crate::fidelity;
use crate::math;
use crate::math::{Market, BASIS_POINTS, ONE, ZERO};
use crate::order;
use crate::pricing;
use crate::rounding;
use crate::scaling;
use crate::search;
use crate::search::{FLAT, MIN_AMOUNT, SCAN_STEPS, TOLERANCE};
use crate::steepness;
use crate::valuation;
use vstd::arithmetic::mul::*;
use vstd::arithmetic::power2::*;
use vstd::prelude::*;

verus! {

/// Whether the largest trade size leaves a range: from the smallest one to
/// 2^127 WETH.
pub open spec fn is_range(max_amount: Double) -> bool {
    double::less_or_equal(math::number(MIN_AMOUNT), max_amount) && double::less_or_equal(
        max_amount,
        scaling::power(127),
    )
}

/// The smallest and the largest trade size lie between powers of two.
proof fn lemma_range(max_amount: Double)
    requires
        is_range(max_amount),
    ensures
        scaling::between(math::number(MIN_AMOUNT), -14, -13),
        scaling::between(max_amount, -14, 127),
        math::number(MIN_AMOUNT).bits <= max_amount.bits,
{
    scaling::lemma_power(-14);
    scaling::lemma_power(-13);
    scaling::lemma_power(127);
}

/// A step of the scan is a part of one.
proof fn lemma_fraction(i: nat)
    requires
        1 <= i <= SCAN_STEPS,
    ensures
        ({
            let fraction = double::quotient(double::of_nat(i), double::of_nat(SCAN_STEPS as nat));
            order::unsigned(fraction) && double::less_or_equal(fraction, double::of_nat(1))
        }),
{
    let d = pow2(1074);
    lemma_pow2_pos(1074);
    let (one, part, whole) = (
        double::of_nat(1),
        double::of_nat(i),
        double::of_nat(SCAN_STEPS as nat),
    );
    let most = scaling::power(5);
    scaling::lemma_power(5);
    order::lemma_one();
    lemma2_to64();
    lemma_pow2_adds(5, 1074);
    lemma_mul_inequality(1, i as int, d as int);
    lemma_mul_inequality(i as int, SCAN_STEPS as int, d as int);
    lemma_mul_inequality(SCAN_STEPS as int, 32, d as int);
    fidelity::lemma_rounded_below(1 * d, i * d);
    fidelity::lemma_rounded_below(i * d, SCAN_STEPS as nat * d);
    fidelity::lemma_rounded_below(SCAN_STEPS as nat * d, most.units());
    order::law_rounding_is_exact(most);
    assert(one.bits <= part.bits <= whole.bits <= most.bits);
    order::lemma_quotient_operands(part, whole);
    order::lemma_quotient_operands(whole, whole);
    order::law_quotient_is_monotone(part, whole, whole);
    assert(double::quotient(whole, whole) == one) by {
        reveal(double::quotient);
        double::lemma_parts(whole);
        let u = whole.units();
        lemma_mul_basics(u as int);
        lemma_mul_basics(d as int);
        lemma_mul_is_commutative(u as int, d as int);
        rounding::lemma_round_scaled(d, 1, u);
    }
}

/// The trade sizes of the scan stay far from the limits of their format.
proof fn lemma_scanned(max_amount: Double, i: nat)
    requires
        is_range(max_amount),
        1 <= i <= SCAN_STEPS,
    ensures
        scaling::between(search::scan_amount(max_amount, i), -14, 128),
{
    let low = math::number(MIN_AMOUNT);
    let zero = math::number(ZERO);
    let top = scaling::power(127);
    lemma_range(max_amount);
    lemma_fraction(i);
    fidelity::lemma_between(low, -14, -13);
    fidelity::lemma_between(max_amount, -14, 127);
    scaling::lemma_power(127);
    scaling::lemma_power(128);
    scaling::lemma_power(-14);
    let fraction = double::quotient(double::of_nat(i), double::of_nat(SCAN_STEPS as nat));
    let room = double::difference(max_amount, low);
    assert(!room.is_nan()) by {
        reveal(double::sum);
    }
    pricing::lemma_difference_unsigned(max_amount, low);
    pricing::lemma_less_nothing(max_amount);
    order::law_difference_is_antitone(zero, low, max_amount);
    assert(room.bits <= max_amount.bits);
    order::lemma_one();
    assert(fraction.is_finite());
    let once = double::product(room, fraction);
    scaling::lemma_finite_product(room, fraction);
    order::law_product_shrinks(room, fraction);
    let twice = double::product(once, fraction);
    scaling::lemma_finite_product(once, fraction);
    order::law_product_shrinks(once, fraction);
    assert(twice.bits <= top.bits);
    fidelity::lemma_power_doubled(127);
    fidelity::lemma_sum_ordered(low, top, twice, top);
}

/// The smallest trade, the length below which a step ends a search and the
/// curvature below which no step is taken are nearest to 10^-4, 10^-8 and 10^-20.
pub proof fn law_limits_of_a_search_are_accurate()
    ensures
        steepness::is_nearest_part(math::number(MIN_AMOUNT), 10_000real),
        steepness::is_nearest_part(math::number(TOLERANCE), 100_000_000real),
        steepness::is_nearest_part(math::number(FLAT), 100_000_000_000_000_000_000real),
{
    lemma2_to64();
    lemma2_to64_rest();
    lemma_pow2_adds(60, 6);
    lemma_pow2_adds(60, 19);
    lemma_pow2_adds(60, 59);
    steepness::lemma_nearest_part(
        math::number(MIN_AMOUNT),
        7_378_697_629_483_821,
        1008,
        66,
        10_000,
    );
    steepness::lemma_nearest_part(
        math::number(TOLERANCE),
        6_044_629_098_073_146,
        995,
        79,
        100_000_000,
    );
    steepness::lemma_nearest_part(
        math::number(FLAT),
        6_646_139_978_924_579,
        955,
        119,
        100_000_000_000_000_000_000,
    );
}

/// A step of the scan, as a part of one.
proof fn lemma_exact_fraction(i: nat)
    requires
        1 <= i <= 20,
    ensures
        ({
            let fraction = double::quotient(double::of_nat(i), double::of_nat(20));
            let part = i as real / 20real;
            &&& scaling::between(fraction, -5, 1)
            &&& part > 0real
            &&& accuracy::within(accuracy::real_of(fraction), part, 1real, part)
        }),
{
    let (x, y) = (double::of_nat(i), double::of_nat(20));
    accuracy::law_small_integers_are_exact(i);
    accuracy::law_small_integers_are_exact(20);
    accuracy::lemma_of_nat_units(i);
    accuracy::lemma_of_nat_units(20);
    let d = pow2(1074);
    lemma_pow2_pos(1074);
    lemma2_to64();
    lemma_pow2_adds(4, 1074);
    lemma_pow2_adds(5, 1074);
    scaling::lemma_power(0);
    scaling::lemma_power(4);
    scaling::lemma_power(5);
    lemma_mul_inequality(1, i as int, d as int);
    lemma_mul_inequality(i as int, 32, d as int);
    order::law_magnitudes_follow_values(scaling::power(0), x);
    order::law_magnitudes_follow_values(x, scaling::power(5));
    order::law_magnitudes_follow_values(scaling::power(4), y);
    order::law_magnitudes_follow_values(y, scaling::power(5));
    assert(scaling::between(x, 0, 5) && scaling::between(y, 4, 5));
    scaling::lemma_quotient_between(x, y, 0, 5, 4, 5);
    let fraction = double::quotient(x, y);
    fidelity::lemma_between(x, 0, 5);
    fidelity::lemma_between(y, 4, 5);
    fidelity::lemma_between(fraction, -5, 1);
    accuracy::law_quotient_is_accurate(x, y);
}

/// The scan reaches from the smallest trade size to the largest one in squares
/// of twentieths.
pub proof fn law_scan_grows_with_the_square(max_amount: Double, i: nat)
    requires
        is_range(max_amount),
        1 <= i <= 20,
    ensures
        ({
            let low = accuracy::real_of(math::number(MIN_AMOUNT));
            let room = accuracy::real_of(max_amount) - low;
            let full = low + room * (i as real / 20real) * (i as real / 20real);
            &&& room >= 0real
            &&& full > 0real
            &&& accuracy::within(
                accuracy::real_of(search::scan_amount(max_amount, i)),
                full,
                9real,
                full,
            )
        }),
{
    let least = math::number(MIN_AMOUNT);
    let fraction = double::quotient(double::of_nat(i), double::of_nat(20));
    let span = double::difference(max_amount, least);
    let once = double::product(span, fraction);
    let twice = double::product(once, fraction);
    let (low, part) = (accuracy::real_of(least), i as real / 20real);
    let room = accuracy::real_of(max_amount) - low;
    lemma_range(max_amount);
    lemma_scanned(max_amount, i);
    lemma_exact_fraction(i);
    fidelity::lemma_widened(least, -14, -13, -14, 127);
    fidelity::lemma_between(least, -14, 127);
    fidelity::lemma_between(max_amount, -14, 127);
    fidelity::lemma_between(fraction, -5, 1);
    fidelity::lemma_difference_sized(max_amount, least, -14, 127);
    fidelity::lemma_net(max_amount, least);
    lemma_room(max_amount);
    pricing::lemma_difference_unsigned(max_amount, least);
    accuracy::lemma_real_units(span);
    order::law_product_commutes(span, fraction);
    fidelity::lemma_product_sized(fraction, span, -5, 1, -66, 127);
    order::law_product_commutes(once, fraction);
    fidelity::lemma_product_sized(fraction, once, -5, 1, -71, 128);
    let amount = search::scan_amount(max_amount, i);
    fidelity::lemma_between(amount, -14, 128);
    accuracy::law_sum_is_accurate(least, twice);
    let (s, f, o, t) = (
        accuracy::real_of(span),
        accuracy::real_of(fraction),
        accuracy::real_of(once),
        accuracy::real_of(twice),
    );
    algebra::identity_exchange(f, s);
    algebra::identity_exchange(f, o);
    assert(o >= 0real) by {
        assert(!once.negative()) by {
            reveal(double::product);
        }
        accuracy::lemma_real_units(once);
    }
    lemma_scan_distance(low, room, part, s, f, o, t, accuracy::real_of(amount));
}

/// The same distance in numbers.
proof fn lemma_scan_distance(
    low: real,
    room: real,
    part: real,
    s: real,
    f: real,
    o: real,
    t: real,
    amount: real,
)
    requires
        low > 0real,
        room >= 0real,
        part > 0real,
        s >= 0real,
        f > 0real,
        o >= 0real,
        accuracy::within(s, room, 1real, accuracy::size(room)),
        accuracy::within(f, part, 1real, part),
        accuracy::within(o, s * f, 1real, accuracy::size(s * f)),
        accuracy::within(t, o * f, 1real, accuracy::size(o * f)),
        accuracy::within(amount, low + t, 1real, accuracy::size(low + t)),
    ensures
        ({
            let full = low + room * part * part;
            full > 0real && accuracy::within(amount, full, 9real, full)
        }),
{
    let one: nat = 1;
    let four: nat = 4;
    assert(one as real == 1real && four as real == 4real && (one + one + 2) as real == 4real && (
    four + one + 2) as real == 7real);
    algebra::lemma_product_monotone(0real, s, 0real, f);
    valuation::lemma_close_product(s, room, one, f, part, one, o);
    algebra::lemma_product_monotone(0real, room, 0real, part);
    algebra::lemma_product_monotone(0real, o, 0real, f);
    valuation::lemma_close_product(o, room * part, four, f, part, one, t);
    let square = room * part * part;
    algebra::lemma_product_monotone(0real, room * part, 0real, part);
    lemma_scan_end(low, square, t, amount);
}

/// The last sum of a scanned size.
proof fn lemma_scan_end(low: real, square: real, t: real, amount: real)
    requires
        low > 0real,
        square >= 0real,
        accuracy::within(t, square, 7real, square),
        accuracy::within(amount, low + t, 1real, accuracy::size(low + t)),
    ensures
        accuracy::within(amount, low + square, 9real, low + square),
{
}

/// The range is not empty.
proof fn lemma_room(max_amount: Double)
    requires
        is_range(max_amount),
    ensures
        accuracy::real_of(max_amount) >= accuracy::real_of(math::number(MIN_AMOUNT)),
{
    let low = math::number(MIN_AMOUNT);
    lemma_range(max_amount);
    fidelity::lemma_between(low, -14, -13);
    fidelity::lemma_between(max_amount, -14, 127);
    order::law_order_follows_values(low, max_amount);
    accuracy::lemma_real_units(low);
    accuracy::lemma_real_units(max_amount);
    accuracy::lemma_scale();
    algebra::lemma_cancel(
        accuracy::real_of(low),
        accuracy::real_of(max_amount),
        pow2(1074) as real,
    );
}

/// A trade size whose profit is a number is one.
proof fn lemma_number(m: Market, amount: Double)
    requires
        math::profit(m, amount).is_finite(),
    ensures
        !amount.is_nan(),
        amount != math::number(ZERO),
{
    if amount == math::number(ZERO) {
        pricing::law_no_trade_no_profit(m, amount);
    }
    let usdc = math::usdc_out(m.sell_sqrt_price, m.sell_liquidity, amount, m.sell_fee);
    let weth = math::weth_out(m.buy_sqrt_price, m.buy_liquidity, usdc, m.buy_fee);
    let rate = double::quotient(m.loan_fee_bps, math::number(BASIS_POINTS));
    let whole = double::sum(math::number(ONE), rate);
    let repaid = double::product(amount, whole);
    let minus = double::negation(repaid);
    let left = double::difference(weth, repaid);
    let gross = double::product(left, m.eth_price);
    let net = double::difference(gross, m.gas_cost);
    assert(math::profit(m, amount) == net) by {
        reveal(math::profit);
    }
    order::lemma_sum_operands(gross, double::negation(m.gas_cost));
    order::lemma_product_operands(left, m.eth_price);
    order::lemma_sum_operands(weth, minus);
    assert(minus.magnitude() == repaid.magnitude());
    order::lemma_product_operands(amount, whole);
}

/// The trade size that a search gives stays far from the limits of its format.
proof fn lemma_found(m: Market, max_amount: Double)
    requires
        is_range(max_amount),
        search::viable(m, max_amount),
        search::optimum(m, max_amount).expected_profit.is_finite(),
    ensures
        ({
            let found = search::optimum(m, max_amount);
            &&& scaling::between(found.optimal_amount, -128, 128)
            &&& found.expected_profit == math::profit(m, found.optimal_amount)
        }),
{
    let amount = search::optimum(m, max_amount).optimal_amount;
    search::law_search_is_bounded(m, max_amount);
    search::law_amount_is_scanned_or_allowed(m, max_amount);
    lemma_number(m, amount);
    lemma_range(max_amount);
    if search::is_scanned(max_amount, amount) {
        let i = choose|i: nat|
            1 <= i <= SCAN_STEPS && amount == #[trigger] search::scan_amount(max_amount, i);
        lemma_scanned(max_amount, i);
        fidelity::lemma_widened(amount, -14, 128, -128, 128);
    } else {
        assert(search::is_allowed(max_amount, amount));
        assert(scaling::between(amount, -14, 127)) by {
            scaling::lemma_power(-14);
            scaling::lemma_power(127);
        }
        fidelity::lemma_widened(amount, -14, 127, -128, 128);
    }
}

/// No trade size beats the one that a search gives by more than the slope that
/// is left there makes up for, and rounding allows.
pub proof fn law_search_is_beaten_by_its_slope_only(m: Market, max_amount: Double, y: Double)
    requires
        fidelity::is_regular(m),
        is_range(max_amount),
        search::viable(m, max_amount),
        search::optimum(m, max_amount).expected_profit.is_finite(),
        scaling::between(y, -128, 128),
        math::profit(m, y).is_finite(),
    ensures
        ({
            let found = search::optimum(m, max_amount);
            let e = fidelity::exact_market(m);
            let (a, b) = (accuracy::real_of(found.optimal_amount), accuracy::real_of(y));
            (accuracy::real_of(math::profit(m, y)) - accuracy::real_of(found.expected_profit)
                - exact::exact_slope(e, a) * (b - a)) * 9_007_199_254_740_992real
                <= fidelity::tolerance(e, a) + fidelity::tolerance(e, b)
        }),
{
    lemma_found(m, max_amount);
    let found = search::optimum(m, max_amount);
    fidelity::law_computed_profit_is_concave(m, found.optimal_amount, y);
}

/// Where the exact profit does not rise from the trade size that a search gives
/// towards another one, that other one does not beat it by more than rounding
/// allows. So it is of every other size where the profit is flat there, of the
/// smaller ones where it still rises, and of the larger ones where it falls.
pub proof fn law_search_is_not_beaten(m: Market, max_amount: Double, y: Double)
    requires
        fidelity::is_regular(m),
        is_range(max_amount),
        search::viable(m, max_amount),
        search::optimum(m, max_amount).expected_profit.is_finite(),
        scaling::between(y, -128, 128),
        math::profit(m, y).is_finite(),
        ({
            let a = accuracy::real_of(search::optimum(m, max_amount).optimal_amount);
            exact::exact_slope(fidelity::exact_market(m), a) * (accuracy::real_of(y) - a) <= 0real
        }),
    ensures
        ({
            let found = search::optimum(m, max_amount);
            let e = fidelity::exact_market(m);
            let (a, b) = (accuracy::real_of(found.optimal_amount), accuracy::real_of(y));
            (accuracy::real_of(math::profit(m, y)) - accuracy::real_of(found.expected_profit))
                * 9_007_199_254_740_992real <= fidelity::tolerance(e, a) + fidelity::tolerance(e, b)
        }),
{
    law_search_is_beaten_by_its_slope_only(m, max_amount, y);
}

/// A difference that is a number is one of numbers.
proof fn lemma_finite_ends(after: Double, before: Double)
    requires
        double::difference(after, before).is_finite(),
    ensures
        after.is_finite(),
        before.is_finite(),
{
    reveal(double::sum);
    assert(double::negation(before).magnitude() == before.magnitude());
}

/// A short step, in numbers.
proof fn lemma_short(gone: Double)
    requires
        double::less(double::absolute(gone), math::number(TOLERANCE)),
    ensures
        gone.is_finite(),
        accuracy::size(accuracy::real_of(gone)) <= accuracy::real_of(math::number(TOLERANCE)),
{
    let tol = math::number(TOLERANCE);
    assert(double::absolute(gone).magnitude() == gone.magnitude());
    fidelity::lemma_absolute(gone);
    accuracy::law_comparison_is_that_of_the_values(double::absolute(gone), tol);
}

/// How far a step that ends within the range goes.
proof fn lemma_last_step(before: Double, part: Double)
    requires
        ({
            let after = double::difference(before, part);
            double::less(
                double::absolute(double::difference(after, before)),
                math::number(TOLERANCE),
            )
        }),
    ensures
        ({
            let after = accuracy::real_of(double::difference(before, part));
            (accuracy::size(accuracy::real_of(part)) - 2real / 100_000_000real)
                * 9_007_199_254_740_992real <= 2real * accuracy::size(after)
        }),
{
    let after = double::difference(before, part);
    let gone = double::difference(after, before);
    lemma_short(gone);
    lemma_finite_ends(after, before);
    fidelity::lemma_net(after, before);
    fidelity::lemma_net(before, part);
    law_limits_of_a_search_are_accurate();
    lemma_step_length(
        accuracy::real_of(before),
        accuracy::real_of(part),
        accuracy::real_of(after),
        accuracy::real_of(gone),
        accuracy::real_of(math::number(TOLERANCE)),
    );
}

/// The same length in numbers.
proof fn lemma_step_length(before: real, part: real, after: real, gone: real, tol: real)
    requires
        accuracy::within(after, before - part, 1real, accuracy::size(before - part)),
        accuracy::within(gone, after - before, 1real, accuracy::size(after - before)),
        accuracy::size(gone) <= tol,
        accuracy::within(tol, 1real / 100_000_000real, 1real, 1real / 100_000_000real),
    ensures
        (accuracy::size(part) - 2real / 100_000_000real) * 9_007_199_254_740_992real <= 2real
            * accuracy::size(after),
{
}

/// A search that has converged within its range has no step left: the slope
/// over the curvature, where its last step began, is less than 2 * 10^-8 WETH,
/// up to the rounding of the size that it gives.
pub proof fn law_converged_search_has_no_step_left(m: Market, max_amount: Double)
    requires
        search::optimum(m, max_amount).converged,
        search::optimum(m, max_amount).optimal_amount != math::number(MIN_AMOUNT),
        search::optimum(m, max_amount).optimal_amount != max_amount,
    ensures
        exists|before: Double|
            {
                let amount = search::optimum(m, max_amount).optimal_amount;
                &&& #[trigger] search::is_short(before, search::optimum(
                    m,
                    max_amount,
                ).optimal_amount)
                &&& (accuracy::size(
                    accuracy::real_of(
                        double::quotient(math::slope(m, before), math::curvature(m, before)),
                    ),
                ) - 2real / 100_000_000real) * 9_007_199_254_740_992real <= 2real * accuracy::size(
                    accuracy::real_of(amount),
                )
            },
{
    let amount = search::optimum(m, max_amount).optimal_amount;
    search::law_search_is_bounded(m, max_amount);
    let before = choose|before: Double|
        #[trigger] search::is_last_step(m, max_amount, before, amount);
    assert(search::is_last_step(m, max_amount, before, amount));
    let part = double::quotient(math::slope(m, before), math::curvature(m, before));
    assert(amount == double::difference(before, part));
    lemma_last_step(before, part);
    assert(search::is_short(before, amount));
}

/// A search finds a trade wherever one size of the scan goes through: where the
/// dear pool gives USDC for it and the cheap pool gives WETH for them.
pub proof fn law_search_finds_a_trade_where_the_pools_pay(m: Market, max_amount: Double, i: nat)
    requires
        fidelity::is_regular(m),
        fidelity::is_sized(m.gas_cost, -1022, 1000),
        is_range(max_amount),
        1 <= i <= 20,
        ({
            let amount = search::scan_amount(max_amount, i);
            let usdc = math::usdc_out(m.sell_sqrt_price, m.sell_liquidity, amount, m.sell_fee);
            let weth = math::weth_out(m.buy_sqrt_price, m.buy_liquidity, usdc, m.buy_fee);
            double::less(math::number(ZERO), usdc) && double::less(math::number(ZERO), weth)
        }),
    ensures
        search::viable(m, max_amount),
{
    let amount = search::scan_amount(max_amount, i);
    lemma_scanned(max_amount, i);
    fidelity::lemma_widened(amount, -14, 128, -128, 128);
    fidelity::law_profit_is_a_number_where_the_pools_pay(m, amount);
    search::law_search_gives_up_only_without_a_trade(m, max_amount);
    assert(double::less(math::number(math::NEGATIVE_INFINITY), math::profit(m, amount)));
}

} // verus!
