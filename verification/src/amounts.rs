//! What the whole numbers of wei in an order stand for.
use crate::accuracy;
use crate::algebra;
use crate::double;
use crate::double::Double;
use crate::fidelity;
use crate::math;
use crate::math::WETH_UNIT;
use crate::order;
use crate::rounding;
use crate::rounding::INFINITY_BITS;
use crate::scaling;
use crate::strategy;
use crate::types::{ArbitrageOpportunity, BotConfig, PoolConfig};
use vstd::arithmetic::div_mod::*;
use vstd::arithmetic::mul::*;
use vstd::arithmetic::power2::*;
use vstd::prelude::*;

verus! {

/// Whether a whole number is the whole part of `exact`, up to `k` roundings.
pub open spec fn is_whole_part(whole: nat, exact: real, k: real) -> bool {
    &&& (whole as real - exact) * 9_007_199_254_740_992real <= k * exact
    &&& (exact - (whole as real + 1real)) * 9_007_199_254_740_992real < k * exact
}

/// The units of a number in wei.
proof fn lemma_wei_product(amount: Double)
    requires
        amount.is_finite(),
        !amount.negative(),
    ensures
        ({
            let p = double::product(amount, math::number(WETH_UNIT));
            &&& !p.negative()
            &&& !p.is_nan()
            &&& p.magnitude() == rounding::round(
                amount.units() * 1_000_000_000_000_000_000,
                1,
            )
        }),
{
    reveal(double::product);
    let unit = math::number(WETH_UNIT);
    let d = pow2(1074);
    let u = amount.units();
    fidelity::lemma_weth_unit();
    lemma_pow2_pos(1074);
    assert(u * (1_000_000_000_000_000_000 * d) == (u * 1_000_000_000_000_000_000) * d)
        by (nonlinear_arith);
    lemma_mul_basics(d as int);
    rounding::lemma_round_scaled(u * 1_000_000_000_000_000_000, 1, d);
}

/// An amount in wei, before its fraction is cut off.
proof fn lemma_wei_accurate(amount: Double)
    requires
        amount.is_finite(),
        !amount.negative(),
        accuracy::real_of(amount) * 1_000_000_000_000_000_000real
            < 340_282_366_920_938_463_463_374_607_431_768_211_456real,
    ensures
        ({
            let p = double::product(amount, math::number(WETH_UNIT));
            let full = accuracy::real_of(amount) * 1_000_000_000_000_000_000real;
            &&& p.is_finite()
            &&& !p.negative()
            &&& accuracy::real_of(p) <= 340_282_366_920_938_463_463_374_607_431_768_211_456real
            &&& accuracy::within(accuracy::real_of(p), full, 1real, full)
        }),
{
    let p = double::product(amount, math::number(WETH_UNIT));
    let d = pow2(1074);
    let t = d as real;
    let u = amount.units();
    let n = u * 1_000_000_000_000_000_000;
    let top = scaling::power(128);
    let limit = 340_282_366_920_938_463_463_374_607_431_768_211_456nat;
    lemma_wei_product(amount);
    accuracy::lemma_scale();
    accuracy::lemma_real_units(amount);
    let full = accuracy::real_of(amount) * 1_000_000_000_000_000_000real;
    assert(full * t == n as real) by {
        assert((accuracy::real_of(amount) * 1_000_000_000_000_000_000real) * t == (
        accuracy::real_of(amount) * t) * 1_000_000_000_000_000_000real) by (nonlinear_arith);
    }
    scaling::lemma_power(128);
    assert(top.units() == limit * d) by {
        lemma2_to64();
        lemma2_to64_rest();
        lemma_pow2_adds(64, 64);
        lemma_pow2_adds(128, 1074);
    }
    accuracy::lemma_cast_product(limit as int, d);
    algebra::lemma_product_monotone(full, limit as real, t, t);
    assert(n <= top.units());
    fidelity::lemma_rounded_below(n, top.units());
    order::law_rounding_is_exact(top);
    accuracy::lemma_round_error(n, 1);
    assert(p.units() == (Double { bits: rounding::round(n, 1) as u64 }).units());
    lemma_mul_basics(p.units() as int);
    accuracy::lemma_real_units(p);
    algebra::lemma_minus(accuracy::real_of(p), full, t);
    accuracy::lemma_bounded(
        accuracy::real_of(p) - full,
        full,
        t,
        p.units() as int - n as int,
        n as int,
    );
    order::law_magnitudes_follow_values(p, top);
    algebra::lemma_cancel(accuracy::real_of(p), limit as real, t);
}

/// A number between 0 and 2^128 loses what is behind its point.
pub proof fn law_truncation_keeps_the_whole_part(p: Double)
    requires
        p.is_finite(),
        !p.negative(),
        accuracy::real_of(p) < 340_282_366_920_938_463_463_374_607_431_768_211_456real,
    ensures
        double::truncated(p) as real <= accuracy::real_of(p) < double::truncated(p) as real + 1real,
{
    lemma_truncated(p);
}

/// A number between 0 and 2^128, cut off behind the point.
proof fn lemma_truncated(p: Double)
    requires
        p.is_finite(),
        !p.negative(),
        accuracy::real_of(p) <= 340_282_366_920_938_463_463_374_607_431_768_211_456real,
    ensures
        ({
            let w = double::truncated(p) as real;
            &&& w <= accuracy::real_of(p) <= w + 1real
            &&& accuracy::real_of(p) == w + 1real ==> accuracy::real_of(p)
                == 340_282_366_920_938_463_463_374_607_431_768_211_456real
        }),
{
    let d = pow2(1074);
    let t = d as real;
    let limit = 340_282_366_920_938_463_463_374_607_431_768_211_456nat;
    accuracy::lemma_scale();
    lemma_pow2_pos(1074);
    accuracy::lemma_real_units(p);
    let r = accuracy::real_of(p);
    let q = p.units() / d;
    lemma_fundamental_div_mod(p.units() as int, d as int);
    lemma_mul_is_commutative(d as int, q as int);
    lemma_mul_is_distributive_add_other_way(d as int, q as int, 1);
    accuracy::lemma_cast_product(q as int, d);
    accuracy::lemma_cast_product((q + 1) as int, d);
    algebra::lemma_cancel(q as real, r, t);
    assert(r < (q + 1) as real) by {
        if r >= (q + 1) as real {
            algebra::lemma_product_monotone((q + 1) as real, r, t, t);
        }
    }
    assert(q <= limit);
}

/// An order's amount is the whole part of the trade size in wei, up to one
/// rounding: for every size that is no negative number and has less than 2^128
/// wei.
pub proof fn law_order_holds_the_trade_size(
    config: BotConfig,
    pools: Seq<PoolConfig>,
    opportunity: ArbitrageOpportunity,
)
    requires
        config.executes(),
        opportunity.optimal_amount_weth.is_finite(),
        !opportunity.optimal_amount_weth.negative(),
        accuracy::real_of(opportunity.optimal_amount_weth) * 1_000_000_000_000_000_000real
            < 340_282_366_920_938_463_463_374_607_431_768_211_456real,
    ensures
        ({
            let order = strategy::order_for(config, pools, opportunity).unwrap();
            is_whole_part(
                order.amount_in_wei as nat,
                accuracy::real_of(opportunity.optimal_amount_weth)
                    * 1_000_000_000_000_000_000real,
                1real,
            )
        }),
{
    law_wei_is_the_whole_part(opportunity.optimal_amount_weth);
}

/// An amount in wei is the whole part of the amount times 10^18, up to one
/// rounding.
pub proof fn law_wei_is_the_whole_part(amount: Double)
    requires
        amount.is_finite(),
        !amount.negative(),
        accuracy::real_of(amount) * 1_000_000_000_000_000_000real
            < 340_282_366_920_938_463_463_374_607_431_768_211_456real,
    ensures
        is_whole_part(
            strategy::wei(amount) as nat,
            accuracy::real_of(amount) * 1_000_000_000_000_000_000real,
            1real,
        ),
{
    let p = double::product(amount, math::number(WETH_UNIT));
    lemma_wei_accurate(amount);
    lemma_truncated(p);
    accuracy::lemma_real_units(amount);
}

/// An amount of 2^128 wei or more is confined to 2^128 - 1; one below zero, or
/// that is no number, is none.
pub proof fn law_wei_is_confined(amount: Double)
    ensures
        amount.is_nan() || amount.negative() ==> strategy::wei(amount) == 0,
        amount == (Double { bits: INFINITY_BITS }) ==> strategy::wei(amount) == u128::MAX,
        amount.is_finite() && accuracy::real_of(amount) * 1_000_000_000_000_000_000real
            >= 340_282_366_920_938_463_463_374_607_431_768_211_456real ==> strategy::wei(amount)
            == 340_282_366_920_938_463_463_374_607_431_768_211_455,
{
    let p = double::product(amount, math::number(WETH_UNIT));
    let limit = 340_282_366_920_938_463_463_374_607_431_768_211_456nat;
    fidelity::lemma_weth_unit();
    lemma_pow2_pos(1074);
    accuracy::lemma_real_units(amount);
    accuracy::lemma_real_units(double::negation(amount));
    if amount.is_nan() || amount.negative() || amount == (Double { bits: INFINITY_BITS }) {
        reveal(double::product);
        fidelity::lemma_units();
        fidelity::lemma_between(math::number(WETH_UNIT), 59, 60);
    } else if amount.is_finite() && accuracy::real_of(amount) * 1_000_000_000_000_000_000real
        >= limit as real {
        lemma_wei_product(amount);
        lemma_large(amount, p);
    }
}

/// A large amount in wei.
proof fn lemma_large(amount: Double, p: Double)
    requires
        amount.is_finite(),
        !amount.negative(),
        !p.negative(),
        p.magnitude() == rounding::round(amount.units() * 1_000_000_000_000_000_000, 1),
        accuracy::real_of(amount) * 1_000_000_000_000_000_000real
            >= 340_282_366_920_938_463_463_374_607_431_768_211_456real,
    ensures
        double::truncated(p) == u128::MAX,
{
    let d = pow2(1074);
    let t = d as real;
    let n = amount.units() * 1_000_000_000_000_000_000;
    let top = scaling::power(128);
    let limit = 340_282_366_920_938_463_463_374_607_431_768_211_456nat;
    lemma_pow2_pos(1074);
    accuracy::lemma_scale();
    accuracy::lemma_real_units(amount);
    let full = accuracy::real_of(amount) * 1_000_000_000_000_000_000real;
    assert(full * t == n as real) by {
        assert((accuracy::real_of(amount) * 1_000_000_000_000_000_000real) * t == (
        accuracy::real_of(amount) * t) * 1_000_000_000_000_000_000real) by (nonlinear_arith);
    }
    scaling::lemma_power(128);
    assert(top.units() == limit * d) by {
        lemma2_to64();
        lemma2_to64_rest();
        lemma_pow2_adds(64, 64);
        lemma_pow2_adds(128, 1074);
    }
    accuracy::lemma_cast_product(limit as int, d);
    algebra::lemma_product_monotone(limit as real, full, t, t);
    assert(top.units() <= n);
    fidelity::lemma_rounded_below(top.units(), n);
    order::law_rounding_is_exact(top);
    if p.is_finite() {
        order::law_magnitudes_follow_values(top, p);
        lemma_div_is_ordered((limit * d) as int, p.units() as int, d as int);
        lemma_div_by_multiple(limit as int, d as int);
    }
}

/// Cutting off keeps the order.
proof fn lemma_truncated_monotone(p: Double, q: Double)
    requires
        double::less_or_equal(p, q),
    ensures
        double::truncated(p) <= double::truncated(q),
{
    let d = pow2(1074);
    lemma_pow2_pos(1074);
    if !p.negative() && !q.negative() && p.is_finite() && q.is_finite() {
        order::law_magnitudes_follow_values(p, q);
        lemma_div_is_ordered(p.units() as int, q.units() as int, d as int);
    } else if q.negative() && !p.negative() {
        // Both are zeros.
        double::lemma_parts(p);
        lemma_mul_basics(d as int);
        lemma_div_basics(d as int);
        assert(p.units() == 0);
        lemma_basic_div(0, d as int);
    }
}

/// A larger amount has no fewer wei.
pub proof fn law_larger_amount_has_no_fewer_wei(a: Double, b: Double)
    requires
        double::less_or_equal(a, b),
    ensures
        strategy::wei(a) <= strategy::wei(b),
{
    let unit = math::number(WETH_UNIT);
    let (p, q) = (double::product(a, unit), double::product(b, unit));
    fidelity::lemma_units();
    fidelity::lemma_between(unit, 59, 60);
    assert(!p.is_nan() && !q.is_nan() && p.negative() == a.negative() && q.negative()
        == b.negative()) by {
        reveal(double::product);
    }
    if !a.negative() && !b.negative() {
        order::law_product_is_monotone(a, b, unit);
        lemma_truncated_monotone(p, q);
    } else if b.negative() && !a.negative() {
        assert(p.magnitude() == 0 && q.magnitude() == 0) by {
            reveal(double::product);
            double::lemma_parts(a);
            double::lemma_parts(b);
            lemma_mul_basics(unit.units() as int);
            lemma_pow2_pos(1074);
            rounding::lemma_round_zero(pow2(1074));
        }
        lemma_truncated_monotone(p, q);
    }
}

/// The least profit of an order is the whole part of the profit in wei at the
/// price of the cheap pool, up to three roundings: for profits and prices from
/// 2^-100 to 2^100 that are worth less than 2^127 wei.
pub proof fn law_least_profit_is_the_whole_part(profit: Double, price: Double)
    requires
        scaling::between(profit, -100, 100),
        scaling::between(price, -100, 100),
        (accuracy::real_of(profit) / accuracy::real_of(price)) * 1_000_000_000_000_000_000real
            < 170_141_183_460_469_231_731_687_303_715_884_105_728real,
    ensures
        is_whole_part(
            strategy::least_profit_wei(profit, price) as nat,
            (accuracy::real_of(profit) / accuracy::real_of(price)) * 1_000_000_000_000_000_000real,
            3real,
        ),
{
    let amount = double::quotient(profit, price);
    fidelity::lemma_between(profit, -100, 100);
    fidelity::lemma_between(price, -100, 100);
    scaling::lemma_quotient_between(profit, price, -100, 100, -100, 100);
    fidelity::lemma_between(amount, -200, 200);
    accuracy::law_quotient_is_accurate(profit, price);
    let (r, q) = (accuracy::real_of(profit), accuracy::real_of(price));
    fidelity::lemma_inverse(r, q);
    algebra::lemma_product_positive(r, 1real / q);
    let p = double::product(amount, math::number(WETH_UNIT));
    lemma_wei_accurate(amount);
    lemma_truncated(p);
}

/// An order trades what its opportunity names: it buys in the pool and sells in
/// the pool of the opportunity, at the size of the opportunity, with the key and
/// the contract of the configuration.
pub proof fn law_order_names_its_pools(
    config: BotConfig,
    pools: Seq<PoolConfig>,
    opportunity: ArbitrageOpportunity,
)
    ensures
        ({
            let order = strategy::order_for(config, pools, opportunity);
            &&& order is Some <==> config.private_key is Some && config.contract_address is Some
            &&& order is Some ==> {
                let o = order.unwrap();
                &&& o.buy_pool == pools[opportunity.buy_pool_idx as int].address@
                &&& o.sell_pool == pools[opportunity.sell_pool_idx as int].address@
                &&& o.trade_size_weth == opportunity.optimal_amount_weth
                &&& o.private_key == config.private_key.unwrap()@
                &&& o.contract == config.contract_address.unwrap()@
                &&& o.rpc_url == config.rpc_wss_url@
                &&& o.amount_in_wei == strategy::wei(opportunity.optimal_amount_weth)
                &&& o.min_profit_wei == strategy::least_profit_wei(
                    opportunity.expected_profit_usd,
                    opportunity.buy_price,
                )
            }
        }),
{
}

} // verus!
