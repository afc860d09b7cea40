//! Concentrated-liquidity pricing, swap outputs and arbitrage profit.
use crate::double;
use crate::double::Double;
use crate::types::PoolState;
use vstd::prelude::*;

pub use crate::search::{find_optimal_amount, OptimalAmountResult};

verus! {

/// 2^96.
pub const Q96: u64 = 0x45f0_0000_0000_0000;

/// 10^18, the base units of one WETH.
pub const WETH_UNIT: u64 = 0x43ab_c16d_674e_c800;

/// 10^6, the base units of one USDC.
pub const USDC_UNIT: u64 = 0x412e_8480_0000_0000;

/// 0.
pub const ZERO: u64 = 0;

/// 1.
pub const ONE: u64 = 0x3ff0_0000_0000_0000;

/// 2.
pub const TWO: u64 = 0x4000_0000_0000_0000;

/// 10.
pub const TEN: u64 = 0x4024_0000_0000_0000;

/// 10000, the basis points of a whole.
pub const BASIS_POINTS: u64 = 0x40c3_8800_0000_0000;

/// Negative infinity.
pub const NEGATIVE_INFINITY: u64 = 0xfff0_0000_0000_0000;

/// 10^-7, the relative step of the first derivative.
pub const FIRST_STEP: u64 = 0x3e7a_d7f2_9abc_af48;

/// 10^-10, the least step of the first derivative.
pub const FIRST_STEP_FLOOR: u64 = 0x3ddb_7cdf_d9d7_bdbb;

/// 10^-5, the relative step of the second derivative.
pub const SECOND_STEP: u64 = 0x3ee4_f8b5_88e3_68f1;

/// 10^-8, the least step of the second derivative.
pub const SECOND_STEP_FLOOR: u64 = 0x3e45_798e_e230_8c3a;

/// The number with the given pattern.
pub open spec fn number(bits: u64) -> Double {
    Double { bits }
}

/// `acc * base^exponent` by repeated squaring.
pub open spec fn squared_power(base: Double, exponent: nat, acc: Double) -> Double
    decreases exponent,
{
    let next = if exponent % 2 == 1 {
        double::product(acc, base)
    } else {
        acc
    };
    if exponent < 2 {
        next
    } else {
        squared_power(double::product(base, base), exponent / 2, next)
    }
}

/// `10^exponent`.
pub open spec fn power_of_ten(exponent: int) -> Double {
    if exponent < 0 {
        double::quotient(
            number(ONE),
            squared_power(number(TEN), (-exponent) as nat, number(ONE)),
        )
    } else {
        squared_power(number(TEN), exponent as nat, number(ONE))
    }
}

/// The price of one ETH in USDC at a square-root price: the squared price
/// adjusted for the tokens' decimals, inverted where token0 has fewer.
pub open spec fn eth_price(sqrt_price_x96: Double, decimals0: u8, decimals1: u8) -> Double {
    let root = double::quotient(sqrt_price_x96, number(Q96));
    let adjusted = double::product(
        double::product(root, root),
        power_of_ten(decimals0 - decimals1),
    );
    if double::less_or_equal(sqrt_price_x96, number(ZERO)) || adjusted.is_zero() {
        number(ZERO)
    } else if decimals0 < decimals1 {
        double::quotient(number(ONE), adjusted)
    } else {
        adjusted
    }
}

/// What is left of an amount after the fee.
pub open spec fn after_fee(amount: Double, fee: Double) -> Double {
    double::product(amount, double::difference(number(ONE), fee))
}

/// The square-root price after `amount` WETH went in:
/// `root + amount * (1 - fee) * 10^18 / liquidity`.
pub open spec fn raised_root(
    root: Double,
    liquidity: Double,
    amount: Double,
    fee: Double,
) -> Double {
    double::sum(
        root,
        double::quotient(
            double::product(after_fee(amount, fee), number(WETH_UNIT)),
            liquidity,
        ),
    )
}

/// The USDC that `amount` WETH buy: `liquidity * (1/root - 1/raised) / 10^6`.
pub open spec fn usdc_out(
    sqrt_price: Double,
    liquidity: Double,
    amount: Double,
    fee: Double,
) -> Double {
    let root = double::quotient(sqrt_price, number(Q96));
    let raised = raised_root(root, liquidity, amount, fee);
    if double::less_or_equal(sqrt_price, number(ZERO)) || double::less_or_equal(
        liquidity,
        number(ZERO),
    ) || double::less_or_equal(amount, number(ZERO)) || double::less_or_equal(
        raised,
        number(ZERO),
    ) {
        number(ZERO)
    } else {
        double::absolute(
            double::quotient(
                double::product(
                    liquidity,
                    double::difference(
                        double::quotient(number(ONE), root),
                        double::quotient(number(ONE), raised),
                    ),
                ),
                number(USDC_UNIT),
            ),
        )
    }
}

/// `liquidity + amount * (1 - fee) * 10^6 * root`.
pub open spec fn deepened(root: Double, liquidity: Double, amount: Double, fee: Double) -> Double {
    double::sum(
        liquidity,
        double::product(
            double::product(after_fee(amount, fee), number(USDC_UNIT)),
            root,
        ),
    )
}

/// The WETH that `amount` USDC buy: `liquidity * (root - lowered) / 10^18`
/// with `lowered = liquidity * root / deepened`.
pub open spec fn weth_out(
    sqrt_price: Double,
    liquidity: Double,
    amount: Double,
    fee: Double,
) -> Double {
    let root = double::quotient(sqrt_price, number(Q96));
    let denominator = deepened(root, liquidity, amount, fee);
    let lowered = double::quotient(double::product(liquidity, root), denominator);
    if double::less_or_equal(sqrt_price, number(ZERO)) || double::less_or_equal(
        liquidity,
        number(ZERO),
    ) || double::less_or_equal(amount, number(ZERO)) || double::less_or_equal(
        denominator,
        number(ZERO),
    ) {
        number(ZERO)
    } else {
        double::absolute(
            double::quotient(
                double::product(liquidity, double::difference(root, lowered)),
                number(WETH_UNIT),
            ),
        )
    }
}

fn power_of_ten_exec(exponent: i32) -> (power: Double)
    requires
        -1000 <= exponent <= 1000,
    ensures
        power == power_of_ten(exponent as int),
{
    let mut rest: u32 = if exponent < 0 {
        (-exponent) as u32
    } else {
        exponent as u32
    };
    let mut base: Double = Double::from_bits(TEN);
    let mut acc: Double = Double::from_bits(ONE);
    let ghost whole = rest as nat;
    while rest >= 2
        invariant
            squared_power(base, rest as nat, acc) == squared_power(number(TEN), whole, number(ONE)),
        decreases rest,
    {
        if rest % 2 == 1 {
            acc = acc.times(base);
        }
        base = base.times(base);
        rest = rest / 2;
    }
    if rest == 1 {
        acc = acc.times(base);
    }
    if exponent < 0 {
        Double::from_bits(ONE).over(acc)
    } else {
        acc
    }
}

/// The price of one ETH in USDC at the square-root price `sqrt_price_x96`.
pub fn sqrt_price_x96_to_eth_price(
    sqrt_price_x96: Double,
    token0_decimals: u8,
    token1_decimals: u8,
) -> (price: Double)
    ensures
        price == eth_price(sqrt_price_x96, token0_decimals, token1_decimals),
{
    if sqrt_price_x96.le(Double::from_bits(ZERO)) {
        return Double::from_bits(ZERO);
    }
    let root: Double = sqrt_price_x96.over(Double::from_bits(Q96));
    let ratio: Double = root.times(root);
    let adjusted: Double = ratio.times(
        power_of_ten_exec(token0_decimals as i32 - token1_decimals as i32),
    );
    if adjusted.check_zero() {
        return Double::from_bits(ZERO);
    }
    if token0_decimals < token1_decimals {
        Double::from_bits(ONE).over(adjusted)
    } else {
        adjusted
    }
}

/// The USDC that `amount_in_weth` WETH buy in a pool.
pub fn swap_weth_to_usdc(
    sqrt_price_f64: Double,
    liquidity: Double,
    amount_in_weth: Double,
    fee_fraction: Double,
) -> (amount_out: Double)
    ensures
        amount_out == usdc_out(sqrt_price_f64, liquidity, amount_in_weth, fee_fraction),
{
    let zero: Double = Double::from_bits(ZERO);
    let one: Double = Double::from_bits(ONE);
    if sqrt_price_f64.le(zero) || liquidity.le(zero) || amount_in_weth.le(zero) {
        return zero;
    }
    let root: Double = sqrt_price_f64.over(Double::from_bits(Q96));
    let effective: Double = amount_in_weth.times(one.minus(fee_fraction));
    let raw: Double = effective.times(Double::from_bits(WETH_UNIT));
    let raised: Double = root.plus(raw.over(liquidity));
    if raised.le(zero) {
        return zero;
    }
    let out: Double = liquidity.times(one.over(root).minus(one.over(raised)));
    out.over(Double::from_bits(USDC_UNIT)).abs()
}

/// The WETH that `amount_in_usdc` USDC buy in a pool.
pub fn swap_usdc_to_weth(
    sqrt_price_f64: Double,
    liquidity: Double,
    amount_in_usdc: Double,
    fee_fraction: Double,
) -> (amount_out: Double)
    ensures
        amount_out == weth_out(sqrt_price_f64, liquidity, amount_in_usdc, fee_fraction),
{
    let zero: Double = Double::from_bits(ZERO);
    let one: Double = Double::from_bits(ONE);
    if sqrt_price_f64.le(zero) || liquidity.le(zero) || amount_in_usdc.le(zero) {
        return zero;
    }
    let root: Double = sqrt_price_f64.over(Double::from_bits(Q96));
    let effective: Double = amount_in_usdc.times(one.minus(fee_fraction));
    let raw: Double = effective.times(Double::from_bits(USDC_UNIT));
    let denominator: Double = liquidity.plus(raw.times(root));
    if denominator.le(zero) {
        return zero;
    }
    let lowered: Double = liquidity.times(root).over(denominator);
    let out: Double = liquidity.times(root.minus(lowered));
    out.over(Double::from_bits(WETH_UNIT)).abs()
}

/// The two pools of a trade and its costs, as far as the profit depends on them.
pub struct Market {
    pub sell_sqrt_price: Double,
    pub sell_liquidity: Double,
    pub sell_fee: Double,
    pub buy_sqrt_price: Double,
    pub buy_liquidity: Double,
    pub buy_fee: Double,
    pub gas_cost: Double,
    pub loan_fee_bps: Double,
    pub eth_price: Double,
}

/// The market between two pools.
pub open spec fn market(
    sell_pool: PoolState,
    sell_fee: Double,
    buy_pool: PoolState,
    buy_fee: Double,
    gas_cost: Double,
    loan_fee_bps: Double,
    eth_price: Double,
) -> Market {
    Market {
        sell_sqrt_price: sell_pool.sqrt_price_f64,
        sell_liquidity: sell_pool.liquidity_f64,
        sell_fee,
        buy_sqrt_price: buy_pool.sqrt_price_f64,
        buy_liquidity: buy_pool.liquidity_f64,
        buy_fee,
        gas_cost,
        loan_fee_bps,
        eth_price,
    }
}

/// The net profit in USD of borrowing `amount` WETH, selling them for USDC in
/// the dear pool, buying WETH back in the cheap pool and repaying the loan;
/// negative infinity where one of the trades yields nothing.
#[verifier::opaque]
pub open spec fn profit(m: Market, amount: Double) -> Double {
    let usdc = usdc_out(m.sell_sqrt_price, m.sell_liquidity, amount, m.sell_fee);
    let weth = weth_out(m.buy_sqrt_price, m.buy_liquidity, usdc, m.buy_fee);
    if double::less_or_equal(amount, number(ZERO)) || double::less_or_equal(usdc, number(ZERO))
        || double::less_or_equal(weth, number(ZERO)) {
        number(NEGATIVE_INFINITY)
    } else {
        let rate = double::quotient(m.loan_fee_bps, number(BASIS_POINTS));
        let repaid = double::product(amount, double::sum(number(ONE), rate));
        double::difference(
            double::product(double::difference(weth, repaid), m.eth_price),
            m.gas_cost,
        )
    }
}

/// The first derivative of the profit, by central difference.
#[verifier::opaque]
pub open spec fn slope(m: Market, amount: Double) -> Double {
    let h = double::larger(
        double::product(amount, number(FIRST_STEP)),
        number(FIRST_STEP_FLOOR),
    );
    double::quotient(
        double::difference(
            profit(m, double::sum(amount, h)),
            profit(m, double::difference(amount, h)),
        ),
        double::product(number(TWO), h),
    )
}

/// The second derivative of the profit, by central difference.
#[verifier::opaque]
pub open spec fn curvature(m: Market, amount: Double) -> Double {
    let h = double::larger(
        double::product(amount, number(SECOND_STEP)),
        number(SECOND_STEP_FLOOR),
    );
    double::quotient(
        double::difference(
            slope(m, double::sum(amount, h)),
            slope(m, double::difference(amount, h)),
        ),
        double::product(number(TWO), h),
    )
}

impl Market {
    pub(crate) fn between(
        sell_pool: &PoolState,
        sell_fee: Double,
        buy_pool: &PoolState,
        buy_fee: Double,
        gas_cost: Double,
        loan_fee_bps: Double,
        eth_price: Double,
    ) -> (m: Market)
        ensures
            m == market(
                *sell_pool,
                sell_fee,
                *buy_pool,
                buy_fee,
                gas_cost,
                loan_fee_bps,
                eth_price,
            ),
    {
        Market {
            sell_sqrt_price: sell_pool.sqrt_price_f64,
            sell_liquidity: sell_pool.liquidity_f64,
            sell_fee,
            buy_sqrt_price: buy_pool.sqrt_price_f64,
            buy_liquidity: buy_pool.liquidity_f64,
            buy_fee,
            gas_cost,
            loan_fee_bps,
            eth_price,
        }
    }

    pub(crate) fn profit_at(&self, amount: Double) -> (result: Double)
        ensures
            result == profit(*self, amount),
    {
        proof {
            reveal(profit);
        }
        let zero: Double = Double::from_bits(ZERO);
        if amount.le(zero) {
            return Double::from_bits(NEGATIVE_INFINITY);
        }
        let usdc: Double = swap_weth_to_usdc(
            self.sell_sqrt_price,
            self.sell_liquidity,
            amount,
            self.sell_fee,
        );
        if usdc.le(zero) {
            return Double::from_bits(NEGATIVE_INFINITY);
        }
        let weth: Double = swap_usdc_to_weth(
            self.buy_sqrt_price,
            self.buy_liquidity,
            usdc,
            self.buy_fee,
        );
        if weth.le(zero) {
            return Double::from_bits(NEGATIVE_INFINITY);
        }
        let rate: Double = self.loan_fee_bps.over(Double::from_bits(BASIS_POINTS));
        let repaid: Double = amount.times(Double::from_bits(ONE).plus(rate));
        weth.minus(repaid).times(self.eth_price).minus(self.gas_cost)
    }

    pub(crate) fn profit_derivative(&self, amount: Double) -> (result: Double)
        ensures
            result == slope(*self, amount),
    {
        proof {
            reveal(slope);
        }
        let h: Double = amount.times(Double::from_bits(FIRST_STEP)).max(
            Double::from_bits(FIRST_STEP_FLOOR),
        );
        let above: Double = self.profit_at(amount.plus(h));
        let below: Double = self.profit_at(amount.minus(h));
        above.minus(below).over(Double::from_bits(TWO).times(h))
    }

    pub(crate) fn profit_second_derivative(&self, amount: Double) -> (result: Double)
        ensures
            result == curvature(*self, amount),
    {
        proof {
            reveal(curvature);
        }
        let h: Double = amount.times(Double::from_bits(SECOND_STEP)).max(
            Double::from_bits(SECOND_STEP_FLOOR),
        );
        let above: Double = self.profit_derivative(amount.plus(h));
        let below: Double = self.profit_derivative(amount.minus(h));
        above.minus(below).over(Double::from_bits(TWO).times(h))
    }
}

/// The net profit in USD of the arbitrage with `amount_in_weth` borrowed WETH.
pub fn compute_arbitrage_profit(
    amount_in_weth: Double,
    sell_pool: &PoolState,
    sell_fee_fraction: Double,
    buy_pool: &PoolState,
    buy_fee_fraction: Double,
    gas_cost_usd: Double,
    flash_loan_fee_bps: Double,
    eth_price_usd: Double,
) -> (result: Double)
    ensures
        result == profit(
            market(
                *sell_pool,
                sell_fee_fraction,
                *buy_pool,
                buy_fee_fraction,
                gas_cost_usd,
                flash_loan_fee_bps,
                eth_price_usd,
            ),
            amount_in_weth,
        ),
{
    Market::between(
        sell_pool,
        sell_fee_fraction,
        buy_pool,
        buy_fee_fraction,
        gas_cost_usd,
        flash_loan_fee_bps,
        eth_price_usd,
    ).profit_at(amount_in_weth)
}

/// A market sells in the first pool and buys in the second one, at the fee that
/// comes with each.
pub proof fn law_market_sells_in_the_first_pool(
    sell_pool: PoolState,
    sell_fee: Double,
    buy_pool: PoolState,
    buy_fee: Double,
    gas_cost: Double,
    loan_fee_bps: Double,
    eth_price: Double,
)
    ensures
        ({
            let m = market(
                sell_pool,
                sell_fee,
                buy_pool,
                buy_fee,
                gas_cost,
                loan_fee_bps,
                eth_price,
            );
            &&& m.sell_sqrt_price == sell_pool.sqrt_price_f64
            &&& m.sell_liquidity == sell_pool.liquidity_f64
            &&& m.sell_fee == sell_fee
            &&& m.buy_sqrt_price == buy_pool.sqrt_price_f64
            &&& m.buy_liquidity == buy_pool.liquidity_f64
            &&& m.buy_fee == buy_fee
            &&& m.gas_cost == gas_cost
            &&& m.loan_fee_bps == loan_fee_bps
            &&& m.eth_price == eth_price
        }),
{
}

/// A pool without a square-root price has no price.
pub proof fn law_no_root_no_price(sqrt_price_x96: Double, decimals0: u8, decimals1: u8)
    requires
        double::less_or_equal(sqrt_price_x96, number(ZERO)),
    ensures
        eth_price(sqrt_price_x96, decimals0, decimals1) == number(ZERO),
{
}

} // verus!
