//! When to trade, and what a trade's simulation decides.
use crate::accuracy;
use crate::algebra;
use crate::double;
use crate::double::Double;
use crate::evm;
use crate::fidelity;
use crate::math;
use crate::math::{TWO, WETH_UNIT, ZERO};
use crate::order;
use crate::outside;
use crate::outside::account_of_key;
use crate::rounding;
use crate::scaling;
use crate::search;
use crate::search::{can_search, find_optimal_amount, OptimalAmountResult};
use crate::simulator;
use crate::simulator::{encode_execute_arbitrage, SimulationEngine};
use crate::types;
use crate::types::{
    Address, ArbitrageOpportunity, ArbitrageStats, BotConfig, PoolConfig, PoolState,
    SimulationResult,
};
use crate::wide::U256;
use vstd::arithmetic::mul::*;
use vstd::arithmetic::power2::*;
use vstd::prelude::*;

verus! {

/// 100, for percentages.
pub const HUNDRED: u64 = 0x4059_0000_0000_0000;

/// The distance of two prices.
pub open spec fn spread(a: Double, b: Double) -> Double {
    double::absolute(double::difference(a, b))
}

/// The distance of two prices in percent of the lower one.
pub open spec fn spread_percent(a: Double, b: Double) -> Double {
    double::product(
        double::quotient(spread(a, b), double::smaller(a, b)),
        Double { bits: HUNDRED },
    )
}

/// The pool, of the two, where ETH is cheaper; the second one where the prices
/// do not differ.
pub open spec fn cheap_index(a: Double, b: Double) -> int {
    if double::less(a, b) {
        0
    } else {
        1
    }
}

/// Whether two pools are known, active and recently read, at prices above 0
/// that are apart.
pub open spec fn comparable(
    pools: Seq<PoolConfig>,
    states: Seq<PoolState>,
    config: BotConfig,
    now: u128,
) -> bool {
    &&& pools.len() >= 2
    &&& states.len() >= 2
    &&& states[0].active()
    &&& states[1].active()
    &&& states[0].age_ms(now) <= config.max_staleness_ms
    &&& states[1].age_ms(now) <= config.max_staleness_ms
    &&& double::less(
        Double { bits: ZERO },
        double::smaller(states[0].eth_price_usd, states[1].eth_price_usd),
    )
    &&& double::less(
        Double { bits: ZERO },
        spread_percent(states[0].eth_price_usd, states[1].eth_price_usd),
    )
}

/// The market between the first two pools: buy in the cheap one, sell in the
/// other, value WETH at the mean price.
pub open spec fn pair_market(
    pools: Seq<PoolConfig>,
    states: Seq<PoolState>,
    config: BotConfig,
) -> math::Market {
    let a = states[0].eth_price_usd;
    let b = states[1].eth_price_usd;
    let buy = cheap_index(a, b);
    let sell = 1 - buy;
    math::market(
        states[sell],
        pools[sell].fee_fraction,
        states[buy],
        pools[buy].fee_fraction,
        config.gas_cost_usd,
        config.flash_loan_fee_bps,
        double::quotient(double::sum(a, b), Double { bits: TWO }),
    )
}

/// The trade that a search in the pair's market found.
pub open spec fn found(
    states: Seq<PoolState>,
    best: OptimalAmountResult,
) -> ArbitrageOpportunity {
    let a = states[0].eth_price_usd;
    let b = states[1].eth_price_usd;
    let buy = cheap_index(a, b);
    ArbitrageOpportunity {
        buy_pool_idx: buy as usize,
        sell_pool_idx: (1 - buy) as usize,
        optimal_amount_weth: best.optimal_amount,
        expected_profit_usd: best.expected_profit,
        buy_price: states[buy].eth_price_usd,
        sell_price: states[1 - buy].eth_price_usd,
        spread_pct: spread_percent(a, b),
        nr_converged: best.converged,
        nr_iterations: best.iterations,
    }
}

/// Whether a trade size is worth trading.
pub open spec fn worthwhile(best: OptimalAmountResult, config: BotConfig) -> bool {
    double::less(config.min_net_profit_usd, best.expected_profit) && !double::less_or_equal(
        best.optimal_amount,
        Double { bits: ZERO },
    )
}

/// The opportunity that the first two pools offer.
pub open spec fn opportunity_in(
    pools: Seq<PoolConfig>,
    states: Seq<PoolState>,
    config: BotConfig,
    now: u128,
) -> Option<ArbitrageOpportunity> {
    let best = search::optimum(pair_market(pools, states, config), config.max_trade_size_weth);
    if comparable(pools, states, config, now) && worthwhile(best, config) {
        Some(found(states, best))
    } else {
        None
    }
}

/// Whether `check_arbitrage_opportunity` can decide: two comparable pools need
/// a range of trade sizes that is not empty, unless no step is taken in it.
pub fn can_check(
    pools: &[PoolConfig],
    states: &[PoolState],
    config: &BotConfig,
    now: u128,
) -> (answer: bool)
    ensures
        answer == (comparable(pools@, states@, *config, now) ==> search::searchable(
            pair_market(pools@, states@, *config),
            config.max_trade_size_weth,
        )),
{
    if !are_comparable(pools, states, config, now) {
        return true;
    }
    let (buy, sell): (usize, usize) = direction(states[0].eth_price_usd, states[1].eth_price_usd);
    can_search(
        &states[sell],
        pools[sell].fee_fraction,
        &states[buy],
        pools[buy].fee_fraction,
        config.gas_cost_usd,
        config.flash_loan_fee_bps,
        mean_price(states[0].eth_price_usd, states[1].eth_price_usd),
        config.max_trade_size_weth,
    )
}

fn are_comparable(
    pools: &[PoolConfig],
    states: &[PoolState],
    config: &BotConfig,
    now: u128,
) -> (answer: bool)
    ensures
        answer == comparable(pools@, states@, *config, now),
{
    pools.len() >= 2 && states.len() >= 2 && states[0].is_active() && states[1].is_active()
        && states[0].staleness_ms(now) <= config.max_staleness_ms && states[1].staleness_ms(now)
        <= config.max_staleness_ms && states[0].eth_price_usd.min(states[1].eth_price_usd).gt(
        Double::from_bits(ZERO),
    ) && compute_spread_percent(states[0].eth_price_usd, states[1].eth_price_usd).gt(
        Double::from_bits(ZERO),
    )
}

/// The indices of the cheap and the dear pool.
fn direction(price_a: Double, price_b: Double) -> (indices: (usize, usize))
    ensures
        indices.0 == cheap_index(price_a, price_b),
        indices.1 == 1 - indices.0,
{
    if price_a.lt(price_b) {
        (0, 1)
    } else {
        (1, 0)
    }
}

fn mean_price(price_a: Double, price_b: Double) -> (price: Double)
    ensures
        price == double::quotient(double::sum(price_a, price_b), Double { bits: TWO }),
{
    price_a.plus(price_b).over(Double::from_bits(TWO))
}

fn compute_spread_percent(price_a: Double, price_b: Double) -> (percent: Double)
    ensures
        percent == spread_percent(price_a, price_b),
{
    price_a.minus(price_b).abs().over(price_a.min(price_b)).times(Double::from_bits(HUNDRED))
}

/// Looks for an opportunity between the first two pools at the clock reading
/// `now`.
pub fn check_arbitrage_opportunity(
    pools: &[PoolConfig],
    states: &[PoolState],
    config: &BotConfig,
    now: u128,
) -> (opportunity: Option<ArbitrageOpportunity>)
    requires
        comparable(pools@, states@, *config, now) ==> search::searchable(
            pair_market(pools@, states@, *config),
            config.max_trade_size_weth,
        ),
    ensures
        opportunity == opportunity_in(pools@, states@, *config, now),
{
    if !are_comparable(pools, states, config, now) {
        return None;
    }
    let price_a: Double = states[0].eth_price_usd;
    let price_b: Double = states[1].eth_price_usd;
    let (buy, sell): (usize, usize) = direction(price_a, price_b);
    let best: OptimalAmountResult = find_optimal_amount(
        &states[sell],
        pools[sell].fee_fraction,
        &states[buy],
        pools[buy].fee_fraction,
        config.gas_cost_usd,
        config.flash_loan_fee_bps,
        mean_price(price_a, price_b),
        config.max_trade_size_weth,
    );
    if !best.expected_profit.gt(config.min_net_profit_usd) || best.optimal_amount.le(
        Double::from_bits(ZERO),
    ) {
        return None;
    }
    Some(
        ArbitrageOpportunity {
            buy_pool_idx: buy,
            sell_pool_idx: sell,
            optimal_amount_weth: best.optimal_amount,
            expected_profit_usd: best.expected_profit,
            buy_price: states[buy].eth_price_usd,
            sell_price: states[sell].eth_price_usd,
            spread_pct: compute_spread_percent(price_a, price_b),
            nr_converged: best.converged,
            nr_iterations: best.iterations,
        },
    )
}

/// An amount of ETH in wei, rounded down and confined to 128 bits.
pub open spec fn wei(amount: Double) -> u128 {
    double::truncated(double::product(amount, Double { bits: WETH_UNIT }))
}

/// The least profit in wei that a trade must bring.
pub open spec fn least_profit_wei(profit_usd: Double, buy_price: Double) -> u128 {
    wei(double::quotient(profit_usd, buy_price))
}

/// The trade size and the least profit of an opportunity, in wei.
pub fn trade_amounts(opportunity: &ArbitrageOpportunity) -> (amounts: (u128, u128))
    ensures
        amounts.0 == wei(opportunity.optimal_amount_weth),
        amounts.1 == least_profit_wei(opportunity.expected_profit_usd, opportunity.buy_price),
{
    let unit: Double = Double::from_bits(WETH_UNIT);
    (
        opportunity.optimal_amount_weth.times(unit).to_u128(),
        opportunity.expected_profit_usd.over(opportunity.buy_price).times(unit).to_u128(),
    )
}

/// A trade to be sent to the chain.
#[derive(Debug, Clone)]
pub struct TradeOrder {
    pub rpc_url: String,
    pub private_key: String,
    pub contract: Address,
    pub buy_pool: Address,
    pub sell_pool: Address,
    pub trade_size_weth: Double,
    pub amount_in_wei: u128,
    pub min_profit_wei: u128,
}

/// A trade to be sent, as sequences.
pub struct Order {
    pub rpc_url: Seq<char>,
    pub private_key: Seq<char>,
    pub contract: Seq<u8>,
    pub buy_pool: Seq<u8>,
    pub sell_pool: Seq<u8>,
    pub trade_size_weth: Double,
    pub amount_in_wei: u128,
    pub min_profit_wei: u128,
}

impl View for TradeOrder {
    type V = Order;

    open spec fn view(&self) -> Order {
        Order {
            rpc_url: self.rpc_url@,
            private_key: self.private_key@,
            contract: self.contract@,
            buy_pool: self.buy_pool@,
            sell_pool: self.sell_pool@,
            trade_size_weth: self.trade_size_weth,
            amount_in_wei: self.amount_in_wei,
            min_profit_wei: self.min_profit_wei,
        }
    }
}

/// What becomes of an opportunity.
#[derive(Debug, Clone)]
pub enum Evaluation {
    /// Its simulation failed: it is skipped.
    Skipped { simulation: SimulationResult },
    /// It is reported, and sent where there is an order.
    Reported { simulation: SimulationResult, order: Option<TradeOrder> },
}

/// What becomes of an opportunity, as sequences.
pub enum Decision {
    Skipped { simulation: simulator::Verdict },
    Reported { simulation: simulator::Verdict, order: Option<Order> },
}

impl View for Evaluation {
    type V = Decision;

    open spec fn view(&self) -> Decision {
        match *self {
            Evaluation::Skipped { simulation } => Decision::Skipped { simulation: simulation@ },
            Evaluation::Reported { simulation, order } => Decision::Reported {
                simulation: simulation@,
                order: match order {
                    Some(o) => Some(o@),
                    None => None,
                },
            },
        }
    }
}

/// The order for an opportunity; none unless trades can be sent.
pub open spec fn order_for(
    config: BotConfig,
    pools: Seq<PoolConfig>,
    opportunity: ArbitrageOpportunity,
) -> Option<Order> {
    if config.executes() {
        Some(
            Order {
                rpc_url: config.rpc_wss_url@,
                private_key: config.private_key.unwrap()@,
                contract: config.contract_address.unwrap()@,
                buy_pool: pools[opportunity.buy_pool_idx as int].address@,
                sell_pool: pools[opportunity.sell_pool_idx as int].address@,
                trade_size_weth: opportunity.optimal_amount_weth,
                amount_in_wei: wei(opportunity.optimal_amount_weth),
                min_profit_wei: least_profit_wei(
                    opportunity.expected_profit_usd,
                    opportunity.buy_price,
                ),
            },
        )
    } else {
        None
    }
}

/// Whether the checks, and the run of the contract where there was one, all
/// succeeded.
pub open spec fn passes(
    checks: simulator::Verdict,
    run: Option<simulator::Verdict>,
) -> bool {
    checks.success && (run is Some ==> run.unwrap().success)
}

/// What becomes of an opportunity. The first failure, of the checks or of the
/// run, is the reason to skip it.
pub open spec fn decision(
    config: BotConfig,
    pools: Seq<PoolConfig>,
    opportunity: ArbitrageOpportunity,
    checks: simulator::Verdict,
    run: Option<simulator::Verdict>,
) -> Decision {
    if !checks.success {
        Decision::Skipped { simulation: checks }
    } else if run is Some && !run.unwrap().success {
        Decision::Skipped { simulation: run.unwrap() }
    } else {
        Decision::Reported {
            simulation: checks,
            order: order_for(config, pools, opportunity),
        }
    }
}

/// The larger of a record and a new value that exceeds it.
pub open spec fn record(old_best: Double, value: Double) -> Double {
    if double::less(old_best, value) {
        value
    } else {
        old_best
    }
}

/// The statistics after an opportunity.
pub open spec fn counted(
    stats: ArbitrageStats,
    opportunity: ArbitrageOpportunity,
    passed: bool,
    sent: bool,
) -> ArbitrageStats {
    let seen = ArbitrageStats {
        total_opportunities: (stats.total_opportunities + 1) as u64,
        max_spread_pct: record(stats.max_spread_pct, opportunity.spread_pct),
        ..stats
    };
    if !passed {
        ArbitrageStats { failed_simulations: (stats.failed_simulations + 1) as u64, ..seen }
    } else {
        ArbitrageStats {
            profitable_opportunities: (stats.profitable_opportunities + 1) as u64,
            total_potential_profit: double::sum(
                stats.total_potential_profit,
                opportunity.expected_profit_usd,
            ),
            max_profit_usd: record(stats.max_profit_usd, opportunity.expected_profit_usd),
            executed_trades: if sent {
                (stats.executed_trades + 1) as u64
            } else {
                stats.executed_trades
            },
            ..seen
        }
    }
}

/// Whether another opportunity can be counted.
pub open spec fn has_room(stats: ArbitrageStats) -> bool {
    &&& stats.total_opportunities < u64::MAX
    &&& stats.failed_simulations < u64::MAX
    &&& stats.profitable_opportunities < u64::MAX
    &&& stats.executed_trades < u64::MAX
}

fn better(old_best: Double, value: Double) -> (best: Double)
    ensures
        best == record(old_best, value),
{
    if value.gt(old_best) {
        value
    } else {
        old_best
    }
}

/// The outcome of a run that may not have taken place.
pub open spec fn run_verdict(run: Option<SimulationResult>) -> Option<simulator::Verdict> {
    match run {
        Some(result) => Some(result@),
        None => None,
    }
}

/// Decides over an opportunity whose checks and run are done, and counts it.
pub fn settle(
    config: &BotConfig,
    pools: &[PoolConfig],
    opportunity: &ArbitrageOpportunity,
    checks: SimulationResult,
    run: Option<SimulationResult>,
    stats: &mut ArbitrageStats,
) -> (evaluation: Evaluation)
    requires
        opportunity.buy_pool_idx < pools@.len(),
        opportunity.sell_pool_idx < pools@.len(),
        has_room(*old(stats)),
    ensures
        evaluation@ == decision(*config, pools@, *opportunity, checks@, run_verdict(run)),
        *final(stats) == counted(
            *old(stats),
            *opportunity,
            passes(checks@, run_verdict(run)),
            config.executes(),
        ),
{
    stats.total_opportunities = stats.total_opportunities + 1;
    stats.max_spread_pct = better(stats.max_spread_pct, opportunity.spread_pct);
    if !checks.success {
        stats.failed_simulations = stats.failed_simulations + 1;
        return Evaluation::Skipped { simulation: checks };
    }
    if let Some(result) = run {
        if !result.success {
            stats.failed_simulations = stats.failed_simulations + 1;
            return Evaluation::Skipped { simulation: result };
        }
    }
    stats.profitable_opportunities = stats.profitable_opportunities + 1;
    stats.total_potential_profit = stats.total_potential_profit.plus(
        opportunity.expected_profit_usd,
    );
    stats.max_profit_usd = better(stats.max_profit_usd, opportunity.expected_profit_usd);
    let order: Option<TradeOrder> = match (&config.private_key, config.contract_address) {
        (Some(key), Some(contract)) => {
            stats.executed_trades = stats.executed_trades + 1;
            let amounts: (u128, u128) = trade_amounts(opportunity);
            Some(
                TradeOrder {
                    rpc_url: config.rpc_wss_url.clone(),
                    private_key: key.clone(),
                    contract,
                    buy_pool: pools[opportunity.buy_pool_idx].address,
                    sell_pool: pools[opportunity.sell_pool_idx].address,
                    trade_size_weth: opportunity.optimal_amount_weth,
                    amount_in_wei: amounts.0,
                    min_profit_wei: amounts.1,
                },
            )
        },
        _ => None,
    };
    Evaluation::Reported { simulation: checks, order }
}

/// The account that the bot trades from; the zero address where no key is
/// given or the key is none.
pub open spec fn trader(private_key: Option<Seq<char>>) -> Seq<u8> {
    match private_key {
        Some(key) => match outside::key_account(key) {
            Some(account) => account,
            None => Seq::new(20, |i: int| 0u8),
        },
        None => Seq::new(20, |i: int| 0u8),
    }
}

/// The account that the bot trades from.
pub fn trader_address(config: &BotConfig) -> (address: Address)
    ensures
        address@ == trader(types::characters(config.private_key)),
{
    let nobody: Address = [0u8;20];
    assert(nobody@ =~= Seq::new(20, |i: int| 0u8));
    match &config.private_key {
        Some(key) => match account_of_key(key.as_str()) {
            Some(account) => account,
            None => nobody,
        },
        None => nobody,
    }
}

/// The run of the contract for an opportunity; none where no contract is
/// configured.
pub open spec fn contract_run(
    config: BotConfig,
    pools: Seq<PoolConfig>,
    states: Seq<PoolState>,
    opportunity: ArbitrageOpportunity,
    timestamp: nat,
) -> Option<simulator::Verdict> {
    match config.contract_address {
        Some(contract) => {
            let caller = trader(types::characters(config.private_key));
            Some(
                simulator::verdict(
                    evm::ending(
                        simulator::simulated_accounts(pools, states, caller, contract@),
                        simulator::simulated_call(
                            caller,
                            contract@,
                            simulator::calldata_of(
                                pools[opportunity.buy_pool_idx as int].address@,
                                pools[opportunity.sell_pool_idx as int].address@,
                                wei(opportunity.optimal_amount_weth) as nat,
                                least_profit_wei(
                                    opportunity.expected_profit_usd,
                                    opportunity.buy_price,
                                ) as nat,
                            ),
                            0,
                            timestamp,
                        ),
                    ),
                ),
            )
        },
        None => None,
    }
}

/// The outcome of the checks on the pools of an opportunity.
pub open spec fn checked(
    states: Seq<PoolState>,
    opportunity: ArbitrageOpportunity,
    now: u128,
) -> simulator::Verdict {
    simulator::quick_verdict(
        states[opportunity.buy_pool_idx as int],
        states[opportunity.sell_pool_idx as int],
        opportunity.optimal_amount_weth,
        now,
    )
}

/// Checks and simulates an opportunity at the clock reading `now` and the
/// block time `timestamp`, and decides what becomes of it.
pub fn evaluate_and_execute(
    config: &BotConfig,
    pools: &[PoolConfig],
    states: &[PoolState],
    opportunity: &ArbitrageOpportunity,
    sim_engine: &SimulationEngine,
    stats: &mut ArbitrageStats,
    now: u128,
    timestamp: u64,
) -> (evaluation: Evaluation)
    requires
        opportunity.buy_pool_idx < pools@.len(),
        opportunity.sell_pool_idx < pools@.len(),
        opportunity.buy_pool_idx < states@.len(),
        opportunity.sell_pool_idx < states@.len(),
        has_room(*old(stats)),
    ensures
        ({
            let checks = checked(states@, *opportunity, now);
            let run = contract_run(*config, pools@, states@, *opportunity, timestamp as nat);
            &&& evaluation@ == decision(*config, pools@, *opportunity, checks, run)
            &&& *final(stats) == counted(
                *old(stats),
                *opportunity,
                passes(checks, run),
                config.executes(),
            )
        }),
{
    let checks: SimulationResult = sim_engine.validate_mathematical(
        pools,
        states,
        opportunity.buy_pool_idx,
        opportunity.sell_pool_idx,
        opportunity.optimal_amount_weth,
        now,
    );
    let run: Option<SimulationResult> = match config.contract_address {
        Some(contract) => {
            let amounts: (u128, u128) = trade_amounts(opportunity);
            let calldata: Vec<u8> = encode_execute_arbitrage(
                pools[opportunity.buy_pool_idx].address,
                pools[opportunity.sell_pool_idx].address,
                U256::from_u128(amounts.0),
                U256::from_u128(amounts.1),
            );
            let caller: Address = trader_address(config);
            Some(
                sim_engine.simulate(
                    pools,
                    states,
                    caller,
                    contract,
                    calldata,
                    U256::zero(),
                    timestamp,
                ),
            )
        },
        None => None,
    };
    settle(config, pools, opportunity, checks, run, stats)
}

/// Equal prices have no spread.
proof fn lemma_no_spread(a: Double, b: Double)
    requires
        a.order() == b.order(),
    ensures
        !double::less(Double { bits: ZERO }, spread_percent(a, b)),
{
    let zero = Double { bits: ZERO };
    let low = double::smaller(a, b);
    let minus = double::negation(b);
    assert(minus.magnitude() == b.magnitude());
    let apart = double::difference(a, b);
    if !a.is_nan() && !b.is_nan() {
        assert(a.magnitude() == b.magnitude());
        assert(a.units() == b.units());
        assert(apart.is_nan() || apart.magnitude() == 0) by {
            reveal(double::sum);
            double::lemma_parts(zero);
            if a.is_finite() {
                double::lemma_parts(a);
            }
        }
    } else {
        assert(apart.is_nan()) by {
            reveal(double::sum);
        }
    }
    let distance = spread(a, b);
    assert(distance.magnitude() == apart.magnitude());
    let part = double::quotient(distance, low);
    let d = pow2(1074);
    lemma_pow2_pos(1074);
    assert(part.is_nan() || part.magnitude() == 0) by {
        reveal(double::quotient);
        if distance.is_zero() {
            double::lemma_parts(distance);
            lemma_mul_basics(d as int);
            if low.is_finite() && !low.is_zero() {
                double::lemma_parts(low);
                rounding::lemma_round_zero(low.units());
            }
        }
    }
    assert(spread_percent(a, b).is_nan() || spread_percent(a, b).magnitude() == 0) by {
        reveal(double::product);
        let hundred = Double { bits: HUNDRED };
        if part.is_zero() {
            double::lemma_parts(part);
            lemma_mul_basics(hundred.units() as int);
            rounding::lemma_round_zero(d);
        }
    }
}

/// An opportunity lies between two active, recently read pools, buys where ETH
/// is cheaper than where it sells, and promises more than the least profit,
/// which is the profit of its trade size in the market of the two pools.
pub proof fn law_opportunity_is_sound(
    pools: Seq<PoolConfig>,
    states: Seq<PoolState>,
    config: BotConfig,
    now: u128,
)
    requires
        opportunity_in(pools, states, config, now) is Some,
    ensures
        ({
            let o = opportunity_in(pools, states, config, now).unwrap();
            &&& comparable(pools, states, config, now)
            &&& o.buy_pool_idx < 2
            &&& o.sell_pool_idx == 1 - o.buy_pool_idx
            &&& o.buy_price == states[o.buy_pool_idx as int].eth_price_usd
            &&& o.sell_price == states[o.sell_pool_idx as int].eth_price_usd
            &&& double::less(Double { bits: ZERO }, o.spread_pct)
            &&& double::less(o.buy_price, o.sell_price)
            &&& double::less(config.min_net_profit_usd, o.expected_profit_usd)
            &&& !double::less_or_equal(o.optimal_amount_weth, Double { bits: ZERO })
            &&& o.expected_profit_usd == math::profit(
                pair_market(pools, states, config),
                o.optimal_amount_weth,
            )
            &&& o.nr_iterations <= search::MAX_ITERATIONS
        }),
{
    let m = pair_market(pools, states, config);
    let (a, b) = (states[0].eth_price_usd, states[1].eth_price_usd);
    if a.order() == b.order() {
        lemma_no_spread(a, b);
    }
    search::law_search_is_bounded(m, config.max_trade_size_weth);
    if !search::viable(m, config.max_trade_size_weth) {
        search::law_nothing_viable_gives_nothing(m, config.max_trade_size_weth);
    }
}

/// Pools that are missing, inactive, stale or without a spread offer no
/// opportunity, nor does a market whose best trade is not worthwhile; any
/// other does.
pub proof fn law_opportunity_is_complete(
    pools: Seq<PoolConfig>,
    states: Seq<PoolState>,
    config: BotConfig,
    now: u128,
)
    ensures
        opportunity_in(pools, states, config, now) is Some <==> comparable(
            pools,
            states,
            config,
            now,
        ) && worthwhile(
            search::optimum(pair_market(pools, states, config), config.max_trade_size_weth),
            config,
        ),
{
}

/// The profit that an opportunity promises is what its two pools pay: its size
/// is sold in the dear pool at that pool's fee and bought back in the cheap pool
/// at that pool's fee; less what the loan costs, at the mean of the two prices,
/// less the gas.
pub proof fn law_promised_profit_is_what_the_pools_pay(
    pools: Seq<PoolConfig>,
    states: Seq<PoolState>,
    config: BotConfig,
    now: u128,
)
    requires
        opportunity_in(pools, states, config, now) is Some,
    ensures
        ({
            let o = opportunity_in(pools, states, config, now).unwrap();
            let buy = o.buy_pool_idx as int;
            let sell = o.sell_pool_idx as int;
            let usdc = math::usdc_out(
                states[sell].sqrt_price_f64,
                states[sell].liquidity_f64,
                o.optimal_amount_weth,
                pools[sell].fee_fraction,
            );
            let weth = math::weth_out(
                states[buy].sqrt_price_f64,
                states[buy].liquidity_f64,
                usdc,
                pools[buy].fee_fraction,
            );
            let owed = double::product(
                o.optimal_amount_weth,
                double::sum(
                    Double { bits: math::ONE },
                    double::quotient(
                        config.flash_loan_fee_bps,
                        Double { bits: math::BASIS_POINTS },
                    ),
                ),
            );
            let mean = double::quotient(
                double::sum(states[0].eth_price_usd, states[1].eth_price_usd),
                Double { bits: TWO },
            );
            &&& (buy == 0 && sell == 1) || (buy == 1 && sell == 0)
            &&& double::less(states[buy].eth_price_usd, states[sell].eth_price_usd)
            &&& o.expected_profit_usd == double::difference(
                double::product(double::difference(weth, owed), mean),
                config.gas_cost_usd,
            )
        }),
{
    law_opportunity_is_sound(pools, states, config, now);
    reveal(math::profit);
}

/// Different prices have a spread.
proof fn lemma_apart_spread(low: Double, high: Double)
    requires
        double::less(Double { bits: ZERO }, low),
        double::less(low, high),
    ensures
        double::less(Double { bits: ZERO }, spread_percent(low, high)),
        double::less(Double { bits: ZERO }, spread_percent(high, low)),
{
    lemma_symmetric(low, high);
    lemma_distance(low, high);
    lemma_percent(double::absolute(double::difference(high, low)), low);
    assert(double::smaller(low, high) == low && double::smaller(high, low) == low);
}

/// The distance of two numbers is the same from both.
proof fn lemma_symmetric(low: Double, high: Double)
    requires
        double::less(Double { bits: ZERO }, low),
        double::less(low, high),
    ensures
        double::absolute(double::difference(high, low)) == double::absolute(
            double::difference(low, high),
        ),
{
    reveal(double::sum);
    let (a, b) = (double::negation(low), double::negation(high));
    assert(a.magnitude() == low.magnitude() && b.magnitude() == high.magnitude());
    assert(a.negative() && b.negative() && !low.negative() && !high.negative());
    assert(a.units() == low.units() && b.units() == high.units());
    if high.is_finite() {
        order::law_magnitudes_follow_values(high, low);
        let n = (high.units() - low.units()) as nat;
        assert(high.value() + a.value() == n);
        assert(low.value() + b.value() == -n);
    }
}

/// A distance that is no less than a spacing is a percentage above 0.
proof fn lemma_percent(distance: Double, low: Double)
    requires
        double::less(Double { bits: ZERO }, low),
        low.is_finite(),
        !distance.is_nan(),
        !distance.negative(),
        distance.is_finite() ==> distance.units() >= pow2(low.spacing()),
    ensures
        double::less(
            Double { bits: ZERO },
            double::product(double::quotient(distance, low), Double { bits: HUNDRED }),
        ),
{
    let part = double::quotient(distance, low);
    let hundred = Double { bits: HUNDRED };
    assert(!part.is_nan() && !part.negative() && part.magnitude() > 0) by {
        reveal(double::quotient);
        if distance.is_finite() {
            lemma_part_above(distance, low);
        }
    }
    reveal(double::product);
    if part.is_finite() {
        lemma_hundredfold(part);
    }
}

/// Numbers that differ are apart by no less than the spacing of the smaller.
proof fn lemma_distance(low: Double, high: Double)
    requires
        double::less(Double { bits: ZERO }, low),
        double::less(low, high),
    ensures
        ({
            let distance = double::absolute(double::difference(high, low));
            &&& low.is_finite()
            &&& !distance.is_nan()
            &&& !distance.negative()
            &&& distance.is_finite() ==> distance.units() >= pow2(low.spacing())
        }),
{
    let up = double::difference(high, low);
    let distance = double::absolute(up);
    let minus = double::negation(low);
    assert(minus.magnitude() == low.magnitude());
    assert(minus.units() == low.units());
    if high.is_finite() {
        let k = low.spacing();
        let p = pow2(k);
        lemma_pow2_pos(k);
        double::lemma_parts(low);
        double::lemma_parts(high);
        lemma_next_apart(low, high);
        let n = (high.units() - low.units()) as nat;
        assert(distance.magnitude() == rounding::round(n, 1)) by {
            reveal(double::sum);
        }
        if distance.is_finite() {
            lemma_round_keeps_power(n, k);
            assert(distance.units() == (Double { bits: rounding::round(n, 1) as u64 }).units());
        }
    } else {
        assert(up.is_infinite()) by {
            reveal(double::sum);
        }
    }
}

/// The next number is one spacing away.
proof fn lemma_next_apart(low: Double, high: Double)
    requires
        low.is_finite(),
        high.is_finite(),
        low.magnitude() < high.magnitude(),
    ensures
        high.units() >= low.units() + pow2(low.spacing()),
{
    let (j, k) = (low.spacing(), high.spacing());
    let (p, q) = (pow2(j), pow2(k));
    double::lemma_parts(low);
    double::lemma_parts(high);
    lemma_pow2_pos(j);
    assert(j <= k);
    let rest = (k - j) as nat;
    lemma_pow2_adds(rest, j);
    let f = pow2(rest);
    lemma_pow2_pos(rest);
    let (a, b) = (low.significand(), high.significand());
    if j < k {
        lemma_pow2_unfold(rest);
        lemma_pow2_pos((rest - 1) as nat);
        assert(b * (f * p) >= a * p + p) by (nonlinear_arith)
            requires
                b >= 0x10_0000_0000_0000,
                a < 0x20_0000_0000_0000,
                f >= 2,
                p > 0,
        ;
    } else {
        lemma2_to64();
        assert(f == 1);
        assert(b * (f * p) >= a * p + p) by (nonlinear_arith)
            requires
                b >= a + 1,
                f == 1,
                p > 0,
        ;
    }
}

/// A whole number of at least a power of two rounds to no less.
proof fn lemma_round_keeps_power(n: nat, k: nat)
    requires
        n >= pow2(k),
        k <= 2045,
        rounding::round(n, 1) < rounding::INFINITY_BITS,
    ensures
        (Double { bits: rounding::round(n, 1) as u64 }).units() >= pow2(k),
{
    let y = Double { bits: rounding::round(n, 1) as u64 };
    accuracy::lemma_round_error(n, 1);
    lemma2_to64();
    lemma2_to64_rest();
    // A power of two is a number of the format.
    accuracy::lemma_power_units(k);
    let x = accuracy::power_units(k);
    order::law_rounding_is_exact(x);
    fidelity::lemma_rounded_below(pow2(k), n);
    order::law_magnitudes_follow_values(x, y);
}

/// A distance of at least a spacing is a part that does not vanish.
proof fn lemma_part_above(distance: Double, low: Double)
    requires
        distance.is_finite(),
        low.is_finite(),
        low.magnitude() > 0,
        distance.units() >= pow2(low.spacing()),
    ensures
        low.units() > 0,
        rounding::round(distance.units() * pow2(1074), low.units()) > 0,
{
    let d = pow2(1074);
    let p = pow2(low.spacing());
    double::lemma_parts(low);
    lemma_pow2_pos(low.spacing());
    lemma_pow2_pos(1021);
    lemma2_to64();
    lemma2_to64_rest();
    lemma_pow2_adds(53, 1021);
    let (n, w, g) = (distance.units(), low.units(), pow2(1021));
    let sig = low.significand();
    assert(n * (0x20_0000_0000_0000 * g) >= w) by (nonlinear_arith)
        requires
            n >= p,
            w == sig * p,
            sig < 0x20_0000_0000_0000,
            g >= 1,
            p > 0,
    ;
    lemma_mul_basics(w as int);
    order::law_rounding_is_monotone(1, 1, n * d, w);
    accuracy::lemma_one_unit();
}

/// A hundred times a positive number is one.
proof fn lemma_hundredfold(part: Double)
    requires
        part.is_finite(),
        part.magnitude() > 0,
    ensures
        rounding::round(
            part.units() * (Double { bits: HUNDRED }).units(),
            pow2(1074),
        ) > 0,
{
    let hundred = Double { bits: HUNDRED };
    let d = pow2(1074);
    double::lemma_parts(part);
    lemma_pow2_pos(1074);
    order::lemma_one();
    order::law_magnitudes_follow_values(double::of_nat(1), hundred);
    let (u, w) = (part.units(), hundred.units());
    assert(1 * d <= u * w) by (nonlinear_arith)
        requires
            u >= 1,
            w >= d,
    ;
    lemma_mul_basics((u * w) as int);
    order::law_rounding_is_monotone(1, 1, u * w, d);
    accuracy::lemma_one_unit();
}

/// Two pools offer an opportunity exactly where both have been read, have a
/// price and liquidity and are young enough, their prices differ, and the size
/// that a search between the dear and the cheap one gives is above 0 and
/// promises more than the least profit.
pub proof fn law_opportunity_is_offered_where_it_pays(
    pools: Seq<PoolConfig>,
    states: Seq<PoolState>,
    config: BotConfig,
    now: u128,
)
    ensures
        opportunity_in(pools, states, config, now) is Some <==> {
            &&& pools.len() >= 2
            &&& states.len() >= 2
            &&& states[0].is_initialized && states[1].is_initialized
            &&& states[0].liquidity > 0 && states[1].liquidity > 0
            &&& double::less(Double { bits: 0 }, states[0].eth_price_usd)
            &&& double::less(Double { bits: 0 }, states[1].eth_price_usd)
            &&& now - states[0].last_update < (config.max_staleness_ms + 1) * 1_000_000
            &&& now - states[1].last_update < (config.max_staleness_ms + 1) * 1_000_000
            &&& states[0].eth_price_usd.order() != states[1].eth_price_usd.order()
            &&& {
                let (buy, sell) = if states[0].eth_price_usd.order()
                    < states[1].eth_price_usd.order() {
                    (0int, 1int)
                } else {
                    (1int, 0int)
                };
                let best = search::optimum(
                    math::Market {
                        sell_sqrt_price: states[sell].sqrt_price_f64,
                        sell_liquidity: states[sell].liquidity_f64,
                        sell_fee: pools[sell].fee_fraction,
                        buy_sqrt_price: states[buy].sqrt_price_f64,
                        buy_liquidity: states[buy].liquidity_f64,
                        buy_fee: pools[buy].fee_fraction,
                        gas_cost: config.gas_cost_usd,
                        loan_fee_bps: config.flash_loan_fee_bps,
                        eth_price: double::quotient(
                            double::sum(states[0].eth_price_usd, states[1].eth_price_usd),
                            Double { bits: TWO },
                        ),
                    },
                    config.max_trade_size_weth,
                );
                &&& double::less(config.min_net_profit_usd, best.expected_profit)
                &&& !double::less_or_equal(best.optimal_amount, Double { bits: 0 })
            }
        },
{
    let (a, b) = (states[0].eth_price_usd, states[1].eth_price_usd);
    lemma_young(states[0], config, now);
    lemma_young(states[1], config, now);
    if double::less(Double { bits: 0 }, a) && double::less(Double { bits: 0 }, b) {
        if a.order() == b.order() {
            lemma_no_spread(a, b);
        } else if a.order() < b.order() {
            lemma_apart_spread(a, b);
        } else {
            lemma_apart_spread(b, a);
        }
    }
}

/// The age of a pool in nanoseconds.
proof fn lemma_young(state: PoolState, config: BotConfig, now: u128)
    ensures
        state.age_ms(now) <= config.max_staleness_ms <==> now - state.last_update < (
        config.max_staleness_ms + 1) * 1_000_000,
{
}

/// A trade whose simulated run does not end in success is never sent, and its
/// message is that of the run where the checks have none.
pub proof fn law_failing_trade_is_never_sent(
    config: BotConfig,
    pools: Seq<PoolConfig>,
    opportunity: ArbitrageOpportunity,
    checks: simulator::Verdict,
    ending: evm::Ending,
)
    requires
        !(ending is Success),
    ensures
        ({
            let run = simulator::verdict(ending);
            let what = decision(config, pools, opportunity, checks, Some(run));
            &&& what is Skipped
            &&& what->Skipped_simulation == if checks.success {
                run
            } else {
                checks
            }
            &&& !what->Skipped_simulation.success
        }),
{
}

/// A trade is sent exactly where everything passed and sending is enabled.
pub proof fn law_passing_trade_is_sent(
    config: BotConfig,
    pools: Seq<PoolConfig>,
    opportunity: ArbitrageOpportunity,
    checks: simulator::Verdict,
    run: Option<simulator::Verdict>,
)
    ensures
        ({
            let what = decision(config, pools, opportunity, checks, run);
            &&& what is Reported <==> passes(checks, run)
            &&& what is Reported ==> (what->order is Some <==> config.executes())
            &&& what is Reported ==> what->Reported_simulation == checks
        }),
{
}

/// What is sent is what was simulated: the run called the contract of the
/// order with the pools and amounts of the order.
pub proof fn law_sent_trade_was_simulated(
    config: BotConfig,
    pools: Seq<PoolConfig>,
    states: Seq<PoolState>,
    opportunity: ArbitrageOpportunity,
    timestamp: nat,
)
    requires
        config.executes(),
    ensures
        ({
            let order = order_for(config, pools, opportunity).unwrap();
            let caller = trader(Some(order.private_key));
            contract_run(config, pools, states, opportunity, timestamp) == Some(
                simulator::verdict(
                    evm::ending(
                        simulator::simulated_accounts(pools, states, caller, order.contract),
                        simulator::simulated_call(
                            caller,
                            order.contract,
                            simulator::calldata_of(
                                order.buy_pool,
                                order.sell_pool,
                                order.amount_in_wei as nat,
                                order.min_profit_wei as nat,
                            ),
                            0,
                            timestamp,
                        ),
                    ),
                ),
            )
        }),
{
}

/// Whether the counters agree: every opportunity either failed or was
/// profitable, and only profitable ones were traded.
pub open spec fn balanced(stats: ArbitrageStats) -> bool {
    &&& stats.total_opportunities == stats.failed_simulations + stats.profitable_opportunities
    &&& stats.executed_trades <= stats.profitable_opportunities
}

/// Counting an opportunity keeps the counters in agreement and lowers no
/// record.
pub proof fn law_counters_stay_balanced(
    stats: ArbitrageStats,
    opportunity: ArbitrageOpportunity,
    passed: bool,
    sent: bool,
)
    requires
        balanced(stats),
        has_room(stats),
    ensures
        ({
            let after = counted(stats, opportunity, passed, sent);
            &&& balanced(after)
            &&& after.total_opportunities == stats.total_opportunities + 1
            &&& !double::less(after.max_spread_pct, stats.max_spread_pct)
            &&& !double::less(after.max_profit_usd, stats.max_profit_usd)
            &&& after.total_blocks_processed == stats.total_blocks_processed
            &&& after.session_start == stats.session_start
        }),
{
}

/// The spread is the distance of the two prices in percent of the lower one, up
/// to rounding.
pub proof fn law_spread_is_in_percent_of_the_lower_price(a: Double, b: Double)
    requires
        scaling::between(a, -100, 100),
        scaling::between(b, -100, 100),
    ensures
        ({
            let (x, y) = (accuracy::real_of(a), accuracy::real_of(b));
            let low = if x < y {
                x
            } else {
                y
            };
            let full = accuracy::size(x - y) * (1real / low) * 100real;
            &&& low > 0real
            &&& spread_percent(a, b).is_finite()
            &&& accuracy::within(accuracy::real_of(spread_percent(a, b)), full, 5real, full)
        }),
{
    let (x, y) = (accuracy::real_of(a), accuracy::real_of(b));
    let distance = spread(a, b);
    let least = double::smaller(a, b);
    let hundred = Double { bits: HUNDRED };
    let part = double::quotient(distance, least);
    fidelity::lemma_between(a, -100, 100);
    fidelity::lemma_between(b, -100, 100);
    accuracy::law_comparison_is_that_of_the_values(b, a);
    accuracy::law_comparison_is_that_of_the_values(a, b);
    let low = accuracy::real_of(least);
    fidelity::lemma_difference_sized(a, b, -100, 100);
    fidelity::lemma_net(a, b);
    fidelity::lemma_absolute(double::difference(a, b));
    assert(fidelity::is_sized(distance, -152, 100)) by {
        let d = double::difference(a, b);
        assert(double::absolute(distance) == distance);
        assert(double::absolute(d) == distance);
    }
    fidelity::lemma_quotient_sized(distance, least, -152, 100, -100, 100);
    lemma_hundred();
    order::law_product_commutes(part, hundred);
    fidelity::lemma_product_sized(hundred, part, 6, 7, -252, 200);
    lemma_spread_distance(
        accuracy::size(x - y),
        low,
        accuracy::real_of(distance),
        accuracy::real_of(part),
        accuracy::real_of(spread_percent(a, b)),
    );
}

/// A hundred is exact.
pub(crate) proof fn lemma_hundred()
    ensures
        accuracy::real_of(Double { bits: HUNDRED }) == 100real,
        scaling::between(Double { bits: HUNDRED }, 6, 7),
{
    let hundred = Double { bits: HUNDRED };
    lemma2_to64();
    lemma2_to64_rest();
    scaling::lemma_power(6);
    scaling::lemma_power(7);
    assert(hundred.spacing() == 1028 && hundred.significand() == 0x19_0000_0000_0000);
    lemma_pow2_adds(46, 1028);
    let f = pow2(1028);
    assert(0x19_0000_0000_0000 * f == 100 * (0x4000_0000_0000 * f));
    fidelity::lemma_integer(hundred, 100);
}

/// The same distance in numbers.
proof fn lemma_spread_distance(apart: real, low: real, d: real, q: real, z: real)
    requires
        apart >= 0real,
        low > 0real,
        d >= 0real,
        accuracy::within(d, apart, 2real, apart),
        accuracy::within(q, d / low, 1real, accuracy::size(d / low)),
        accuracy::within(z, 100real * q, 1real, accuracy::size(100real * q)),
    ensures
        ({
            let full = apart * (1real / low) * 100real;
            accuracy::within(z, full, 5real, full)
        }),
{
    let i = 1real / low;
    fidelity::lemma_inverse(d, low);
    fidelity::lemma_multiplied(d, apart, 2real, apart, i);
    algebra::lemma_product_monotone(0real, apart, 0real, i);
    algebra::lemma_product_monotone(0real, d, 0real, i);
    let s = apart * i;
    assert(accuracy::within(d / low, s, 2real, s));
    lemma_rounded_twice(d / low, s, q, z);
}

/// Two more roundings.
proof fn lemma_rounded_twice(v: real, s: real, q: real, z: real)
    requires
        s >= 0real,
        v >= 0real,
        accuracy::within(v, s, 2real, s),
        accuracy::within(q, v, 1real, accuracy::size(v)),
        accuracy::within(z, 100real * q, 1real, accuracy::size(100real * q)),
    ensures
        accuracy::within(z, s * 100real, 5real, s * 100real),
{
}

/// An opportunity is counted, and counts for its records, whatever becomes of
/// it; one that fails adds to the failures alone, one that passes to the
/// profitable ones with its profit, and one that is sent to the trades.
pub proof fn law_counting_adds_up(
    stats: ArbitrageStats,
    opportunity: ArbitrageOpportunity,
    passed: bool,
    sent: bool,
)
    requires
        has_room(stats),
    ensures
        ({
            let after = counted(stats, opportunity, passed, sent);
            let failures: int = if passed {
                0
            } else {
                1
            };
            let trades: int = if passed && sent {
                1
            } else {
                0
            };
            &&& after.total_opportunities == stats.total_opportunities + 1
            &&& after.failed_simulations == stats.failed_simulations + failures
            &&& after.profitable_opportunities == stats.profitable_opportunities + 1 - failures
            &&& after.executed_trades == stats.executed_trades + trades
            &&& after.total_blocks_processed == stats.total_blocks_processed
            &&& after.session_start == stats.session_start
            &&& passed ==> after.total_potential_profit == double::sum(
                stats.total_potential_profit,
                opportunity.expected_profit_usd,
            )
            &&& !passed ==> after.total_potential_profit == stats.total_potential_profit
            &&& !passed ==> after.max_profit_usd == stats.max_profit_usd
        }),
{
}

/// A record is the larger one of the old record and the new value: the highest
/// spread of all opportunities, and the highest profit of those that passed.
pub proof fn law_records_are_the_highest(
    stats: ArbitrageStats,
    opportunity: ArbitrageOpportunity,
    passed: bool,
    sent: bool,
)
    requires
        stats.max_spread_pct.is_finite(),
        stats.max_profit_usd.is_finite(),
        opportunity.spread_pct.is_finite(),
        opportunity.expected_profit_usd.is_finite(),
    ensures
        ({
            let after = counted(stats, opportunity, passed, sent);
            let (old_spread, new_spread) = (stats.max_spread_pct, opportunity.spread_pct);
            let (old_profit, new_profit) = (stats.max_profit_usd, opportunity.expected_profit_usd);
            &&& after.max_spread_pct == old_spread || after.max_spread_pct == new_spread
            &&& accuracy::real_of(after.max_spread_pct) >= accuracy::real_of(old_spread)
            &&& accuracy::real_of(after.max_spread_pct) >= accuracy::real_of(new_spread)
            &&& passed ==> after.max_profit_usd == old_profit || after.max_profit_usd == new_profit
            &&& passed ==> accuracy::real_of(after.max_profit_usd) >= accuracy::real_of(old_profit)
            &&& passed ==> accuracy::real_of(after.max_profit_usd) >= accuracy::real_of(new_profit)
        }),
{
    accuracy::law_comparison_is_that_of_the_values(stats.max_spread_pct, opportunity.spread_pct);
    accuracy::law_comparison_is_that_of_the_values(
        stats.max_profit_usd,
        opportunity.expected_profit_usd,
    );
}

/// The bot trades from the account of its key; from the zero address where
/// there is no key, or the text is none.
pub proof fn law_trader_is_the_account_of_the_key(key: Seq<char>, i: int)
    requires
        0 <= i < 20,
    ensures
        outside::key_account(key) matches Some(account) ==> trader(Some(key)) == account,
        outside::key_account(key) is None ==> trader(Some(key)).len() == 20 && trader(Some(key))[i]
            == 0,
        trader(None).len() == 20 && trader(None)[i] == 0,
{
}

/// A contract is run exactly where one is configured: from the trader's account,
/// with the pools and the amounts of the opportunity, without value.
pub proof fn law_run_is_that_of_the_opportunity(
    config: BotConfig,
    pools: Seq<PoolConfig>,
    states: Seq<PoolState>,
    opportunity: ArbitrageOpportunity,
    timestamp: nat,
)
    ensures
        ({
            let run = contract_run(config, pools, states, opportunity, timestamp);
            let caller = trader(types::characters(config.private_key));
            &&& config.contract_address is None ==> run is None
            &&& config.contract_address matches Some(contract) ==> run == Some(
                simulator::verdict(
                    evm::ending(
                        simulator::simulated_accounts(pools, states, caller, contract@),
                        (evm::Call {
                            chain_id: 8453,
                            block_number: 99_999_999,
                            timestamp,
                            caller,
                            contract: contract@,
                            calldata: simulator::calldata_of(
                                pools[opportunity.buy_pool_idx as int].address@,
                                pools[opportunity.sell_pool_idx as int].address@,
                                wei(opportunity.optimal_amount_weth) as nat,
                                least_profit_wei(
                                    opportunity.expected_profit_usd,
                                    opportunity.buy_price,
                                ) as nat,
                            ),
                            value: 0,
                            gas_limit: 1_500_000,
                        }),
                    ),
                ),
            )
        }),
{
}

/// The checks of an opportunity look at the pools that it trades in, whichever
/// others there are.
pub proof fn law_checks_look_at_both_pools(
    states: Seq<PoolState>,
    opportunity: ArbitrageOpportunity,
    now: u128,
)
    ensures
        checked(states, opportunity, now) == simulator::quick_verdict(
            states[opportunity.buy_pool_idx as int],
            states[opportunity.sell_pool_idx as int],
            opportunity.optimal_amount_weth,
            now,
        ),
        checked(states, opportunity, now).success ==> ({
            let buy = states[opportunity.buy_pool_idx as int];
            let sell = states[opportunity.sell_pool_idx as int];
            &&& buy.is_initialized && sell.is_initialized
            &&& buy.liquidity > 0 && sell.liquidity > 0
            &&& double::less(Double { bits: 0 }, buy.eth_price_usd)
            &&& double::less(Double { bits: 0 }, sell.eth_price_usd)
            &&& now - buy.last_update < 5_001_000_000
            &&& now - sell.last_update < 5_001_000_000
        }),
{
}

/// A trade is skipped for its first failure, of the checks or of the run.
pub proof fn law_first_failure_is_the_reason(
    config: BotConfig,
    pools: Seq<PoolConfig>,
    opportunity: ArbitrageOpportunity,
    checks: simulator::Verdict,
    run: Option<simulator::Verdict>,
)
    ensures
        ({
            let what = decision(config, pools, opportunity, checks, run);
            &&& !checks.success ==> what == (Decision::Skipped { simulation: checks })
            &&& checks.success && run is Some && !run.unwrap().success ==> what == (
            Decision::Skipped { simulation: run.unwrap() })
            &&& checks.success && (run is None || run.unwrap().success) ==> what is Reported
                && what->Reported_simulation == checks && what->order == order_for(
                config,
                pools,
                opportunity,
            )
        }),
{
}

/// An opportunity is what a search between the dear and the cheap pool found,
/// with the spread of the two prices.
pub proof fn law_opportunity_is_what_the_search_found(
    pools: Seq<PoolConfig>,
    states: Seq<PoolState>,
    config: BotConfig,
    now: u128,
    buy: int,
    sell: int,
)
    requires
        opportunity_in(pools, states, config, now) is Some,
        (buy == 0 && sell == 1) || (buy == 1 && sell == 0),
        double::less(states[buy].eth_price_usd, states[sell].eth_price_usd),
    ensures
        ({
            let o = opportunity_in(pools, states, config, now).unwrap();
            let best = search::optimum(
                math::Market {
                    sell_sqrt_price: states[sell].sqrt_price_f64,
                    sell_liquidity: states[sell].liquidity_f64,
                    sell_fee: pools[sell].fee_fraction,
                    buy_sqrt_price: states[buy].sqrt_price_f64,
                    buy_liquidity: states[buy].liquidity_f64,
                    buy_fee: pools[buy].fee_fraction,
                    gas_cost: config.gas_cost_usd,
                    loan_fee_bps: config.flash_loan_fee_bps,
                    eth_price: double::quotient(
                        double::sum(states[0].eth_price_usd, states[1].eth_price_usd),
                        Double { bits: TWO },
                    ),
                },
                config.max_trade_size_weth,
            );
            &&& o.buy_pool_idx == buy
            &&& o.sell_pool_idx == sell
            &&& o.buy_price == states[buy].eth_price_usd
            &&& o.sell_price == states[sell].eth_price_usd
            &&& o.optimal_amount_weth == best.optimal_amount
            &&& o.expected_profit_usd == best.expected_profit
            &&& o.nr_converged == best.converged
            &&& o.nr_iterations == best.iterations
            &&& o.spread_pct == spread_percent(states[0].eth_price_usd, states[1].eth_price_usd)
        }),
{
}

/// Where the largest trade is no smaller than the smallest one, every pair of
/// pools can be decided.
pub proof fn law_pools_can_be_checked(
    pools: Seq<PoolConfig>,
    states: Seq<PoolState>,
    config: BotConfig,
)
    requires
        double::less_or_equal(Double { bits: search::MIN_AMOUNT }, config.max_trade_size_weth),
    ensures
        search::searchable(pair_market(pools, states, config), config.max_trade_size_weth),
{
}

/// What is said of an order holds of its own fields.
pub proof fn law_order_is_seen_as_it_is(order: TradeOrder)
    ensures
        order@.rpc_url == order.rpc_url@,
        order@.private_key == order.private_key@,
        order@.contract == order.contract@,
        order@.buy_pool == order.buy_pool@,
        order@.sell_pool == order.sell_pool@,
        order@.trade_size_weth == order.trade_size_weth,
        order@.amount_in_wei == order.amount_in_wei,
        order@.min_profit_wei == order.min_profit_wei,
{
}

/// What is said of an evaluation holds of its own fields.
pub proof fn law_evaluation_is_seen_as_it_is(evaluation: Evaluation)
    ensures
        evaluation@ is Skipped <==> evaluation is Skipped,
        evaluation matches Evaluation::Skipped { simulation } ==> evaluation@ == (
        Decision::Skipped { simulation: simulation@ }),
        evaluation matches Evaluation::Reported { simulation, order } ==> {
            &&& evaluation@->Reported_simulation == simulation@
            &&& evaluation@->order is Some <==> order is Some
            &&& order is Some ==> evaluation@->order == Some(order.unwrap()@)
        },
{
}

} // verus!
