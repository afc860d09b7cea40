use arbitraj::double::Double;
use arbitraj::simulator::SimulationEngine;
use arbitraj::strategy::{
    can_check, check_arbitrage_opportunity, evaluate_and_execute, settle, trade_amounts,
    trader_address, Evaluation,
};
use arbitraj::types::{
    ArbitrageOpportunity, ArbitrageStats, BotConfig, DexType, PoolConfig, PoolState,
    SimulationResult,
};
use arbitraj::wide::U256;

fn number(x: f64) -> Double {
    Double::from_bits(x.to_bits())
}

fn machine(x: Double) -> f64 {
    f64::from_bits(x.to_bits())
}

fn config() -> BotConfig {
    BotConfig {
        rpc_wss_url: "wss://node".to_string(),
        rpc_http_url: "https://node".to_string(),
        private_key: None,
        contract_address: None,
        gas_cost_usd: number(0.10),
        flash_loan_fee_bps: number(5.0),
        min_net_profit_usd: number(0.50),
        stats_interval: 10,
        max_retries: 0,
        initial_retry_delay_secs: 2,
        max_retry_delay_secs: 60,
        max_staleness_ms: 2000,
        max_trade_size_weth: number(10.0),
        chain_id: 8453,
    }
}

fn pool(address: [u8; 20], fee: f64) -> PoolConfig {
    PoolConfig {
        address,
        name: "Havuz".to_string(),
        fee_bps: 5,
        fee_fraction: number(fee),
        token0_decimals: 6,
        token1_decimals: 18,
        dex: DexType::UniswapV3,
    }
}

fn pools() -> [PoolConfig; 2] {
    [pool([0xa1; 20], 0.0005), pool([0xb2; 20], 0.003)]
}

fn state(price: f64) -> PoolState {
    let liquidity: u128 = 1_000_000_000_000_000_000_000;
    PoolState {
        sqrt_price_x96: U256::zero(),
        sqrt_price_f64: number((1.0e12 / price).sqrt() * 2f64.powi(96)),
        tick: 0,
        liquidity,
        liquidity_f64: number(liquidity as f64),
        eth_price_usd: number(price),
        last_block: 0,
        last_update: 0,
        is_initialized: true,
        bytecode: None,
    }
}

#[test]
fn a_wide_spread_is_an_opportunity() {
    let found =
        check_arbitrage_opportunity(&pools(), &[state(1980.0), state(2020.0)], &config(), 0)
            .unwrap();
    assert_eq!((found.buy_pool_idx, found.sell_pool_idx), (0, 1));
    assert_eq!(machine(found.buy_price), 1980.0);
    assert_eq!(machine(found.sell_price), 2020.0);
    assert_eq!(machine(found.spread_pct), (40.0f64 / 1980.0) * 100.0);
    assert!(machine(found.expected_profit_usd) > 0.5);
    assert!(machine(found.optimal_amount_weth) > 0.0);
    assert!(found.nr_iterations <= 50);
    let other =
        check_arbitrage_opportunity(&pools(), &[state(2020.0), state(1980.0)], &config(), 0)
            .unwrap();
    assert_eq!((other.buy_pool_idx, other.sell_pool_idx), (1, 0));
    assert_eq!(machine(other.buy_price), 1980.0);
}

#[test]
fn narrow_spreads_are_none() {
    let same = [state(2000.0), state(2000.0)];
    assert!(check_arbitrage_opportunity(&pools(), &same, &config(), 0).is_none());
    let close = [state(2000.0), state(2001.0)];
    assert!(check_arbitrage_opportunity(&pools(), &close, &config(), 0).is_none());
}

#[test]
fn equal_prices_are_none_whatever_the_least_profit() {
    let mut eager = config();
    eager.min_net_profit_usd = number(-1_000_000.0);
    let same = [state(2000.0), state(2000.0)];
    assert!(check_arbitrage_opportunity(&pools(), &same, &eager, 0).is_none());
    // The least difference is a spread.
    let mut above = state(2000.0);
    above.eth_price_usd = Double::from_bits(2000f64.to_bits() + 1);
    let found =
        check_arbitrage_opportunity(&pools(), &[state(2000.0), above], &eager, 0).unwrap();
    assert!(machine(found.spread_pct) > 0.0);
    assert!(machine(found.buy_price) < machine(found.sell_price));
}

#[test]
fn missing_pools_offer_nothing() {
    let two = [state(1980.0), state(2020.0)];
    assert!(check_arbitrage_opportunity(&pools()[..1], &two, &config(), 0).is_none());
    assert!(check_arbitrage_opportunity(&pools(), &two[..1], &config(), 0).is_none());
    assert!(check_arbitrage_opportunity(&[], &[], &config(), 0).is_none());
}

#[test]
fn inactive_pools_offer_nothing() {
    let mut idle = state(2020.0);
    idle.is_initialized = false;
    assert!(check_arbitrage_opportunity(&pools(), &[state(1980.0), idle], &config(), 0).is_none());
    let mut dry = state(1980.0);
    dry.liquidity = 0;
    assert!(check_arbitrage_opportunity(&pools(), &[dry, state(2020.0)], &config(), 0).is_none());
}

#[test]
fn stale_pools_offer_nothing() {
    let two = [state(1980.0), state(2020.0)];
    let at = |ms: u128| check_arbitrage_opportunity(&pools(), &two, &config(), ms * 1_000_000);
    assert!(at(2000).is_some());
    assert!(at(2001).is_none());
    let mut fresh = state(2020.0);
    fresh.last_update = 2_001_000_000;
    let half = [state(1980.0), fresh];
    assert!(check_arbitrage_opportunity(&pools(), &half, &config(), 2_001_000_000).is_none());
}

#[test]
fn the_profit_must_exceed_the_least_one() {
    let two = [state(1980.0), state(2020.0)];
    let found = check_arbitrage_opportunity(&pools(), &two, &config(), 0).unwrap();
    let mut exact = config();
    exact.min_net_profit_usd = found.expected_profit_usd;
    assert!(check_arbitrage_opportunity(&pools(), &two, &exact, 0).is_none());
    let mut below = config();
    below.min_net_profit_usd = Double::from_bits(found.expected_profit_usd.to_bits() - 1);
    assert!(check_arbitrage_opportunity(&pools(), &two, &below, 0).is_some());
}

#[test]
fn empty_ranges_cannot_be_checked() {
    let mut two = [state(1980.0), state(2020.0)];
    for s in two.iter_mut() {
        s.liquidity_f64 = number(1e18);
    }
    assert!(can_check(&pools(), &two, &config(), 0));
    let mut tiny = config();
    tiny.max_trade_size_weth = number(0.00005);
    assert!(!can_check(&pools(), &two, &tiny, 0));
    assert!(can_check(&pools(), &two[..1], &tiny, 0));
    assert!(can_check(&pools(), &two, &tiny, u128::MAX));
}

fn opportunity() -> ArbitrageOpportunity {
    ArbitrageOpportunity {
        buy_pool_idx: 0,
        sell_pool_idx: 1,
        optimal_amount_weth: number(2.5),
        expected_profit_usd: number(30.0),
        buy_price: number(2000.0),
        sell_price: number(2030.0),
        spread_pct: number(1.5),
        nr_converged: true,
        nr_iterations: 4,
    }
}

#[test]
fn amounts_are_wei() {
    let amounts = trade_amounts(&opportunity());
    assert_eq!(amounts, (2_500_000_000_000_000_000, 15_000_000_000_000_000));
    let mut odd = opportunity();
    odd.optimal_amount_weth = number(1e30);
    odd.buy_price = number(0.0);
    assert_eq!(trade_amounts(&odd), (u128::MAX, u128::MAX));
    odd.optimal_amount_weth = number(-1.0);
    odd.expected_profit_usd = number(f64::NAN);
    assert_eq!(trade_amounts(&odd), (0, 0));
    odd.optimal_amount_weth = number(0.3);
    odd.expected_profit_usd = number(7.0);
    odd.buy_price = number(3.0);
    assert_eq!(
        trade_amounts(&odd),
        ((0.3f64 * 1e18) as u128, ((7.0f64 / 3.0) * 1e18) as u128)
    );
}

fn passed() -> SimulationResult {
    SimulationResult { success: true, gas_used: 350_000, error: None }
}

fn failed(text: &str) -> SimulationResult {
    SimulationResult { success: false, gas_used: 9, error: Some(text.to_string()) }
}

fn live() -> BotConfig {
    let mut c = config();
    c.private_key =
        Some("0x0000000000000000000000000000000000000000000000000000000000000001".to_string());
    c.contract_address = Some([0xcc; 20]);
    c
}

fn counters(s: &ArbitrageStats) -> (u64, u64, u64, u64) {
    (s.total_opportunities, s.profitable_opportunities, s.failed_simulations, s.executed_trades)
}

#[test]
fn observed_trades_are_reported_only() {
    let mut stats = ArbitrageStats::new(0);
    match settle(&config(), &pools(), &opportunity(), passed(), None, &mut stats) {
        Evaluation::Reported { simulation, order } => {
            assert_eq!(simulation.gas_used, 350_000);
            assert!(order.is_none());
        }
        other => panic!("{:?}", other),
    }
    assert_eq!(counters(&stats), (1, 1, 0, 0));
    assert_eq!(machine(stats.max_spread_pct), 1.5);
    assert_eq!(machine(stats.max_profit_usd), 30.0);
    assert_eq!(machine(stats.total_potential_profit), 30.0);
    let mut smaller = opportunity();
    smaller.spread_pct = number(0.5);
    smaller.expected_profit_usd = number(10.0);
    settle(&config(), &pools(), &smaller, passed(), None, &mut stats);
    assert_eq!(counters(&stats), (2, 2, 0, 0));
    assert_eq!(machine(stats.max_spread_pct), 1.5);
    assert_eq!(machine(stats.max_profit_usd), 30.0);
    assert_eq!(machine(stats.total_potential_profit), 40.0);
}

#[test]
fn passing_trades_are_sent() {
    let mut stats = ArbitrageStats::new(0);
    match settle(&live(), &pools(), &opportunity(), passed(), Some(passed()), &mut stats) {
        Evaluation::Reported { order: Some(order), .. } => {
            assert_eq!(order.rpc_url, "wss://node");
            assert_eq!(Some(order.private_key), live().private_key);
            assert_eq!(order.contract, [0xcc; 20]);
            assert_eq!(order.buy_pool, [0xa1; 20]);
            assert_eq!(order.sell_pool, [0xb2; 20]);
            assert_eq!(machine(order.trade_size_weth), 2.5);
            assert_eq!(order.amount_in_wei, 2_500_000_000_000_000_000);
            assert_eq!(order.min_profit_wei, 15_000_000_000_000_000);
        }
        other => panic!("{:?}", other),
    }
    assert_eq!(counters(&stats), (1, 1, 0, 1));
}

#[test]
fn failing_trades_are_never_sent() {
    let mut stats = ArbitrageStats::new(0);
    for (checks, run, text) in [
        (failed("kontrol"), None, "kontrol"),
        (failed("kontrol"), Some(passed()), "kontrol"),
        (failed("kontrol"), Some(failed("REVERT: 0x")), "kontrol"),
        (passed(), Some(failed("REVERT: 0x")), "REVERT: 0x"),
    ] {
        match settle(&live(), &pools(), &opportunity(), checks, run, &mut stats) {
            Evaluation::Skipped { simulation } => {
                assert!(!simulation.success);
                assert_eq!(simulation.error, Some(text.to_string()));
            }
            other => panic!("{:?}", other),
        }
    }
    assert_eq!(counters(&stats), (4, 0, 4, 0));
    assert_eq!(machine(stats.max_spread_pct), 1.5);
    assert_eq!(machine(stats.max_profit_usd), 0.0);
    assert_eq!(machine(stats.total_potential_profit), 0.0);
}

#[test]
fn evaluation_simulates_and_decides() {
    let engine = SimulationEngine::new();
    let two = [state(2000.0), state(2030.0)];
    let mut stats = ArbitrageStats::new(0);
    let sent = evaluate_and_execute(
        &live(),
        &pools(),
        &two,
        &opportunity(),
        &engine,
        &mut stats,
        0,
        1_700_000_000,
    );
    match sent {
        Evaluation::Reported { simulation, order } => {
            assert_eq!(simulation.gas_used, 350_000);
            assert_eq!(order.unwrap().amount_in_wei, 2_500_000_000_000_000_000);
        }
        other => panic!("{:?}", other),
    }
    assert_eq!(counters(&stats), (1, 1, 0, 1));
    // A contract whose run does not succeed.
    let mut failing = live();
    let mut blake = [0u8; 20];
    blake[19] = 9;
    failing.contract_address = Some(blake);
    let skipped = evaluate_and_execute(
        &failing,
        &pools(),
        &two,
        &opportunity(),
        &engine,
        &mut stats,
        0,
        1_700_000_000,
    );
    match skipped {
        Evaluation::Skipped { simulation } => {
            assert!(simulation.error.unwrap().starts_with("HALT: "));
        }
        other => panic!("{:?}", other),
    }
    assert_eq!(counters(&stats), (2, 1, 1, 1));
    // Stale data.
    let stale = evaluate_and_execute(
        &config(),
        &pools(),
        &two,
        &opportunity(),
        &engine,
        &mut stats,
        6_000_000_000,
        1_700_000_000,
    );
    match stale {
        Evaluation::Skipped { simulation } => {
            assert_eq!(simulation.error.unwrap(), "Bayat veri: AL=6000ms, SAT=6000ms");
        }
        other => panic!("{:?}", other),
    }
    assert_eq!(counters(&stats), (3, 1, 2, 1));
}

#[test]
fn the_trader_is_the_account_of_the_key() {
    let one = trader_address(&live());
    let expected: [u8; 20] = [
        0x7e, 0x5f, 0x45, 0x52, 0x09, 0x1a, 0x69, 0x12, 0x5d, 0x5d, 0xfc, 0xb7, 0xb8, 0xc2, 0x65,
        0x90, 0x29, 0x39, 0x5b, 0xdf,
    ];
    assert_eq!(one, expected);
    assert_eq!(trader_address(&config()), [0; 20]);
    let mut wrong = live();
    for text in ["", "key", "0x01", "0x0000000000000000000000000000000000000000000000000000000000000000"] {
        wrong.private_key = Some(text.to_string());
        assert_eq!(trader_address(&wrong), [0; 20]);
    }
}
