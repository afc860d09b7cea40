use arbitraj::double::Double;
use arbitraj::session::{
    begin_block, can_process, fits, price_line, process_block, spread_line, stats_due,
    BlockReport, Reconnection, Retry,
};
use arbitraj::simulator::SimulationEngine;
use arbitraj::state_sync::{PoolReading, Slot0};
use arbitraj::strategy::Evaluation;
use arbitraj::types::{ArbitrageStats, BotConfig, DexType, PoolConfig, PoolState};
use arbitraj::wide::U256;

fn number(x: f64) -> Double {
    Double::from_bits(x.to_bits())
}

fn config(max_retries: u32, stats_interval: u64) -> BotConfig {
    BotConfig {
        rpc_wss_url: String::new(),
        rpc_http_url: String::new(),
        private_key: None,
        contract_address: None,
        gas_cost_usd: number(0.1),
        flash_loan_fee_bps: number(5.0),
        min_net_profit_usd: number(0.5),
        stats_interval,
        max_retries,
        initial_retry_delay_secs: 2,
        max_retry_delay_secs: 60,
        max_staleness_ms: 2000,
        max_trade_size_weth: number(50.0),
        chain_id: 8453,
    }
}

#[test]
fn delays_double_up_to_the_largest() {
    let c = config(0, 10);
    let mut attempts = Reconnection::new(&c);
    for secs in [2, 4, 8, 16, 32, 60, 60, 60] {
        assert_eq!(attempts.ended(&c, true), Retry::Wait { secs });
    }
    assert_eq!(attempts.count, 8);
    // A connection that ended without an error starts over.
    for secs in [2, 2] {
        assert_eq!(attempts.ended(&c, false), Retry::Wait { secs });
    }
    assert_eq!(attempts.ended(&c, true), Retry::Wait { secs: 4 });
}

#[test]
fn attempts_end_at_the_limit() {
    let c = config(3, 10);
    let mut attempts = Reconnection::new(&c);
    assert_eq!(attempts.ended(&c, true), Retry::Wait { secs: 2 });
    assert_eq!(attempts.ended(&c, true), Retry::Wait { secs: 4 });
    assert_eq!(attempts.ended(&c, true), Retry::Wait { secs: 8 });
    assert_eq!(attempts.ended(&c, true), Retry::GiveUp);
    let once = config(1, 10);
    let mut attempts = Reconnection::new(&once);
    assert_eq!(attempts.ended(&once, false), Retry::Wait { secs: 2 });
    assert_eq!(attempts.ended(&once, false), Retry::GiveUp);
}

#[test]
fn blocks_are_counted() {
    let mut stats = ArbitrageStats::new(0);
    let c = config(0, 3);
    assert!(!stats_due(&stats, &c));
    assert!(begin_block(&mut stats, &vec![Ok(()), Ok(())]));
    assert!(!begin_block(&mut stats, &vec![Ok(()), Err("x".to_string())]));
    assert!(!stats_due(&stats, &c));
    assert!(begin_block(&mut stats, &vec![]));
    assert_eq!(stats.total_blocks_processed, 3);
    assert!(stats_due(&stats, &c));
}

fn pool(name: &str) -> PoolConfig {
    PoolConfig {
        address: [0; 20],
        name: name.to_string(),
        fee_bps: 5,
        fee_fraction: number(0.0005),
        token0_decimals: 6,
        token1_decimals: 18,
        dex: DexType::Aerodrome,
    }
}

fn state(price: f64) -> PoolState {
    let mut state = PoolState::new(0);
    state.is_initialized = true;
    state.liquidity = 1;
    state.eth_price_usd = number(price);
    state
}

#[test]
fn spreads_have_lines() {
    let pools = [pool("Ucuz"), pool("Pahalı")];
    let shown = spread_line(&pools, &[state(2000.0), state(2010.0)]).unwrap();
    assert!(shown.notable);
    assert_eq!(
        shown.line,
        format!("Spread: {:.4}% ({:.4}$) | Ucuz → Pahalı AL→SAT", 10.0 / 2000.0 * 100.0, 10.0)
    );
    let shown = spread_line(&pools, &[state(2000.5), state(2000.0)]).unwrap();
    assert!(!shown.notable);
    assert_eq!(shown.line, "Spread: 0.0250% (0.5000$) | Pahalı → Ucuz");
    assert!(spread_line(&pools, &[state(2000.0), state(2000.001)]).is_none());
    assert!(spread_line(&pools, &[state(2000.0)]).is_none());
    assert!(spread_line(&pools, &[state(2000.0), PoolState::new(0)]).is_none());
    assert!(spread_line(&[], &[]).is_none());
}

#[test]
fn prices_have_a_line() {
    let pools = [pool("Uniswap V3 USDC/WETH"), pool("Aero")];
    assert_eq!(
        price_line(&pools, &[state(2000.456), state(1999.0)]),
        "Uniswap V3 U=2000.46$ | Aero=1999.00$"
    );
    assert_eq!(price_line(&pools, &[PoolState::new(0), state(1.5)]), " | Aero=1.50$");
    assert_eq!(price_line(&pools, &[state(1.5)]), "Uniswap V3 U=1.50$");
    assert_eq!(price_line(&pools, &[]), "");
}

#[test]
fn names_are_cut_between_characters() {
    assert!(fits("on iki bayt.") && fits("kısa") && fits(""));
    assert!(fits("onbirbaytlı ve fazlası"));
    assert!(!fits("onbir bayt.ş"));
    assert!(fits("on bayt..şvesaire"));
    assert_eq!(price_line(&[pool("on bayt..şvesaire")], &[state(3.0)]), "on bayt..şv=3.00$");
}

/// A reading of a pool whose square-root price is `root`.
fn reading(root: u128, now: u128) -> PoolReading {
    PoolReading {
        slot0: Ok(Slot0 { sqrt_price_x96: U256::from_u128(root << 96), tick: 3 }),
        liquidity: Ok(1_000_000_000_000_000_000_000),
        now,
    }
}

fn process(
    config: &BotConfig,
    states: &mut Vec<PoolState>,
    stats: &mut ArbitrageStats,
    readings: &Vec<PoolReading>,
) -> BlockReport {
    let pools = [pool("Uni"), pool("Aero")];
    assert!(can_process(config, &pools, states, readings, 77, 1_000));
    process_block(
        config,
        &pools,
        states,
        readings,
        &SimulationEngine::new(),
        stats,
        77,
        1_000,
        1_700_000_000,
    )
}

#[test]
fn a_block_is_read_and_its_opportunity_evaluated() {
    let mut states = vec![PoolState::new(0), PoolState::new(0)];
    states[0].bytecode = Some(vec![1]);
    let mut stats = ArbitrageStats::new(0);
    let readings = vec![reading(22_472, 900), reading(22_222, 950)];
    let report = process(&config(0, 10), &mut states, &mut stats, &readings);
    assert_eq!(report.results, vec![Ok(()), Ok(())]);
    let (opportunity, evaluation) = report.found.unwrap();
    assert_eq!((opportunity.buy_pool_idx, opportunity.sell_pool_idx), (0, 1));
    assert_eq!(opportunity.buy_price.to_bits(), states[0].eth_price_usd.to_bits());
    match evaluation {
        Evaluation::Reported { simulation, order } => {
            assert!(simulation.success && order.is_none());
        }
        other => panic!("{:?}", other),
    }
    assert_eq!((states[0].last_block, states[1].last_update), (77, 950));
    assert_eq!(states[0].bytecode, Some(vec![1]));
    assert_eq!(stats.total_blocks_processed, 1);
    assert_eq!(stats.total_opportunities, 1);
    assert_eq!(stats.profitable_opportunities, 1);
    assert_eq!(stats.executed_trades, 0);
}

#[test]
fn a_failed_reading_brings_no_trade() {
    let mut states = vec![PoolState::new(0), PoolState::new(0)];
    let mut stats = ArbitrageStats::new(0);
    let good = vec![reading(22_472, 900), reading(22_222, 950)];
    process(&config(0, 10), &mut states, &mut stats, &good);
    // The states still offer the trade, but one of them was not read again.
    let half = vec![
        reading(22_472, 990),
        PoolReading { slot0: Err("koptu".to_string()), liquidity: Ok(1), now: 995 },
    ];
    let report = process(&config(0, 10), &mut states, &mut stats, &half);
    assert_eq!(
        report.results,
        vec![Ok(()), Err("[Aero] slot0 okuma hatası: koptu".to_string())]
    );
    assert!(report.found.is_none());
    assert_eq!((states[0].last_update, states[1].last_update), (990, 950));
    assert_eq!(stats.total_blocks_processed, 2);
    assert_eq!((stats.total_opportunities, stats.failed_simulations), (1, 0));
}

#[test]
fn a_block_without_a_spread_is_only_counted() {
    let mut states = vec![PoolState::new(0), PoolState::new(0)];
    let mut stats = ArbitrageStats::new(0);
    let mut eager = config(0, 10);
    eager.min_net_profit_usd = number(-1_000.0);
    let readings = vec![reading(22_360, 900), reading(22_360, 950)];
    let report = process(&eager, &mut states, &mut stats, &readings);
    assert!(report.found.is_none());
    assert_eq!((stats.total_blocks_processed, stats.total_opportunities), (1, 0));
}

#[test]
fn blocks_with_an_empty_range_cannot_be_processed() {
    let pools = [pool("Uni"), pool("Aero")];
    let states = vec![PoolState::new(0), PoolState::new(0)];
    let mut tiny = config(0, 10);
    tiny.max_trade_size_weth = number(0.00005);
    let shallow = |root: u128| PoolReading {
        liquidity: Ok(1_000_000_000_000_000_000),
        ..reading(root, 900)
    };
    let readings = vec![shallow(22_472), shallow(22_222)];
    assert!(!can_process(&tiny, &pools, &states, &readings, 77, 1_000));
    let equal = vec![shallow(22_360), shallow(22_360)];
    assert!(can_process(&tiny, &pools, &states, &equal, 77, 1_000));
    let failed = vec![
        shallow(22_472),
        PoolReading { liquidity: Err("yok".to_string()), ..shallow(22_222) },
    ];
    assert!(can_process(&tiny, &pools, &states, &failed, 77, 1_000));
}
