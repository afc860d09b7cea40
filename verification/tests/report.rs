use arbitraj::double::Double;
use arbitraj::report::{
    buy_side, dollars, failure_reason, loan_fee, percent, pool_line, price_and_tick, sell_side,
    trade_limit, trade_size,
};
use arbitraj::types::{
    ArbitrageOpportunity, BotConfig, DexType, Environment, NumberSettings, PoolConfig, PoolState,
    SimulationResult,
};

fn number(x: f64) -> Double {
    Double::from_bits(x.to_bits())
}

fn pool(name: &str, fee_bps: u32, dex: DexType) -> PoolConfig {
    PoolConfig {
        address: [0; 20],
        name: name.to_string(),
        fee_bps,
        fee_fraction: number(fee_bps as f64 / 10_000.0),
        token0_decimals: 6,
        token1_decimals: 18,
        dex,
    }
}

#[test]
fn settings_are_shown() {
    let env = Environment {
        variables: vec![
            ("RPC_WSS_URL".to_string(), "wss://a".to_string()),
            ("RPC_HTTP_URL".to_string(), "https://a".to_string()),
        ],
    };
    let numbers = NumberSettings {
        gas_cost_usd: None,
        flash_loan_fee_bps: Some(number(7.5)),
        min_net_profit_usd: None,
        max_trade_size_weth: None,
    };
    let config = BotConfig::from_env(&env, &numbers).ok().unwrap();
    assert_eq!(loan_fee(&config), format!("Aave V3 (%{:.2} Komisyon)", 7.5 / 100.0));
    assert_eq!(trade_limit(&config), "50.0 WETH");
    assert_eq!(dollars(config.min_net_profit_usd, 2), "0.50$");
    assert_eq!(percent(number(1.23456)), "1.2346%");
}

#[test]
fn pools_are_shown() {
    assert_eq!(
        pool_line(&pool("Uni", 5, DexType::UniswapV3)),
        "Uni (Uniswap V3 — Ücret: %0.05)"
    );
    assert_eq!(pool_line(&pool("Aero", 100, DexType::Aerodrome)), "Aero (Aerodrome — Ücret: %1.00)");
    let mut state = PoolState::new(0);
    state.eth_price_usd = number(1999.994);
    for (tick, text) in [(0, "0"), (12, "12"), (-201_234, "-201234"), (i32::MIN, "-2147483648")] {
        state.tick = tick;
        assert_eq!(price_and_tick(&state), format!("1999.99$ (tick: {})", text));
    }
}

#[test]
fn opportunities_are_shown() {
    let opportunity = ArbitrageOpportunity {
        buy_pool_idx: 1,
        sell_pool_idx: 0,
        optimal_amount_weth: number(2.5),
        expected_profit_usd: number(30.0),
        buy_price: number(2000.0),
        sell_price: number(2030.456),
        spread_pct: number(1.5),
        nr_converged: true,
        nr_iterations: 4,
    };
    let pools = [pool("A", 5, DexType::UniswapV3), pool("B", 5, DexType::Aerodrome)];
    assert_eq!(buy_side(&opportunity, &pools), "B'dan AL (2000.00$)");
    assert_eq!(sell_side(&opportunity, &pools), "A'e SAT (2030.46$)");
    assert_eq!(trade_size(&opportunity), "2.500000");
    let named =
        SimulationResult { success: false, gas_used: 0, error: Some("REVERT: 0x".to_string()) };
    assert_eq!(failure_reason(&named), "REVERT: 0x");
    let unnamed = SimulationResult { success: false, gas_used: 0, error: None };
    assert_eq!(failure_reason(&unnamed), "Bilinmiyor");
}
