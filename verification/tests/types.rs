use arbitraj::double::Double;
use arbitraj::types::{
    load_pool_configs_from_env, ArbitrageStats, BotConfig, ConfigError, DexType, Environment,
    NumberSettings, PoolState,
};

fn environment(variables: &[(&str, &str)]) -> Environment {
    Environment {
        variables: variables.iter().map(|(k, v)| (k.to_string(), v.to_string())).collect(),
    }
}

fn no_numbers() -> NumberSettings {
    NumberSettings {
        gas_cost_usd: None,
        flash_loan_fee_bps: None,
        min_net_profit_usd: None,
        max_trade_size_weth: None,
    }
}

fn machine(x: Double) -> f64 {
    f64::from_bits(x.to_bits())
}

const URLS: [(&str, &str); 2] =
    [("RPC_WSS_URL", "wss://node.example"), ("RPC_HTTP_URL", "https://node.example")];

fn config(extra: &[(&str, &str)]) -> BotConfig {
    let mut all = URLS.to_vec();
    all.extend_from_slice(extra);
    match BotConfig::from_env(&environment(&all), &no_numbers()) {
        Ok(config) => config,
        Err(error) => panic!("{}", error.message()),
    }
}

fn refusal(variables: &[(&str, &str)]) -> String {
    match BotConfig::from_env(&environment(variables), &no_numbers()) {
        Ok(_) => panic!("accepted"),
        Err(error) => error.message(),
    }
}

#[test]
fn defaults_apply() {
    let c = config(&[]);
    assert_eq!(c.rpc_wss_url, "wss://node.example");
    assert_eq!(c.rpc_http_url, "https://node.example");
    assert_eq!(c.private_key, None);
    assert_eq!(c.contract_address, None);
    assert_eq!(machine(c.gas_cost_usd), 0.10);
    assert_eq!(machine(c.flash_loan_fee_bps), 5.0);
    assert_eq!(machine(c.min_net_profit_usd), 0.50);
    assert_eq!(machine(c.max_trade_size_weth), 50.0);
    assert_eq!(c.stats_interval, 10);
    assert_eq!(c.max_retries, 0);
    assert_eq!(c.max_staleness_ms, 2000);
    assert_eq!(c.chain_id, 8453);
    assert_eq!(c.initial_retry_delay_secs, 2);
    assert_eq!(c.max_retry_delay_secs, 60);
    assert!(!c.execution_enabled());
}

#[test]
fn settings_override_defaults() {
    let c = config(&[
        ("STATS_INTERVAL", "25"),
        ("MAX_RETRIES", "+7"),
        ("MAX_STALENESS_MS", "340282366920938463463374607431768211455"),
        ("CHAIN_ID", "1"),
    ]);
    assert_eq!(c.stats_interval, 25);
    assert_eq!(c.max_retries, 7);
    assert_eq!(c.max_staleness_ms, u128::MAX);
    assert_eq!(c.chain_id, 1);
    let numbers = NumberSettings {
        gas_cost_usd: Some(Double::from_bits(1.25f64.to_bits())),
        flash_loan_fee_bps: Some(Double::from_bits(9.0f64.to_bits())),
        min_net_profit_usd: Some(Double::from_bits(3.0f64.to_bits())),
        max_trade_size_weth: Some(Double::from_bits(8.5f64.to_bits())),
    };
    let c = BotConfig::from_env(&environment(&URLS), &numbers).ok().unwrap();
    assert_eq!(machine(c.gas_cost_usd), 1.25);
    assert_eq!(machine(c.flash_loan_fee_bps), 9.0);
    assert_eq!(machine(c.min_net_profit_usd), 3.0);
    assert_eq!(machine(c.max_trade_size_weth), 8.5);
}

#[test]
fn unreadable_integers_fall_back() {
    let c = config(&[
        ("STATS_INTERVAL", "often"),
        ("MAX_RETRIES", "4294967296"),
        ("MAX_STALENESS_MS", "-1"),
        ("CHAIN_ID", ""),
    ]);
    assert_eq!(c.stats_interval, 10);
    assert_eq!(c.max_retries, 0);
    assert_eq!(c.max_staleness_ms, 2000);
    assert_eq!(c.chain_id, 8453);
}

#[test]
fn first_of_two_variables_counts() {
    let c = config(&[("CHAIN_ID", "5"), ("CHAIN_ID", "6")]);
    assert_eq!(c.chain_id, 5);
}

#[test]
fn urls_are_required() {
    assert_eq!(refusal(&[]), "RPC_WSS_URL .env dosyasında tanımlanmalıdır!");
    assert_eq!(refusal(&[("RPC_WSS_URL", "")]), "RPC_WSS_URL geçerli bir URL olmalıdır!");
    assert_eq!(
        refusal(&[("RPC_WSS_URL", "wss://your-node/key")]),
        "RPC_WSS_URL geçerli bir URL olmalıdır!"
    );
    assert_eq!(
        refusal(&[("RPC_WSS_URL", "wss://a")]),
        "RPC_HTTP_URL .env dosyasında tanımlanmalıdır!"
    );
    assert_eq!(
        refusal(&[("RPC_WSS_URL", "wss://a"), ("RPC_HTTP_URL", "")]),
        "RPC_HTTP_URL geçerli bir URL olmalıdır!"
    );
    assert_eq!(
        refusal(&[("RPC_WSS_URL", "wss://a"), ("RPC_HTTP_URL", "https://your-node")]),
        "RPC_HTTP_URL geçerli bir URL olmalıdır!"
    );
}

#[test]
fn execution_needs_key_and_contract() {
    let contract = ("ARBITRAGE_CONTRACT_ADDRESS", "0x00000000000000000000000000000000000000fF");
    let key = ("PRIVATE_KEY", "some key");
    assert!(config(&[contract, key]).execution_enabled());
    assert!(!config(&[contract]).execution_enabled());
    assert!(!config(&[key]).execution_enabled());
    assert!(!config(&[contract, ("PRIVATE_KEY", "your-private-key-here")]).execution_enabled());
    assert!(!config(&[contract, ("PRIVATE_KEY", "")]).execution_enabled());
    assert_eq!(config(&[key]).private_key, Some("some key".to_string()));
}

#[test]
fn contract_addresses_are_hexadecimal() {
    let parse = |text: &str| config(&[("ARBITRAGE_CONTRACT_ADDRESS", text)]).contract_address;
    let mut expected = [0u8; 20];
    expected[0] = 0xab;
    expected[19] = 0xff;
    assert_eq!(parse("0xAb000000000000000000000000000000000000fF"), Some(expected));
    assert_eq!(parse("0Xab000000000000000000000000000000000000ff"), Some(expected));
    assert_eq!(parse("ab000000000000000000000000000000000000ff"), Some(expected));
    assert_eq!(parse(""), None);
    assert_eq!(parse("0xYourContractAddress"), None);
    assert_eq!(parse("0xab000000000000000000000000000000000000f"), None);
    assert_eq!(parse("0xab000000000000000000000000000000000000fff"), None);
    assert_eq!(parse("0xab000000000000000000000000000000000000fg"), None);
    assert_eq!(parse("0x0xab000000000000000000000000000000000000"), None);
}

const POOLS: [(&str, &str); 2] = [
    ("POOL_A_ADDRESS", "0x1111111111111111111111111111111111111111"),
    ("POOL_B_ADDRESS", "0x2222222222222222222222222222222222222222"),
];

#[test]
fn pools_have_defaults() {
    let pools = load_pool_configs_from_env(&environment(&POOLS)).ok().unwrap();
    assert_eq!(pools.len(), 2);
    assert_eq!(pools[0].address, [0x11; 20]);
    assert_eq!(pools[1].address, [0x22; 20]);
    assert_eq!(pools[0].name, "Havuz A");
    assert_eq!(pools[1].name, "Havuz B");
    assert_eq!((pools[0].fee_bps, pools[1].fee_bps), (5, 100));
    assert_eq!(machine(pools[0].fee_fraction), 5.0 / 10_000.0);
    assert_eq!(machine(pools[1].fee_fraction), 100.0 / 10_000.0);
    assert_eq!((pools[0].dex, pools[1].dex), (DexType::UniswapV3, DexType::Aerodrome));
    for p in &pools {
        assert_eq!((p.token0_decimals, p.token1_decimals), (6, 18));
    }
}

#[test]
fn pools_are_configurable() {
    let mut all = POOLS.to_vec();
    all.extend_from_slice(&[
        ("POOL_A_NAME", "Uni %0.3"),
        ("POOL_B_NAME", ""),
        ("POOL_A_FEE_BPS", "30"),
        ("POOL_B_FEE_BPS", "x"),
        ("POOL_A_DEX", "AeroDrome"),
        ("POOL_B_DEX", "UNISWAP"),
        ("TOKEN0_DECIMALS", "8"),
        ("TOKEN1_DECIMALS", "256"),
    ]);
    let pools = load_pool_configs_from_env(&environment(&all)).ok().unwrap();
    assert_eq!(pools[0].name, "Uni %0.3");
    assert_eq!(pools[1].name, "");
    assert_eq!((pools[0].fee_bps, pools[1].fee_bps), (30, 100));
    assert_eq!(machine(pools[0].fee_fraction), 30.0 / 10_000.0);
    assert_eq!((pools[0].dex, pools[1].dex), (DexType::Aerodrome, DexType::UniswapV3));
    assert_eq!((pools[0].token0_decimals, pools[1].token1_decimals), (8, 18));
}

#[test]
fn unknown_exchanges_fall_back() {
    for name in ["", "curve", "aerodrome ", "uniswapv3"] {
        let mut all = POOLS.to_vec();
        all.extend_from_slice(&[("POOL_A_DEX", name), ("POOL_B_DEX", name)]);
        let pools = load_pool_configs_from_env(&environment(&all)).ok().unwrap();
        assert_eq!((pools[0].dex, pools[1].dex), (DexType::UniswapV3, DexType::Aerodrome));
    }
    assert_eq!(DexType::UniswapV3.name(), "Uniswap V3");
    assert_eq!(DexType::Aerodrome.name(), "Aerodrome");
}

fn pool_refusal(variables: &[(&str, &str)]) -> ConfigError {
    match load_pool_configs_from_env(&environment(variables)) {
        Ok(_) => panic!("accepted"),
        Err(error) => error,
    }
}

#[test]
fn pool_addresses_are_required() {
    assert_eq!(pool_refusal(&[]).message(), "POOL_A_ADDRESS .env dosyasında tanımlanmalıdır!");
    assert_eq!(
        pool_refusal(&POOLS[..1]).message(),
        "POOL_B_ADDRESS .env dosyasında tanımlanmalıdır!"
    );
    let reason = "0x12".parse::<alloy::primitives::Address>().unwrap_err().to_string();
    assert_eq!(
        pool_refusal(&[("POOL_A_ADDRESS", "0x12")]).message(),
        format!("POOL_A_ADDRESS geçersiz adres: {}", reason)
    );
    let odd = "0x123".parse::<alloy::primitives::Address>().unwrap_err().to_string();
    assert!(odd != reason);
    assert_eq!(
        pool_refusal(&[POOLS[0], ("POOL_B_ADDRESS", "0x123")]).message(),
        format!("POOL_B_ADDRESS geçersiz adres: {}", odd)
    );
}

#[test]
fn uptime_is_a_clock() {
    let start = 77;
    let stats = ArbitrageStats::new(start);
    assert_eq!(stats.total_blocks_processed, 0);
    assert_eq!(stats.uptime_str(start), "00:00:00");
    assert_eq!(stats.uptime_str(0), "00:00:00");
    let second = 1_000_000_000u128;
    assert_eq!(stats.uptime_str(start + second - 1), "00:00:00");
    assert_eq!(stats.uptime_str(start + second), "00:00:01");
    assert_eq!(stats.uptime_str(start + 3661 * second), "01:01:01");
    assert_eq!(stats.uptime_str(start + (100 * 3600 + 59 * 60 + 59) * second), "100:59:59");
}

#[test]
fn new_pools_are_inactive_and_age() {
    let mut state = PoolState::new(5_000_000);
    assert!(!state.is_active());
    assert_eq!(state.staleness_ms(5_000_000), 0);
    assert_eq!(state.staleness_ms(4_000_000), 0);
    assert_eq!(state.staleness_ms(5_999_999), 0);
    assert_eq!(state.staleness_ms(6_000_000), 1);
    assert_eq!(state.staleness_ms(2_005_000_000), 2000);
    state.is_initialized = true;
    state.eth_price_usd = Double::from_bits(2000f64.to_bits());
    assert!(!state.is_active());
    state.liquidity = 1;
    assert!(state.is_active());
    state.eth_price_usd = Double::from_bits(f64::NAN.to_bits());
    assert!(!state.is_active());
}
