use arbitraj::double::Double;
use arbitraj::state_sync::{
    cache_all_bytecodes, cache_pool_bytecode, sync_all_pools, sync_pool_state, PoolReading, Slot0,
};
use arbitraj::types::{DexType, PoolConfig, PoolState};
use arbitraj::wide::U256;

fn pool(name: &str) -> PoolConfig {
    PoolConfig {
        address: [1; 20],
        name: name.to_string(),
        fee_bps: 5,
        fee_fraction: Double::from_bits(0.0005f64.to_bits()),
        token0_decimals: 6,
        token1_decimals: 18,
        dex: DexType::UniswapV3,
    }
}

/// 2^96 * 2 * 10^4: a square-root price of 20000.
fn root() -> U256 {
    U256::from_u128(20_000 * (1u128 << 96))
}

fn reading(slot0: Result<Slot0, String>, liquidity: Result<u128, String>) -> PoolReading {
    PoolReading { slot0, liquidity, now: 1234 }
}

#[test]
fn a_reading_becomes_the_state() {
    let mut state = PoolState::new(0);
    state.bytecode = Some(vec![1, 2, 3]);
    let slot0 = Slot0 { sqrt_price_x96: root(), tick: -7 };
    let good = reading(Ok(slot0), Ok(12_345_678_901_234_567_890_123));
    assert_eq!(sync_pool_state(&pool("A"), &mut state, &good, 99), Ok(()));
    assert_eq!(state.sqrt_price_x96, root());
    assert_eq!(state.sqrt_price_f64.to_bits(), (20_000.0 * 2f64.powi(96)).to_bits());
    assert_eq!(state.tick, -7);
    assert_eq!(state.liquidity, 12_345_678_901_234_567_890_123);
    assert_eq!(state.liquidity_f64.to_bits(), 12_345_678_901_234_567_890_123f64.to_bits());
    let price = 1.0 / (20_000.0f64 * 20_000.0 * (1.0 / 1e12));
    assert_eq!(state.eth_price_usd.to_bits(), price.to_bits());
    assert_eq!(state.last_block, 99);
    assert_eq!(state.last_update, 1234);
    assert!(state.is_initialized && state.is_active());
    assert_eq!(state.staleness_ms(1234), 0);
    assert_eq!(state.bytecode, Some(vec![1, 2, 3]));
}

#[test]
fn a_pool_without_liquidity_is_read_but_inactive() {
    let mut state = PoolState::new(0);
    let slot0 = Slot0 { sqrt_price_x96: root(), tick: 0 };
    assert!(sync_pool_state(&pool("A"), &mut state, &reading(Ok(slot0), Ok(0)), 1).is_ok());
    assert!(state.is_initialized && !state.is_active());
}

#[test]
fn failures_leave_the_state() {
    let mut state = PoolState::new(0);
    let slot0 = Slot0 { sqrt_price_x96: root(), tick: 5 };
    let no_slot0 = reading(Err("koptu".to_string()), Ok(1));
    assert_eq!(
        sync_pool_state(&pool("Uni"), &mut state, &no_slot0, 9),
        Err("[Uni] slot0 okuma hatası: koptu".to_string())
    );
    let no_liquidity = reading(Ok(slot0), Err("yok".to_string()));
    assert_eq!(
        sync_pool_state(&pool("Uni"), &mut state, &no_liquidity, 9),
        Err("[Uni] liquidity okuma hatası: yok".to_string())
    );
    let neither = reading(Err("bir".to_string()), Err("iki".to_string()));
    assert_eq!(
        sync_pool_state(&pool("Uni"), &mut state, &neither, 9),
        Err("[Uni] slot0 okuma hatası: bir".to_string())
    );
    assert!(!state.is_initialized);
    assert_eq!((state.tick, state.last_block, state.last_update), (0, 0, 0));
}

#[test]
fn one_failure_does_not_stop_the_others() {
    let pools = [pool("A"), pool("B"), pool("C")];
    let mut states = vec![PoolState::new(0), PoolState::new(0), PoolState::new(0)];
    let slot0 = Slot0 { sqrt_price_x96: root(), tick: 3 };
    let readings = vec![
        reading(Err("x".to_string()), Ok(1)),
        reading(Ok(slot0), Ok(10)),
        reading(Ok(slot0), Err("y".to_string())),
    ];
    let results = sync_all_pools(&pools, &mut states, &readings, 7);
    assert_eq!(
        results,
        vec![
            Err("[A] slot0 okuma hatası: x".to_string()),
            Ok(()),
            Err("[C] liquidity okuma hatası: y".to_string()),
        ]
    );
    assert!(!states[0].is_initialized && states[1].is_active() && !states[2].is_initialized);
    assert_eq!(states[1].last_block, 7);
}

#[test]
fn missing_readings_are_not_results() {
    let pools = [pool("A"), pool("B")];
    let mut states = vec![PoolState::new(0), PoolState::new(0)];
    assert_eq!(sync_all_pools(&pools, &mut states, &Vec::new(), 7).len(), 0);
    assert_eq!(sync_all_pools(&[], &mut states, &vec![reading(Err(String::new()), Ok(1))], 7).len(), 0);
}

#[test]
fn codes_are_kept() {
    let mut state = PoolState::new(0);
    assert_eq!(cache_pool_bytecode(&pool("A"), &mut state, Ok(vec![0x60, 0x00])), Ok(()));
    assert_eq!(state.bytecode, Some(vec![0x60, 0x00]));
    assert_eq!(
        cache_pool_bytecode(&pool("A"), &mut state, Err("yok".to_string())),
        Err("[A] Bytecode okuma hatası: yok".to_string())
    );
    assert_eq!(state.bytecode, Some(vec![0x60, 0x00]));
    let pools = [pool("A"), pool("B")];
    let mut states = vec![PoolState::new(0), PoolState::new(0)];
    let results =
        cache_all_bytecodes(&pools, &mut states, &vec![Err("z".to_string()), Ok(vec![7])]);
    assert_eq!(results, vec![Err("[A] Bytecode okuma hatası: z".to_string()), Ok(())]);
    assert_eq!((states[0].bytecode.clone(), states[1].bytecode.clone()), (None, Some(vec![7])));
}
