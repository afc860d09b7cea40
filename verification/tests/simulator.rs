use arbitraj::double::Double;
use arbitraj::evm::Outcome;
use arbitraj::simulator::{encode_execute_arbitrage, read_outcome, SimulationEngine};
use arbitraj::types::{DexType, PoolConfig, PoolState, SimulationResult};
use arbitraj::wide::U256;

fn number(x: f64) -> Double {
    Double::from_bits(x.to_bits())
}

fn pool(address: [u8; 20]) -> PoolConfig {
    PoolConfig {
        address,
        name: "Havuz".to_string(),
        fee_bps: 5,
        fee_fraction: number(0.0005),
        token0_decimals: 6,
        token1_decimals: 18,
        dex: DexType::UniswapV3,
    }
}

fn active(price: f64, liquidity: u128) -> PoolState {
    let mut state = PoolState::new(0);
    state.sqrt_price_x96 = U256::from_u128(1u128 << 100);
    state.sqrt_price_f64 = number(2f64.powi(100));
    state.liquidity = liquidity;
    state.liquidity_f64 = number(liquidity as f64);
    state.eth_price_usd = number(price);
    state.is_initialized = true;
    state
}

fn validate(buy: PoolState, sell: PoolState, amount: f64, now: u128) -> SimulationResult {
    let states = [buy, sell];
    SimulationEngine::new().validate_mathematical(&[], &states, 0, 1, number(amount), now)
}

const DEEP: u128 = 1_000_000_000_000_000_000_000;

fn failure(result: SimulationResult) -> String {
    assert!(!result.success);
    assert_eq!(result.gas_used, 0);
    result.error.unwrap()
}

#[test]
fn sound_pools_pass() {
    let result = validate(active(2000.0, DEEP), active(2010.0, DEEP), 1.5, 5_000_999_999);
    assert!(result.success);
    assert_eq!(result.gas_used, 350_000);
    assert_eq!(result.error, None);
    // The limits themselves pass.
    assert!(validate(active(100.0, DEEP), active(100_000.0, DEEP), 100.0, 0).success);
}

#[test]
fn inactive_pools_fail() {
    let text = "Havuz(lar) aktif değil";
    assert_eq!(failure(validate(PoolState::new(0), active(2000.0, DEEP), 1.0, 0)), text);
    assert_eq!(failure(validate(active(2000.0, DEEP), PoolState::new(0), 1.0, 0)), text);
}

#[test]
fn shallow_pools_fail() {
    let shallow = 19_999_999_999_999_999_999u128;
    assert_eq!(
        failure(validate(active(2000.0, shallow), active(2000.0, DEEP), 2.5, 0)),
        format!(
            "Yetersiz likidite: AL={:.0}, SAT={:.0}, Minimum={:.0}",
            shallow as f64,
            DEEP as f64,
            2.5 * 1e18 * 10.0
        )
    );
    assert_eq!(
        failure(validate(active(2000.0, DEEP), active(2000.0, 7), 1.0, 0)),
        "Yetersiz likidite: AL=1000000000000000000000, SAT=7, Minimum=10000000000000000000"
    );
}

#[test]
fn odd_prices_fail() {
    for (a, b) in [(99.99, 2000.0), (2000.0, 99.994), (100_000.01, 2000.0), (2000.0, 123_456.785)] {
        assert_eq!(
            failure(validate(active(a, DEEP), active(b, DEEP), 1.0, 0)),
            format!("Anormal fiyat: AL={:.2}, SAT={:.2}", a, b)
        );
    }
}

#[test]
fn stale_pools_fail() {
    let mut fresh = active(2000.0, DEEP);
    fresh.last_update = 3_000_000_000;
    assert_eq!(
        failure(validate(active(2000.0, DEEP), fresh, 1.0, 5_001_000_000)),
        "Bayat veri: AL=5001ms, SAT=2001ms"
    );
}

#[test]
fn earlier_checks_come_first() {
    // Shallow, oddly priced and stale.
    let text = failure(validate(active(1.0, 1), active(1.0, 1), 1.0, 9_000_000_000));
    assert!(text.starts_with("Yetersiz likidite"));
    let text = failure(validate(active(1.0, DEEP), active(1.0, DEEP), 1.0, 9_000_000_000));
    assert!(text.starts_with("Anormal fiyat"));
}

#[test]
fn outcomes_are_read() {
    let done = read_outcome(Outcome::Success { gas_used: 21_000 });
    assert!(done.success);
    assert_eq!((done.gas_used, done.error), (21_000, None));
    let undone = read_outcome(Outcome::Revert { gas_used: 30_000, output: vec![8, 0xc3, 0x79] });
    assert!(!undone.success);
    assert_eq!((undone.gas_used, undone.error), (30_000, Some("REVERT: 0x08c379".to_string())));
    let bare = read_outcome(Outcome::Revert { gas_used: 1, output: vec![] });
    assert_eq!(bare.error, Some("REVERT: 0x".to_string()));
    let stopped =
        read_outcome(Outcome::Halt { gas_used: 1_500_000, reason: "InvalidJump".to_string() });
    assert!(!stopped.success);
    assert_eq!(
        (stopped.gas_used, stopped.error),
        (1_500_000, Some("HALT: InvalidJump".to_string()))
    );
    let refused = read_outcome(Outcome::Invalid { reason: "Database".to_string() });
    assert!(!refused.success);
    assert_eq!((refused.gas_used, refused.error), (0, Some("EVM hatası: Database".to_string())));
}

const CALLER: [u8; 20] = [0x77; 20];
const CONTRACT: [u8; 20] = [0x99; 20];

fn run(
    pools: &[PoolConfig],
    states: &[PoolState],
    contract: [u8; 20],
    calldata: Vec<u8>,
    value: U256,
) -> SimulationResult {
    SimulationEngine::new().simulate(pools, states, CALLER, contract, calldata, value, 1_700_000_000)
}

#[test]
fn a_call_of_an_account_without_code_returns() {
    let pools = [pool([1; 20]), pool([2; 20])];
    let states = [active(2000.0, DEEP), active(2010.0, DEEP)];
    let calldata = encode_execute_arbitrage(
        [1; 20],
        [2; 20],
        U256::from_u128(1_000_000_000_000_000_000),
        U256::from_u128(5),
    );
    let zeros = calldata.iter().filter(|b| **b == 0).count() as u64;
    let others = calldata.len() as u64 - zeros;
    let result = run(&pools, &states, CONTRACT, calldata, U256::zero());
    assert!(result.success, "{:?}", result.error);
    assert_eq!(result.gas_used, 21_000 + 4 * zeros + 16 * others);
    assert_eq!(result.error, None);
}

#[test]
fn the_caller_has_a_hundred_ether() {
    let hundred = 100_000_000_000_000_000_000u128;
    let all = run(&[], &[], CONTRACT, vec![], U256::from_u128(hundred));
    assert!(all.success, "{:?}", all.error);
    let more = run(&[], &[], CONTRACT, vec![], U256::from_u128(hundred + 1));
    assert!(!more.success);
    assert_eq!(more.gas_used, 0);
    let text = more.error.unwrap();
    assert!(text.starts_with("EVM hatası: Transaction(LackOfFundForMaxFee"), "{}", text);
    let huge = run(&[], &[], CONTRACT, vec![], U256 { high: 1, low: 0 });
    assert!(huge.error.unwrap().starts_with("EVM hatası: "));
}

#[test]
fn a_pool_with_storage_alone_does_not_exist() {
    // The caller's own address as a pool: with storage but no code it counts as
    // not existing and has no balance; with code it exists.
    let pools = [pool(CALLER)];
    let bare = [active(2000.0, DEEP)];
    let result = run(&pools, &bare, CONTRACT, vec![], U256::from_u128(1));
    assert!(!result.success);
    assert!(result.error.unwrap().contains("LackOfFundForMaxFee"));
    let mut coded = active(2000.0, DEEP);
    coded.bytecode = Some(vec![0x60, 0x00]);
    let result = run(&pools, &[coded], CONTRACT, vec![], U256::from_u128(1));
    assert!(result.success, "{:?}", result.error);
}

#[test]
fn a_failing_precompile_halts() {
    // The contract 9 of the chain takes exactly 213 bytes.
    let mut blake = [0u8; 20];
    blake[19] = 9;
    let result = run(&[], &[], blake, vec![1, 2, 3], U256::zero());
    assert!(!result.success);
    assert_eq!(result.gas_used, 1_500_000);
    let text = result.error.unwrap();
    assert!(text.starts_with("HALT: Precompile"), "{}", text);
}

#[test]
fn calldata_that_costs_too_much_is_refused() {
    let result = run(&[], &[], CONTRACT, vec![1; 100_000], U256::zero());
    assert!(!result.success);
    assert!(result.error.unwrap().contains("CallGasCostMoreThanGasLimit"));
}

#[test]
fn the_selector_is_the_hash_of_the_signature() {
    let calldata = encode_execute_arbitrage([0; 20], [0; 20], U256::zero(), U256::zero());
    let hash =
        alloy::primitives::keccak256(b"executeArbitrage(address,address,uint256,uint256)");
    assert_eq!(calldata[..4], hash[..4]);
}

#[test]
fn calldata_has_its_layout() {
    let amount = U256 { high: 1, low: 0x0203 };
    let profit = U256 { high: 0, low: u128::MAX };
    let calldata = encode_execute_arbitrage([0xaa; 20], [0xbb; 20], amount, profit);
    assert_eq!(calldata.len(), 132);
    let mut expected = vec![0x18, 0x82, 0x0a, 0xfa];
    expected.extend_from_slice(&[0; 12]);
    expected.extend_from_slice(&[0xaa; 20]);
    expected.extend_from_slice(&[0; 12]);
    expected.extend_from_slice(&[0xbb; 20]);
    expected.extend_from_slice(&[0; 15]);
    expected.push(1);
    expected.extend_from_slice(&[0; 14]);
    expected.extend_from_slice(&[2, 3]);
    expected.extend_from_slice(&[0; 16]);
    expected.extend_from_slice(&[0xff; 16]);
    assert_eq!(calldata, expected);
    let other = encode_execute_arbitrage([0xaa; 20], [0xbb; 20], amount, U256::zero());
    assert!(other != calldata);
}

#[test]
fn codes_can_be_cached_again() {
    let mut engine = SimulationEngine::new();
    let mut coded = active(2000.0, DEEP);
    coded.bytecode = Some(vec![1]);
    engine.cache_bytecodes(&[pool([1; 20]), pool([2; 20])], &[coded, active(1.0, 1)]);
    engine.cache_bytecodes(&[], &[]);
}

#[test]
fn a_run_uses_no_more_gas_than_its_limit() {
    for data in [vec![], vec![1; 50], vec![0; 5_000], vec![1; 80_000], vec![1; 100_000]] {
        for last in [0x99, 2, 3, 4, 9] {
            let mut contract = [0u8; 20];
            contract[19] = last;
            let result = run(&[], &[], contract, data.clone(), U256::zero());
            assert!(result.gas_used <= 1_500_000);
        }
    }
}
