//! Trades are simulated locally before they are sent: quick checks of the
//! pool data, and a run of the contract call in a local virtual machine.
use crate::accuracy;
use crate::double;
use crate::double::Double;
use crate::evm;
use crate::evm::{
    call_env, empty_db, insert_balance_account, insert_code_account, insert_slot, transact, Outcome,
};
use crate::fidelity;
use crate::math::WETH_UNIT;
use crate::outside;
use crate::scaling;
use crate::text;
use crate::text::{append_decimal, append_fixed, append_hexadecimal};
use crate::types;
use crate::types::{Address, PoolConfig, PoolState, SimulationResult};
use crate::wide;
use crate::wide::U256;
use revm::InMemoryDB;
use vstd::arithmetic::power2::*;
use vstd::prelude::*;
use vstd::string::*;

verus! {

/// 10: a pool must be ten times as deep as the trade is large.
pub const DEPTH_FACTOR: u64 = 0x4024_0000_0000_0000;

/// 100, the least price in USD that is believed.
pub const LOWEST_PRICE: u64 = 0x4059_0000_0000_0000;

/// 100000, the highest price in USD that is believed.
pub const HIGHEST_PRICE: u64 = 0x40f8_6a00_0000_0000;

/// The age in milliseconds above which pool data is not believed.
pub const MAX_AGE_MS: u128 = 5000;

/// The gas that a trade is assumed to use.
pub const ASSUMED_GAS: u64 = 350_000;

/// The chain on which calls are simulated.
pub const CHAIN_ID: u64 = 8453;

/// The block in which calls are simulated.
pub const BLOCK_NUMBER: u64 = 99_999_999;

/// The gas that a simulated call may use.
pub const GAS_LIMIT: u64 = 1_500_000;

/// The balance of the simulated caller, 100 ETH in wei.
pub const CALLER_BALANCE: u128 = 100_000_000_000_000_000_000;

/// The storage slot of a pool that holds its square-root price.
pub const PRICE_SLOT: u128 = 0;

/// The storage slot of a pool that holds its liquidity.
pub const LIQUIDITY_SLOT: u128 = 4;

/// The first four bytes of the Keccak-256 hash of
/// `executeArbitrage(address,address,uint256,uint256)`.
pub const SELECTOR: [u8; 4] = [0x18, 0x82, 0x0a, 0xfa];

/// The outcome of a simulation with its message as characters.
pub struct Verdict {
    pub success: bool,
    pub gas_used: nat,
    pub error: Option<Seq<char>>,
}

impl View for SimulationResult {
    type V = Verdict;

    open spec fn view(&self) -> Verdict {
        Verdict {
            success: self.success,
            gas_used: self.gas_used as nat,
            error: types::characters(self.error),
        }
    }
}

/// A failed simulation that used no gas.
pub open spec fn refused(error: Seq<char>) -> Verdict {
    Verdict { success: false, gas_used: 0, error: Some(error) }
}

fn refuse(error: String) -> (result: SimulationResult)
    ensures
        result@ == refused(error@),
{
    SimulationResult { success: false, gas_used: 0, error: Some(error) }
}

/// The addresses and codes of the pools whose code is known, among the first
/// `n`.
pub open spec fn known_codes(
    pools: Seq<PoolConfig>,
    states: Seq<PoolState>,
    n: nat,
) -> Seq<(Seq<u8>, Seq<u8>)>
    decreases n,
{
    if n == 0 {
        seq![]
    } else {
        let before = known_codes(pools, states, (n - 1) as nat);
        match states[n - 1].bytecode {
            Some(code) => before.push((pools[n - 1].address@, code@)),
            None => before,
        }
    }
}

/// The smaller of two lengths.
pub open spec fn shorter(a: nat, b: nat) -> nat {
    if a < b {
        a
    } else {
        b
    }
}

/// The accounts of the first `n` pools: the code where it is known, the
/// square-root price and the liquidity in their storage slots.
pub open spec fn pool_accounts(
    pools: Seq<PoolConfig>,
    states: Seq<PoolState>,
    n: nat,
) -> evm::Accounts
    decreases n,
{
    if n == 0 {
        evm::no_accounts()
    } else {
        let address = pools[n - 1].address@;
        let state = states[n - 1];
        let before = pool_accounts(pools, states, (n - 1) as nat);
        let coded = match state.bytecode {
            Some(code) => evm::with_info(before, address, 0, 0, code@),
            None => before,
        };
        evm::with_slot(
            evm::with_slot(coded, address, PRICE_SLOT as nat, state.sqrt_price_x96@),
            address,
            LIQUIDITY_SLOT as nat,
            state.liquidity as nat,
        )
    }
}

/// All accounts of a simulation: the pools, the caller with its balance, and
/// the contract.
pub open spec fn simulated_accounts(
    pools: Seq<PoolConfig>,
    states: Seq<PoolState>,
    caller: Seq<u8>,
    contract: Seq<u8>,
) -> evm::Accounts {
    evm::with_info(
        evm::with_info(
            pool_accounts(pools, states, shorter(pools.len(), states.len())),
            caller,
            CALLER_BALANCE as nat,
            0,
            seq![],
        ),
        contract,
        0,
        0,
        seq![],
    )
}

/// The call that a simulation runs.
pub open spec fn simulated_call(
    caller: Seq<u8>,
    contract: Seq<u8>,
    calldata: Seq<u8>,
    value: nat,
    timestamp: nat,
) -> evm::Call {
    evm::Call {
        chain_id: CHAIN_ID as nat,
        block_number: BLOCK_NUMBER as nat,
        timestamp,
        caller,
        contract,
        calldata,
        value,
        gas_limit: GAS_LIMIT as nat,
    }
}

/// What the ending of a call means for the trade.
pub open spec fn verdict(ending: evm::Ending) -> Verdict {
    match ending {
        evm::Ending::Success { gas_used } => Verdict { success: true, gas_used, error: None },
        evm::Ending::Revert { gas_used, output } => Verdict {
            success: false,
            gas_used,
            error: Some("REVERT: 0x"@ + text::hexadecimal(output)),
        },
        evm::Ending::Halt { gas_used, reason } => Verdict {
            success: false,
            gas_used,
            error: Some("HALT: "@ + reason),
        },
        evm::Ending::Invalid { reason } => refused("EVM hatası: "@ + reason),
    }
}

/// Reads the ending of a call.
pub fn read_outcome(outcome: Outcome) -> (result: SimulationResult)
    ensures
        result@ == verdict(outcome@),
{
    match outcome {
        Outcome::Success { gas_used } => SimulationResult { success: true, gas_used, error: None },
        Outcome::Revert { gas_used, output } => {
            let mut error: String = "REVERT: 0x".to_owned();
            append_hexadecimal(&mut error, &output);
            SimulationResult { success: false, gas_used, error: Some(error) }
        },
        Outcome::Halt { gas_used, reason } => {
            let mut error: String = "HALT: ".to_owned();
            error.append(reason.as_str());
            SimulationResult { success: false, gas_used, error: Some(error) }
        },
        Outcome::Invalid { reason } => {
            let mut error: String = "EVM hatası: ".to_owned();
            error.append(reason.as_str());
            refuse(error)
        },
    }
}

/// The liquidity that a pool needs for a trade of `amount` WETH.
pub open spec fn needed_liquidity(amount: Double) -> Double {
    double::product(
        double::product(amount, Double { bits: WETH_UNIT }),
        Double { bits: DEPTH_FACTOR },
    )
}

/// Whether a pool is too shallow.
pub open spec fn is_shallow(state: PoolState, amount: Double) -> bool {
    double::less(state.liquidity_f64, needed_liquidity(amount))
}

/// Whether the price of a pool is outside of what is believed.
pub open spec fn is_odd_price(price: Double) -> bool {
    double::less(price, Double { bits: LOWEST_PRICE }) || double::less(
        Double { bits: HIGHEST_PRICE },
        price,
    )
}

/// The verdict of the quick checks, made in this order: the pools are active,
/// deep enough, sanely priced and recently read.
pub open spec fn quick_verdict(
    buy: PoolState,
    sell: PoolState,
    amount: Double,
    now: u128,
) -> Verdict {
    if !buy.active() || !sell.active() {
        refused("Havuz(lar) aktif değil"@)
    } else if is_shallow(buy, amount) || is_shallow(sell, amount) {
        refused(
            "Yetersiz likidite: AL="@ + text::fixed(buy.liquidity_f64, 0) + ", SAT="@ + text::fixed(
                sell.liquidity_f64,
                0,
            ) + ", Minimum="@ + text::fixed(needed_liquidity(amount), 0),
        )
    } else if is_odd_price(buy.eth_price_usd) || is_odd_price(sell.eth_price_usd) {
        refused(
            "Anormal fiyat: AL="@ + text::fixed(buy.eth_price_usd, 2) + ", SAT="@ + text::fixed(
                sell.eth_price_usd,
                2,
            ),
        )
    } else if buy.age_ms(now) > MAX_AGE_MS || sell.age_ms(now) > MAX_AGE_MS {
        refused(
            "Bayat veri: AL="@ + text::decimal(buy.age_ms(now) as nat) + "ms, SAT="@
                + text::decimal(sell.age_ms(now) as nat) + "ms"@,
        )
    } else {
        Verdict { success: true, gas_used: ASSUMED_GAS as nat, error: None }
    }
}

fn odd_price(price: Double) -> (answer: bool)
    ensures
        answer == is_odd_price(price),
{
    price.lt(Double::from_bits(LOWEST_PRICE)) || price.gt(Double::from_bits(HIGHEST_PRICE))
}

/// Simulates trades on the state of the pools.
pub struct SimulationEngine {
    bytecode_cache: Vec<(Address, Vec<u8>)>,
}

impl View for SimulationEngine {
    type V = Seq<(Seq<u8>, Seq<u8>)>;

    /// The addresses and codes of the cached pools.
    closed spec fn view(&self) -> Seq<(Seq<u8>, Seq<u8>)> {
        self.bytecode_cache@.map_values(|entry: (Address, Vec<u8>)| (entry.0@, entry.1@))
    }
}

impl SimulationEngine {
    /// An engine without cached codes.
    pub fn new() -> (engine: SimulationEngine)
        ensures
            engine@ == Seq::<(Seq<u8>, Seq<u8>)>::empty(),
    {
        let engine = SimulationEngine { bytecode_cache: Vec::new() };
        assert(engine@ == Seq::<(Seq<u8>, Seq<u8>)>::empty());
        engine
    }

    /// Replaces the cached codes by those that the pools' states hold.
    pub fn cache_bytecodes(&mut self, pools: &[PoolConfig], states: &[PoolState])
        ensures
            final(self)@ == known_codes(pools@, states@, shorter(pools@.len(), states@.len())),
    {
        self.bytecode_cache.clear();
        let mut i: usize = 0;
        assert(self@ == known_codes(pools@, states@, 0));
        while i < pools.len() && i < states.len()
            invariant
                i <= pools@.len(),
                i <= states@.len(),
                self@ == known_codes(pools@, states@, i as nat),
            decreases pools@.len() - i,
        {
            let ghost before = self@;
            match &states[i].bytecode {
                Some(code) => {
                    self.bytecode_cache.push((pools[i].address, code.clone()));
                    assert(self@ == before.push((pools@[i as int].address@, code@)));
                },
                None => {},
            }
            i = i + 1;
        }
    }

    /// Fills a database with the pools, the caller and the contract.
    fn build_db(
        &self,
        pools: &[PoolConfig],
        states: &[PoolState],
        caller: Address,
        contract: Address,
    ) -> (db: InMemoryDB)
        ensures
            evm::accounts_of(db) == simulated_accounts(pools@, states@, caller@, contract@),
    {
        let mut db: InMemoryDB = empty_db();
        let mut i: usize = 0;
        while i < pools.len() && i < states.len()
            invariant
                i <= pools@.len(),
                i <= states@.len(),
                evm::accounts_of(db) == pool_accounts(pools@, states@, i as nat),
            decreases pools@.len() - i,
        {
            let address: Address = pools[i].address;
            match &states[i].bytecode {
                Some(code) => {
                    insert_code_account(&mut db, address, 0, 0, code.clone());
                },
                None => {},
            }
            let price: Vec<u8> = states[i].sqrt_price_x96.to_be_bytes();
            let price_slot: Vec<u8> = U256::from_u128(PRICE_SLOT).to_be_bytes();
            insert_slot(&mut db, address, price_slot.as_slice(), price.as_slice());
            let liquidity: Vec<u8> = U256::from_u128(states[i].liquidity).to_be_bytes();
            let liquidity_slot: Vec<u8> = U256::from_u128(LIQUIDITY_SLOT).to_be_bytes();
            insert_slot(&mut db, address, liquidity_slot.as_slice(), liquidity.as_slice());
            i = i + 1;
        }
        insert_balance_account(&mut db, caller, CALLER_BALANCE);
        insert_balance_account(&mut db, contract, 0);
        db
    }

    /// Runs a call of the contract in the local virtual machine, `timestamp`
    /// being the time of the block in seconds since 1970. It uses no more gas
    /// than its limit.
    pub fn simulate(
        &self,
        pools: &[PoolConfig],
        states: &[PoolState],
        caller: Address,
        contract_address: Address,
        calldata: Vec<u8>,
        value_wei: U256,
        timestamp: u64,
    ) -> (result: SimulationResult)
        ensures
            result@ == verdict(
                evm::ending(
                    simulated_accounts(pools@, states@, caller@, contract_address@),
                    simulated_call(
                        caller@,
                        contract_address@,
                        calldata@,
                        value_wei@,
                        timestamp as nat,
                    ),
                ),
            ),
            result.gas_used <= GAS_LIMIT,
    {
        let db: InMemoryDB = self.build_db(pools, states, caller, contract_address);
        let value: Vec<u8> = value_wei.to_be_bytes();
        let env = call_env(
            CHAIN_ID,
            (BLOCK_NUMBER, timestamp),
            caller,
            contract_address,
            calldata,
            value.as_slice(),
            GAS_LIMIT,
        );
        read_outcome(transact(db, env))
    }

    /// Checks the data of the two pools of a trade of `amount_weth` WETH at
    /// the clock reading `now`.
    pub fn validate_mathematical(
        &self,
        _pools: &[PoolConfig],
        states: &[PoolState],
        buy_pool_idx: usize,
        sell_pool_idx: usize,
        amount_weth: Double,
        now: u128,
    ) -> (result: SimulationResult)
        requires
            buy_pool_idx < states@.len(),
            sell_pool_idx < states@.len(),
        ensures
            result@ == quick_verdict(
                states@[buy_pool_idx as int],
                states@[sell_pool_idx as int],
                amount_weth,
                now,
            ),
    {
        let buy: &PoolState = &states[buy_pool_idx];
        let sell: &PoolState = &states[sell_pool_idx];
        if !buy.is_active() || !sell.is_active() {
            return refuse("Havuz(lar) aktif değil".to_owned());
        }
        let needed: Double = amount_weth.times(Double::from_bits(WETH_UNIT)).times(
            Double::from_bits(DEPTH_FACTOR),
        );
        if buy.liquidity_f64.lt(needed) || sell.liquidity_f64.lt(needed) {
            let mut error: String = "Yetersiz likidite: AL=".to_owned();
            append_fixed(&mut error, buy.liquidity_f64, 0);
            error.append(", SAT=");
            append_fixed(&mut error, sell.liquidity_f64, 0);
            error.append(", Minimum=");
            append_fixed(&mut error, needed, 0);
            return refuse(error);
        }
        if odd_price(buy.eth_price_usd) || odd_price(sell.eth_price_usd) {
            let mut error: String = "Anormal fiyat: AL=".to_owned();
            append_fixed(&mut error, buy.eth_price_usd, 2);
            error.append(", SAT=");
            append_fixed(&mut error, sell.eth_price_usd, 2);
            return refuse(error);
        }
        let buy_age: u128 = buy.staleness_ms(now);
        let sell_age: u128 = sell.staleness_ms(now);
        if buy_age > MAX_AGE_MS || sell_age > MAX_AGE_MS {
            let mut error: String = "Bayat veri: AL=".to_owned();
            append_decimal(&mut error, buy_age);
            error.append("ms, SAT=");
            append_decimal(&mut error, sell_age);
            error.append("ms");
            return refuse(error);
        }
        SimulationResult { success: true, gas_used: ASSUMED_GAS, error: None }
    }
}

/// An address padded to 32 bytes.
pub open spec fn padded_address(address: Seq<u8>) -> Seq<u8> {
    Seq::new(12, |i: int| 0u8) + address
}

/// The calldata of `executeArbitrage(address,address,uint256,uint256)`: the
/// selector, then the four arguments in 32 bytes each.
pub open spec fn calldata_of(
    buy_pool: Seq<u8>,
    sell_pool: Seq<u8>,
    amount_in: nat,
    min_profit: nat,
) -> Seq<u8> {
    SELECTOR@ + padded_address(buy_pool) + padded_address(sell_pool) + wide::big_endian(
        amount_in,
        32,
    ) + wide::big_endian(min_profit, 32)
}

fn append_padded(calldata: &mut Vec<u8>, address: Address)
    ensures
        final(calldata)@ == old(calldata)@ + padded_address(address@),
{
    let ghost before = calldata@;
    let mut i: usize = 0;
    while i < 12
        invariant
            i <= 12,
            calldata@ == before + Seq::new(i as nat, |j: int| 0u8),
        decreases 12 - i,
    {
        calldata.push(0);
        i = i + 1;
        assert(calldata@ == before + Seq::new(i as nat, |j: int| 0u8));
    }
    let mut k: usize = 0;
    while k < 20
        invariant
            k <= 20,
            calldata@ == before + Seq::new(12, |j: int| 0u8) + address@.take(k as int),
        decreases 20 - k,
    {
        calldata.push(address[k]);
        k = k + 1;
        assert(calldata@ == before + Seq::new(12, |j: int| 0u8) + address@.take(k as int));
    }
    assert(calldata@ == before + padded_address(address@));
}

/// Encodes the call of `executeArbitrage`.
pub fn encode_execute_arbitrage(
    buy_pool: Address,
    sell_pool: Address,
    amount_in_wei: U256,
    min_profit_wei: U256,
) -> (calldata: Vec<u8>)
    ensures
        calldata@ == calldata_of(buy_pool@, sell_pool@, amount_in_wei@, min_profit_wei@),
{
    let mut calldata: Vec<u8> = Vec::new();
    calldata.push(SELECTOR[0]);
    calldata.push(SELECTOR[1]);
    calldata.push(SELECTOR[2]);
    calldata.push(SELECTOR[3]);
    assert(calldata@ =~= SELECTOR@);
    append_padded(&mut calldata, buy_pool);
    append_padded(&mut calldata, sell_pool);
    let mut amount: Vec<u8> = amount_in_wei.to_be_bytes();
    calldata.append(&mut amount);
    let mut profit: Vec<u8> = min_profit_wei.to_be_bytes();
    calldata.append(&mut profit);
    calldata
}

/// A run is a success exactly where the call returned, and has a message
/// exactly where it is not.
pub proof fn law_only_success_succeeds(ending: evm::Ending)
    ensures
        verdict(ending).success <==> ending is Success,
        verdict(ending).error is None <==> verdict(ending).success,
{
}

/// The checks succeed exactly where both pools are active, deep enough, sanely
/// priced and recently read, and have a message exactly where they fail.
pub proof fn law_checks_succeed_when_all_hold(
    buy: PoolState,
    sell: PoolState,
    amount: Double,
    now: u128,
)
    ensures
        ({
            let checks = quick_verdict(buy, sell, amount, now);
            &&& checks.success <==> {
                &&& buy.active() && sell.active()
                &&& !is_shallow(buy, amount) && !is_shallow(sell, amount)
                &&& !is_odd_price(buy.eth_price_usd) && !is_odd_price(sell.eth_price_usd)
                &&& buy.age_ms(now) <= MAX_AGE_MS && sell.age_ms(now) <= MAX_AGE_MS
            }
            &&& checks.error is None <==> checks.success
        }),
{
}

/// The calldata has 132 bytes, starts with the selector, and holds the
/// arguments where the contract looks for them.
pub proof fn law_calldata_holds_the_arguments(
    buy_pool: Seq<u8>,
    sell_pool: Seq<u8>,
    amount_in: nat,
    min_profit: nat,
)
    requires
        buy_pool.len() == 20,
        sell_pool.len() == 20,
        amount_in < pow2(256),
        min_profit < pow2(256),
    ensures
        ({
            let calldata = calldata_of(buy_pool, sell_pool, amount_in, min_profit);
            &&& calldata.len() == 132
            &&& calldata.subrange(0, 4) == SELECTOR@
            &&& SELECTOR@ == seq![0x18u8, 0x82u8, 0x0au8, 0xfau8]
            &&& forall|k: int|
                4 <= k < 16 || 36 <= k < 48 ==> #[trigger] calldata[k] == 0
            &&& calldata.subrange(16, 36) == buy_pool
            &&& calldata.subrange(48, 68) == sell_pool
            &&& wide::from_big_endian(calldata.subrange(68, 100)) == amount_in
            &&& wide::from_big_endian(calldata.subrange(100, 132)) == min_profit
        }),
{
    let calldata = calldata_of(buy_pool, sell_pool, amount_in, min_profit);
    wide::law_big_endian_keeps_the_number(amount_in, 32);
    wide::law_big_endian_keeps_the_number(min_profit, 32);
    assert(SELECTOR@ =~= seq![0x18u8, 0x82u8, 0x0au8, 0xfau8]);
    assert(calldata.subrange(0, 4) =~= SELECTOR@);
    assert(calldata.subrange(16, 36) =~= buy_pool);
    assert(calldata.subrange(48, 68) =~= sell_pool);
    assert(calldata.subrange(68, 100) =~= wide::big_endian(amount_in, 32));
    assert(calldata.subrange(100, 132) =~= wide::big_endian(min_profit, 32));
}

/// Different arguments have different calldata.
pub proof fn law_calldata_tells_the_arguments(
    a: (Seq<u8>, Seq<u8>, nat, nat),
    b: (Seq<u8>, Seq<u8>, nat, nat),
)
    requires
        a.0.len() == 20 && a.1.len() == 20 && a.2 < pow2(256) && a.3 < pow2(256),
        b.0.len() == 20 && b.1.len() == 20 && b.2 < pow2(256) && b.3 < pow2(256),
        calldata_of(a.0, a.1, a.2, a.3) == calldata_of(b.0, b.1, b.2, b.3),
    ensures
        a == b,
{
    law_calldata_holds_the_arguments(a.0, a.1, a.2, a.3);
    law_calldata_holds_the_arguments(b.0, b.1, b.2, b.3);
}

/// The storage of a pool among the first `n`, none of the later ones having
/// its address.
proof fn lemma_pool_slots(pools: Seq<PoolConfig>, states: Seq<PoolState>, n: nat, i: int)
    requires
        0 <= i < n,
        forall|j: int| i < j < n ==> (#[trigger] pools[j]).address@ != pools[i].address@,
    ensures
        ({
            let accounts = pool_accounts(pools, states, n);
            let address = pools[i].address@;
            &&& accounts.contains_key(address)
            &&& accounts[address].storage.contains_key(PRICE_SLOT as nat)
            &&& accounts[address].storage.contains_key(LIQUIDITY_SLOT as nat)
            &&& accounts[address].storage[PRICE_SLOT as nat] == states[i].sqrt_price_x96@
            &&& accounts[address].storage[LIQUIDITY_SLOT as nat] == states[i].liquidity as nat
            &&& (states[i].bytecode matches Some(code) ==> accounts[address].code == code@
                && accounts[address].balance == 0 && accounts[address].nonce == 0)
        }),
    decreases n,
{
    if i < n - 1 {
        assert(pools[n - 1].address@ != pools[i].address@);
        lemma_pool_slots(pools, states, (n - 1) as nat, i);
    }
}

/// Before a run, every pool's price and liquidity are in the storage slots of
/// its account, whoever calls whatever contract; of several pools with one
/// address the last one counts.
pub proof fn law_pools_are_loaded(
    pools: Seq<PoolConfig>,
    states: Seq<PoolState>,
    caller: Seq<u8>,
    contract: Seq<u8>,
    i: int,
)
    requires
        0 <= i < pools.len(),
        i < states.len(),
        forall|j: int|
            i < j < pools.len() && j < states.len() ==> (#[trigger] pools[j]).address@
                != pools[i].address@,
    ensures
        ({
            let accounts = simulated_accounts(pools, states, caller, contract);
            let address = pools[i].address@;
            &&& accounts.contains_key(address)
            &&& PRICE_SLOT == 0
            &&& LIQUIDITY_SLOT == 4
            &&& accounts[address].storage.contains_key(PRICE_SLOT as nat)
            &&& accounts[address].storage.contains_key(LIQUIDITY_SLOT as nat)
            &&& accounts[address].storage[PRICE_SLOT as nat] == states[i].sqrt_price_x96@
            &&& accounts[address].storage[LIQUIDITY_SLOT as nat] == states[i].liquidity as nat
            &&& address != caller && address != contract ==> (states[i].bytecode matches Some(code)
                ==> accounts[address].code == code@ && accounts[address].balance == 0
                && accounts[address].nonce == 0)
        }),
{
    lemma_pool_slots(pools, states, shorter(pools.len(), states.len()), i);
}

/// Before a run, the caller has its balance, unless it is the contract, which
/// has none; neither has code.
pub proof fn law_caller_is_funded(
    pools: Seq<PoolConfig>,
    states: Seq<PoolState>,
    caller: Seq<u8>,
    contract: Seq<u8>,
)
    ensures
        ({
            let accounts = simulated_accounts(pools, states, caller, contract);
            &&& accounts.contains_key(caller)
            &&& accounts.contains_key(contract)
            &&& accounts[contract].balance == 0
            &&& CALLER_BALANCE == 100_000_000_000_000_000_000
            &&& caller != contract ==> accounts[caller].balance == CALLER_BALANCE
            &&& accounts[caller].code == Seq::<u8>::empty()
            &&& accounts[contract].code == Seq::<u8>::empty()
            &&& accounts[caller].nonce == 0
            &&& accounts[contract].nonce == 0
        }),
{
}

/// A run calls the contract from the caller with the calldata, the value and the
/// time that are given, in block 99999999 of chain 8453, with 1500000 gas.
pub proof fn law_call_is_the_given_one(
    caller: Seq<u8>,
    contract: Seq<u8>,
    calldata: Seq<u8>,
    value: nat,
    timestamp: nat,
)
    ensures
        ({
            let call = simulated_call(caller, contract, calldata, value, timestamp);
            &&& call.caller == caller
            &&& call.contract == contract
            &&& call.calldata == calldata
            &&& call.value == value
            &&& call.timestamp == timestamp
            &&& call.chain_id == 8453
            &&& call.block_number == 99_999_999
            &&& call.gas_limit == 1_500_000
        }),
{
}

/// The outcome of a run is that of the call: the gas that it used, and what it
/// gave back where it did not succeed.
pub proof fn law_outcome_is_that_of_the_call(
    gas_used: nat,
    output: Seq<u8>,
    reason: Seq<char>,
)
    ensures
        ({
            let done = verdict(evm::Ending::Success { gas_used });
            done.success && done.gas_used == gas_used && done.error is None
        }),
        ({
            let reverted = verdict(evm::Ending::Revert { gas_used, output });
            let message = reverted.error.unwrap();
            &&& !reverted.success
            &&& reverted.gas_used == gas_used
            &&& reverted.error is Some
            &&& "REVERT: 0x"@.is_prefix_of(message)
            &&& outside::is_hex(message.skip("REVERT: 0x"@.len() as int), output.len())
            &&& outside::hex_bytes(message.skip("REVERT: 0x"@.len() as int), output.len()) == output
        }),
        ({
            let halted = verdict(evm::Ending::Halt { gas_used, reason });
            &&& !halted.success
            &&& halted.gas_used == gas_used
            &&& halted.error == Some("HALT: "@ + reason)
        }),
        ({
            let invalid = verdict(evm::Ending::Invalid { reason });
            &&& !invalid.success
            &&& invalid.gas_used == 0
            &&& invalid.error == Some("EVM hatası: "@ + reason)
        }),
{
    let start = "REVERT: 0x"@;
    let message = verdict(evm::Ending::Revert { gas_used, output }).error.unwrap();
    text::law_hexadecimal_reads_back(output);
    assert(message.skip(start.len() as int) =~= text::hexadecimal(output));
    assert(message.subrange(0, start.len() as int) =~= start);
}

/// The limits of the checks are exact.
proof fn lemma_limits()
    ensures
        accuracy::real_of(Double { bits: LOWEST_PRICE }) == 100real,
        accuracy::real_of(Double { bits: HIGHEST_PRICE }) == 100_000real,
        accuracy::real_of(Double { bits: DEPTH_FACTOR }) == 10real,
        scaling::between(Double { bits: DEPTH_FACTOR }, 3, 4),
{
    let (low, high, ten) = (
        Double { bits: LOWEST_PRICE },
        Double { bits: HIGHEST_PRICE },
        Double { bits: DEPTH_FACTOR },
    );
    lemma2_to64();
    lemma2_to64_rest();
    scaling::lemma_power(3);
    scaling::lemma_power(4);
    assert(low.spacing() == 1028 && low.significand() == 0x19_0000_0000_0000);
    lemma_pow2_adds(46, 1028);
    let f = pow2(1028);
    assert(0x19_0000_0000_0000 * f == 100 * (0x4000_0000_0000 * f));
    fidelity::lemma_integer(low, 100);
    assert(high.spacing() == 1038 && high.significand() == 0x18_6a00_0000_0000);
    lemma_pow2_adds(36, 1038);
    let g = pow2(1038);
    assert(0x18_6a00_0000_0000 * g == 100_000 * (0x10_0000_0000 * g));
    fidelity::lemma_integer(high, 100_000);
    assert(ten.spacing() == 1025 && ten.significand() == 0x14_0000_0000_0000);
    lemma_pow2_adds(49, 1025);
    let h = pow2(1025);
    assert(0x14_0000_0000_0000 * h == 10 * (0x2_0000_0000_0000 * h));
    fidelity::lemma_integer(ten, 10);
}

/// The liquidity that a trade needs is ten times its size in wei, up to
/// rounding.
pub proof fn law_needed_liquidity_is_tenfold(amount: Double)
    requires
        scaling::between(amount, -128, 128),
    ensures
        ({
            let full = accuracy::real_of(amount) * 10_000_000_000_000_000_000real;
            &&& needed_liquidity(amount).is_finite()
            &&& accuracy::within(
                accuracy::real_of(needed_liquidity(amount)),
                full,
                3real,
                full,
            )
        }),
{
    let unit = Double { bits: WETH_UNIT };
    let ten = Double { bits: DEPTH_FACTOR };
    let whole = double::product(amount, unit);
    let needed = double::product(whole, ten);
    fidelity::lemma_units();
    lemma_limits();
    fidelity::lemma_between(amount, -128, 128);
    fidelity::lemma_between(unit, 59, 60);
    fidelity::lemma_between(ten, 3, 4);
    scaling::lemma_product_between(amount, unit, -128, 128, 59, 60);
    fidelity::lemma_between(whole, -69, 188);
    scaling::lemma_product_between(whole, ten, -69, 188, 3, 4);
    fidelity::lemma_between(needed, -66, 192);
    accuracy::law_product_is_accurate(amount, unit);
    accuracy::law_product_is_accurate(whole, ten);
}

/// The checks succeed exactly where both pools have been read and hold
/// liquidity, no less of it than is needed, at prices from 100 to 100000 USD,
/// and both were read less than 5001 milliseconds ago. A success is taken to use
/// 350000 gas, a failure none.
pub proof fn law_checks_succeed_within_their_limits(
    buy: PoolState,
    sell: PoolState,
    amount: Double,
    now: u128,
)
    requires
        scaling::between(amount, -128, 128),
        buy.liquidity_f64.is_finite(),
        sell.liquidity_f64.is_finite(),
        buy.eth_price_usd.is_finite(),
        sell.eth_price_usd.is_finite(),
    ensures
        ({
            let checks = quick_verdict(buy, sell, amount, now);
            let needed = accuracy::real_of(needed_liquidity(amount));
            &&& checks.success <==> {
                &&& buy.is_initialized && sell.is_initialized
                &&& buy.liquidity > 0 && sell.liquidity > 0
                &&& accuracy::real_of(buy.liquidity_f64) >= needed
                &&& accuracy::real_of(sell.liquidity_f64) >= needed
                &&& 100real <= accuracy::real_of(buy.eth_price_usd) <= 100_000real
                &&& 100real <= accuracy::real_of(sell.eth_price_usd) <= 100_000real
                &&& now - buy.last_update < 5_001_000_000
                &&& now - sell.last_update < 5_001_000_000
            }
            &&& checks.success ==> checks.gas_used == 350_000 && checks.error is None
            &&& !checks.success ==> checks.gas_used == 0 && checks.error is Some
        }),
{
    let needed = needed_liquidity(amount);
    law_needed_liquidity_is_tenfold(amount);
    lemma_limits();
    lemma_prices(buy.eth_price_usd);
    lemma_prices(sell.eth_price_usd);
    accuracy::law_comparison_is_that_of_the_values(buy.liquidity_f64, needed);
    accuracy::law_comparison_is_that_of_the_values(sell.liquidity_f64, needed);
    lemma_recent(buy, now);
    lemma_recent(sell, now);
}

/// The prices that are believed.
proof fn lemma_prices(price: Double)
    requires
        price.is_finite(),
    ensures
        is_odd_price(price) <==> !(100real <= accuracy::real_of(price) <= 100_000real),
        !is_odd_price(price) ==> double::less(Double { bits: 0 }, price),
{
    let (low, high) = (Double { bits: LOWEST_PRICE }, Double { bits: HIGHEST_PRICE });
    lemma_limits();
    accuracy::law_comparison_is_that_of_the_values(price, low);
    accuracy::law_comparison_is_that_of_the_values(high, price);
}

/// The age of a pool in nanoseconds.
proof fn lemma_recent(state: PoolState, now: u128)
    ensures
        state.age_ms(now) <= MAX_AGE_MS <==> now - state.last_update < 5_001_000_000,
{
}

/// Whether an entry is the address of one of the first `n` pools with its code.
pub open spec fn is_known_code(
    pools: Seq<PoolConfig>,
    states: Seq<PoolState>,
    n: nat,
    entry: (Seq<u8>, Seq<u8>),
) -> bool {
    exists|i: int|
        0 <= i < n && (#[trigger] states[i]).bytecode is Some && entry.0 == pools[i].address@
            && entry.1 == states[i].bytecode.unwrap()@
}

/// The codes that are kept are those of the pools whose code is known: each has
/// an entry, and each entry is one of them.
pub proof fn law_kept_codes_are_the_known_ones(
    pools: Seq<PoolConfig>,
    states: Seq<PoolState>,
    n: nat,
)
    ensures
        known_codes(pools, states, n).len() <= n,
        forall|i: int|
            0 <= i < n && (#[trigger] states[i]).bytecode is Some ==> known_codes(
                pools,
                states,
                n,
            ).contains((pools[i].address@, states[i].bytecode.unwrap()@)),
        forall|k: int|
            0 <= k < known_codes(pools, states, n).len() ==> is_known_code(
                pools,
                states,
                n,
                #[trigger] known_codes(pools, states, n)[k],
            ),
    decreases n,
{
    if n > 0 {
        let before = known_codes(pools, states, (n - 1) as nat);
        let codes = known_codes(pools, states, n);
        law_kept_codes_are_the_known_ones(pools, states, (n - 1) as nat);
        assert forall|i: int| 0 <= i < n && (#[trigger] states[i]).bytecode is Some implies
            codes.contains((pools[i].address@, states[i].bytecode.unwrap()@)) by {
            let entry = (pools[i].address@, states[i].bytecode.unwrap()@);
            if i < n - 1 {
                assert(before.contains(entry));
                let k = before.index_of(entry);
                assert(codes[k] == entry);
            } else {
                assert(codes[codes.len() - 1] == entry);
            }
        }
        assert forall|k: int| 0 <= k < codes.len() implies is_known_code(
            pools,
            states,
            n,
            #[trigger] codes[k],
        ) by {
            if k < before.len() {
                assert(codes[k] == before[k]);
                assert(is_known_code(pools, states, (n - 1) as nat, before[k]));
            } else {
                assert(states[n - 1].bytecode is Some);
            }
        }
    }
}

/// The first check that fails gives the message: on inactive pools, then on
/// their liquidity, their prices and their age, those of the pool that is bought
/// in before those of the other.
pub proof fn law_first_failed_check_gives_the_message(
    buy: PoolState,
    sell: PoolState,
    amount: Double,
    now: u128,
)
    ensures
        ({
            let message = quick_verdict(buy, sell, amount, now).error.unwrap();
            let active = buy.active() && sell.active();
            let shallow = double::less(buy.liquidity_f64, needed_liquidity(amount)) || double::less(
                sell.liquidity_f64,
                needed_liquidity(amount),
            );
            let odd = is_odd_price(buy.eth_price_usd) || is_odd_price(sell.eth_price_usd);
            let stale = buy.age_ms(now) > 5000 || sell.age_ms(now) > 5000;
            &&& !active ==> message == "Havuz(lar) aktif değil"@
            &&& active && shallow ==> message == "Yetersiz likidite: AL="@ + text::fixed(
                buy.liquidity_f64,
                0,
            ) + ", SAT="@ + text::fixed(sell.liquidity_f64, 0) + ", Minimum="@ + text::fixed(
                needed_liquidity(amount),
                0,
            )
            &&& active && !shallow && odd ==> message == "Anormal fiyat: AL="@ + text::fixed(
                buy.eth_price_usd,
                2,
            ) + ", SAT="@ + text::fixed(sell.eth_price_usd, 2)
            &&& active && !shallow && !odd && stale ==> message == "Bayat veri: AL="@
                + text::decimal(buy.age_ms(now) as nat) + "ms, SAT="@ + text::decimal(
                sell.age_ms(now) as nat,
            ) + "ms"@
        }),
{
}

/// Where the codes of all pools are known, they are kept in the order of the
/// pools.
pub proof fn law_kept_codes_follow_the_pools(
    pools: Seq<PoolConfig>,
    states: Seq<PoolState>,
    n: nat,
)
    requires
        forall|i: int| 0 <= i < n ==> (#[trigger] states[i]).bytecode is Some,
    ensures
        known_codes(pools, states, n).len() == n,
        forall|i: int|
            0 <= i < n ==> #[trigger] known_codes(pools, states, n)[i] == (
                pools[i].address@,
                states[i].bytecode.unwrap()@,
            ),
    decreases n,
{
    if n > 0 {
        assert(states[n - 1].bytecode is Some);
        law_kept_codes_follow_the_pools(pools, states, (n - 1) as nat);
    }
}

/// The accounts of the pools are at their addresses.
proof fn lemma_pool_keys(pools: Seq<PoolConfig>, states: Seq<PoolState>, n: nat, address: Seq<u8>)
    requires
        pool_accounts(pools, states, n).contains_key(address),
    ensures
        exists|i: int| 0 <= i < n && (#[trigger] pools[i]).address@ == address,
    decreases n,
{
    if n > 0 {
        if pools[n - 1].address@ != address {
            lemma_pool_keys(pools, states, (n - 1) as nat, address);
        }
    }
}

/// A run knows no accounts but those of the pools, the caller and the contract.
pub proof fn law_no_other_accounts_are_known(
    pools: Seq<PoolConfig>,
    states: Seq<PoolState>,
    caller: Seq<u8>,
    contract: Seq<u8>,
    address: Seq<u8>,
)
    requires
        simulated_accounts(pools, states, caller, contract).contains_key(address),
        address != caller,
        address != contract,
    ensures
        exists|i: int|
            0 <= i < pools.len() && i < states.len() && (#[trigger] pools[i]).address@ == address,
{
    lemma_pool_keys(pools, states, shorter(pools.len(), states.len()), address);
}

/// What is said of a simulation holds of its own fields.
pub proof fn law_simulation_is_seen_as_it_is(result: SimulationResult)
    ensures
        result@.success == result.success,
        result@.gas_used == result.gas_used,
        result@.error is Some <==> result.error is Some,
        result.error matches Some(message) ==> result@.error == Some(message@),
{
}

} // verus!
