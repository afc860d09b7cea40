//! The data that the bot works on: pools, opportunities, results, statistics.
use crate::accuracy;
use crate::algebra;
use crate::double;
use crate::double::Double;
use crate::fidelity;
use crate::math::BASIS_POINTS;
use crate::order;
use crate::outside;
use crate::outside::{parse_address, to_lowercase};
use crate::scaling;
use crate::steepness;
use crate::text;
use crate::text::{append_two_digits, has_prefix, parse_unsigned, same};
use crate::wide::U256;
use vstd::arithmetic::mul::*;
use vstd::arithmetic::power2::*;
use vstd::prelude::*;
use vstd::string::*;

verus! {

/// The 20 bytes of an account address.
pub type Address = [u8; 20];

/// The exchange that a pool belongs to.
#[derive(Debug, Clone, Copy, PartialEq, Eq, Structural)]
pub enum DexType {
    UniswapV3,
    Aerodrome,
}

impl DexType {
    /// The name of the exchange.
    pub open spec fn label(self) -> Seq<char> {
        match self {
            DexType::UniswapV3 => "Uniswap V3"@,
            DexType::Aerodrome => "Aerodrome"@,
        }
    }

    /// The name of the exchange.
    pub fn name(self) -> (label: String)
        ensures
            label@ == self.label(),
    {
        match self {
            DexType::UniswapV3 => "Uniswap V3".to_owned(),
            DexType::Aerodrome => "Aerodrome".to_owned(),
        }
    }
}

/// A pool to watch.
#[derive(Debug, Clone)]
pub struct PoolConfig {
    pub address: Address,
    pub name: String,
    pub fee_bps: u32,
    pub fee_fraction: Double,
    pub token0_decimals: u8,
    pub token1_decimals: u8,
    pub dex: DexType,
}

/// What is known of a pool at the moment.
#[derive(Debug, Clone)]
pub struct PoolState {
    /// sqrtPriceX96 as the pool reports it.
    pub sqrt_price_x96: U256,
    /// sqrtPriceX96, rounded.
    pub sqrt_price_f64: Double,
    pub tick: i32,
    pub liquidity: u128,
    /// The liquidity, rounded.
    pub liquidity_f64: Double,
    /// The price of one ETH in USDC.
    pub eth_price_usd: Double,
    pub last_block: u64,
    /// The reading of a monotonic clock, in nanoseconds, at the last update.
    pub last_update: u128,
    pub is_initialized: bool,
    pub bytecode: Option<Vec<u8>>,
}

/// The nanoseconds of a millisecond.
pub const NANOS_PER_MILLI: u128 = 1_000_000;

impl PoolState {
    /// The state of a pool that has not been read at the clock reading `now`.
    pub fn new(now: u128) -> (state: PoolState)
        ensures
            state.sqrt_price_x96@ == 0,
            state.sqrt_price_f64 == (Double { bits: 0 }),
            state.tick == 0,
            state.liquidity == 0,
            state.liquidity_f64 == (Double { bits: 0 }),
            state.eth_price_usd == (Double { bits: 0 }),
            state.last_block == 0,
            state.last_update == now,
            !state.is_initialized,
            state.bytecode is None,
            !state.active(),
    {
        PoolState {
            sqrt_price_x96: U256::zero(),
            sqrt_price_f64: Double::from_bits(0),
            tick: 0,
            liquidity: 0,
            liquidity_f64: Double::from_bits(0),
            eth_price_usd: Double::from_bits(0),
            last_block: 0,
            last_update: now,
            is_initialized: false,
            bytecode: None,
        }
    }

    /// Whether the pool has been read and holds usable values.
    pub open spec fn active(self) -> bool {
        self.is_initialized && double::less(Double { bits: 0 }, self.eth_price_usd)
            && self.liquidity > 0
    }

    /// The whole milliseconds from the last update to the clock reading `now`;
    /// 0 where the reading is the earlier one.
    pub open spec fn age_ms(self, now: u128) -> int {
        if now <= self.last_update {
            0
        } else {
            (now - self.last_update) / NANOS_PER_MILLI as int
        }
    }

    /// Whether the pool has been read and holds usable values.
    pub fn is_active(&self) -> (answer: bool)
        ensures
            answer == self.active(),
    {
        self.is_initialized && self.eth_price_usd.gt(Double::from_bits(0)) && self.liquidity > 0
    }

    /// The age of the data in milliseconds at the clock reading `now`.
    pub fn staleness_ms(&self, now: u128) -> (age: u128)
        ensures
            age == self.age_ms(now),
    {
        if now <= self.last_update {
            0
        } else {
            (now - self.last_update) / NANOS_PER_MILLI
        }
    }
}

/// A trade that promises a profit.
#[derive(Debug, Clone, Copy)]
pub struct ArbitrageOpportunity {
    /// The cheap pool, where WETH is bought.
    pub buy_pool_idx: usize,
    /// The dear pool, where WETH is sold.
    pub sell_pool_idx: usize,
    pub optimal_amount_weth: Double,
    pub expected_profit_usd: Double,
    pub buy_price: Double,
    pub sell_price: Double,
    pub spread_pct: Double,
    /// Whether the search for the trade size converged.
    pub nr_converged: bool,
    /// The steps of that search.
    pub nr_iterations: u32,
}

/// The outcome of a simulated trade.
#[derive(Debug, Clone)]
pub struct SimulationResult {
    pub success: bool,
    pub gas_used: u64,
    pub error: Option<String>,
}

/// A text that may be absent, as characters.
pub open spec fn characters(text: Option<String>) -> Option<Seq<char>> {
    match text {
        Some(t) => Some(t@),
        None => None,
    }
}

/// The variables of an environment, the first of several with one name
/// counting.
pub struct Environment {
    pub variables: Vec<(String, String)>,
}

/// The value of the first variable with the given name.
pub open spec fn variable(variables: Seq<(String, String)>, name: Seq<char>) -> Option<Seq<char>>
    decreases variables.len(),
{
    if variables.len() == 0 {
        None
    } else if variables[0].0@ == name {
        Some(variables[0].1@)
    } else {
        variable(variables.drop_first(), name)
    }
}

impl Environment {
    /// The value of a variable.
    pub open spec fn value(self, name: Seq<char>) -> Option<Seq<char>> {
        variable(self.variables@, name)
    }

    /// The number that a variable stands for, or the default.
    pub open spec fn integer(self, name: Seq<char>, max: nat, default: nat) -> nat {
        match self.value(name) {
            Some(t) => match text::parsed(t, max) {
                Some(n) => n,
                None => default,
            },
            None => default,
        }
    }

    /// The value of a variable, or the default.
    pub open spec fn value_or(self, name: Seq<char>, default: Seq<char>) -> Seq<char> {
        match self.value(name) {
            Some(t) => t,
            None => default,
        }
    }

    /// Looks a variable up.
    pub fn get(&self, name: &str) -> (value: Option<String>)
        ensures
            characters(value) == self.value(name@),
    {
        let mut i: usize = 0;
        assert(self.variables@.skip(0) == self.variables@);
        while i < self.variables.len()
            invariant
                i <= self.variables@.len(),
                variable(self.variables@.skip(i as int), name@) == self.value(name@),
            decreases self.variables@.len() - i,
        {
            assert(self.variables@.skip(i as int).drop_first() == self.variables@.skip(i + 1));
            if same(self.variables[i].0.as_str(), name) {
                return Some(self.variables[i].1.clone());
            }
            i = i + 1;
        }
        None
    }

    fn get_or(&self, name: &str, default: &str) -> (value: String)
        ensures
            value@ == self.value_or(name@, default@),
    {
        match self.get(name) {
            Some(t) => t,
            None => default.to_owned(),
        }
    }

    fn get_integer(&self, name: &str, max: u128, default: u128) -> (n: u128)
        requires
            default <= max,
        ensures
            n == self.integer(name@, max as nat, default as nat),
            n <= max,
    {
        match self.get(name) {
            Some(t) => match parse_unsigned(t.as_str(), max) {
                Some(n) => n,
                None => default,
            },
            None => default,
        }
    }
}

/// A setting that can be missing or wrong.
#[derive(Debug, Clone, Copy, PartialEq, Eq, Structural)]
pub enum Setting {
    RpcWssUrl,
    RpcHttpUrl,
    PoolAAddress,
    PoolBAddress,
}

/// Why a configuration is refused.
#[derive(Debug, Clone)]
pub enum ConfigError {
    Missing { setting: Setting },
    BadUrl { setting: Setting },
    BadAddress { setting: Setting, reason: String },
}

/// A refusal with its reason as characters.
pub enum Refusal {
    Missing { setting: Setting },
    BadUrl { setting: Setting },
    BadAddress { setting: Setting, reason: Seq<char> },
}

impl View for ConfigError {
    type V = Refusal;

    open spec fn view(&self) -> Refusal {
        match *self {
            ConfigError::Missing { setting } => Refusal::Missing { setting },
            ConfigError::BadUrl { setting } => Refusal::BadUrl { setting },
            ConfigError::BadAddress { setting, reason } => Refusal::BadAddress {
                setting,
                reason: reason@,
            },
        }
    }
}

impl Setting {
    /// The variable that holds the setting.
    pub open spec fn label(self) -> Seq<char> {
        match self {
            Setting::RpcWssUrl => "RPC_WSS_URL"@,
            Setting::RpcHttpUrl => "RPC_HTTP_URL"@,
            Setting::PoolAAddress => "POOL_A_ADDRESS"@,
            Setting::PoolBAddress => "POOL_B_ADDRESS"@,
        }
    }

    /// The variable that holds the setting.
    pub fn variable(self) -> (name: String)
        ensures
            name@ == self.label(),
    {
        match self {
            Setting::RpcWssUrl => "RPC_WSS_URL".to_owned(),
            Setting::RpcHttpUrl => "RPC_HTTP_URL".to_owned(),
            Setting::PoolAAddress => "POOL_A_ADDRESS".to_owned(),
            Setting::PoolBAddress => "POOL_B_ADDRESS".to_owned(),
        }
    }
}

impl ConfigError {
    /// The message for the user.
    pub fn message(&self) -> (text: String)
        ensures
            text@ == (match self@ {
                Refusal::Missing { setting } => setting.label()
                    + " .env dosyasında tanımlanmalıdır!"@,
                Refusal::BadUrl { setting } => setting.label() + " geçerli bir URL olmalıdır!"@,
                Refusal::BadAddress { setting, reason } => setting.label() + " geçersiz adres: "@
                    + reason,
            }),
    {
        match self {
            ConfigError::Missing { setting } => {
                let mut text: String = setting.variable();
                text.append(" .env dosyasında tanımlanmalıdır!");
                text
            },
            ConfigError::BadUrl { setting } => {
                let mut text: String = setting.variable();
                text.append(" geçerli bir URL olmalıdır!");
                text
            },
            ConfigError::BadAddress { setting, reason } => {
                let mut text: String = setting.variable();
                text.append(" geçersiz adres: ");
                text.append(reason.as_str());
                text
            },
        }
    }
}

/// The settings that are decimal fractions, where they are given and readable.
#[derive(Debug, Clone, Copy)]
pub struct NumberSettings {
    /// GAS_COST_USD.
    pub gas_cost_usd: Option<Double>,
    /// FLASH_LOAN_FEE_BPS.
    pub flash_loan_fee_bps: Option<Double>,
    /// MIN_NET_PROFIT_USD.
    pub min_net_profit_usd: Option<Double>,
    /// MAX_TRADE_SIZE_WETH.
    pub max_trade_size_weth: Option<Double>,
}

/// 0.10, the assumed gas cost in USD.
pub const DEFAULT_GAS_COST: u64 = 0x3fb9_9999_9999_999a;

/// 5, the assumed flash loan fee in basis points.
pub const DEFAULT_LOAN_FEE: u64 = 0x4014_0000_0000_0000;

/// 0.50, the assumed least profit in USD.
pub const DEFAULT_MIN_PROFIT: u64 = 0x3fe0_0000_0000_0000;

/// 50, the assumed largest trade in WETH.
pub const DEFAULT_MAX_TRADE: u64 = 0x4049_0000_0000_0000;

/// A number, or the default.
pub open spec fn number_or(number: Option<Double>, default: u64) -> Double {
    match number {
        Some(x) => x,
        None => Double { bits: default },
    }
}

fn get_number(number: Option<Double>, default: u64) -> (x: Double)
    ensures
        x == number_or(number, default),
{
    match number {
        Some(x) => x,
        None => Double::from_bits(default),
    }
}

/// The settings of the bot.
pub struct BotConfig {
    pub rpc_wss_url: String,
    pub rpc_http_url: String,
    /// The key that signs trades.
    pub private_key: Option<String>,
    /// The contract that performs trades.
    pub contract_address: Option<Address>,
    pub gas_cost_usd: Double,
    pub flash_loan_fee_bps: Double,
    pub min_net_profit_usd: Double,
    /// Blocks between two summaries.
    pub stats_interval: u64,
    /// The most reconnection attempts, 0 for no limit.
    pub max_retries: u32,
    pub initial_retry_delay_secs: u64,
    pub max_retry_delay_secs: u64,
    /// The age in milliseconds above which data is not used.
    pub max_staleness_ms: u128,
    pub max_trade_size_weth: Double,
    pub chain_id: u64,
}

/// A URL setting that is unusable: empty, or left as in the template.
pub open spec fn is_bad_url(url: Seq<char>, template: Seq<char>) -> bool {
    url.len() == 0 || text::begins_with(url, template)
}

/// A setting, unless it is empty or left as in the template.
pub open spec fn filled_in(value: Option<Seq<char>>, template: Seq<char>) -> Option<Seq<char>> {
    match value {
        Some(t) => if t.len() == 0 || t == template {
            None
        } else {
            Some(t)
        },
        None => None,
    }
}

/// Why an environment gives no configuration.
pub open spec fn config_refusal(env: Environment) -> Option<Refusal> {
    let wss = env.value("RPC_WSS_URL"@);
    let http = env.value("RPC_HTTP_URL"@);
    if wss is None {
        Some(Refusal::Missing { setting: Setting::RpcWssUrl })
    } else if is_bad_url(wss.unwrap(), "wss://your-"@) {
        Some(Refusal::BadUrl { setting: Setting::RpcWssUrl })
    } else if http is None {
        Some(Refusal::Missing { setting: Setting::RpcHttpUrl })
    } else if is_bad_url(http.unwrap(), "https://your-"@) {
        Some(Refusal::BadUrl { setting: Setting::RpcHttpUrl })
    } else {
        None
    }
}

/// The contract address that an environment gives.
pub open spec fn contract_bytes(env: Environment) -> Option<Seq<u8>> {
    match filled_in(env.value("ARBITRAGE_CONTRACT_ADDRESS"@), "0xYourContractAddress"@) {
        Some(t) => if outside::is_hex(t, 20) {
            Some(outside::hex_bytes(t, 20))
        } else {
            None
        },
        None => None,
    }
}

/// The bytes of an address that may be absent.
pub open spec fn bytes_of(address: Option<Address>) -> Option<Seq<u8>> {
    match address {
        Some(a) => Some(a@),
        None => None,
    }
}

fn get_filled_in(env: &Environment, name: &str, template: &str) -> (value: Option<String>)
    ensures
        characters(value) == filled_in(env.value(name@), template@),
{
    match env.get(name) {
        Some(t) => if t.as_str().is_empty() || same(t.as_str(), template) {
            None
        } else {
            Some(t)
        },
        None => None,
    }
}

impl BotConfig {
    /// Whether the configuration is the one that an environment gives.
    pub open spec fn reads(self, env: Environment, numbers: NumberSettings) -> bool {
        &&& Some(self.rpc_wss_url@) == env.value("RPC_WSS_URL"@)
        &&& Some(self.rpc_http_url@) == env.value("RPC_HTTP_URL"@)
        &&& characters(self.private_key) == filled_in(
            env.value("PRIVATE_KEY"@),
            "your-private-key-here"@,
        )
        &&& bytes_of(self.contract_address) == contract_bytes(env)
        &&& self.gas_cost_usd == number_or(numbers.gas_cost_usd, DEFAULT_GAS_COST)
        &&& self.flash_loan_fee_bps == number_or(numbers.flash_loan_fee_bps, DEFAULT_LOAN_FEE)
        &&& self.min_net_profit_usd == number_or(numbers.min_net_profit_usd, DEFAULT_MIN_PROFIT)
        &&& self.max_trade_size_weth == number_or(numbers.max_trade_size_weth, DEFAULT_MAX_TRADE)
        &&& self.stats_interval == env.integer("STATS_INTERVAL"@, u64::MAX as nat, 10)
        &&& self.max_retries == env.integer("MAX_RETRIES"@, u32::MAX as nat, 0)
        &&& self.max_staleness_ms == env.integer("MAX_STALENESS_MS"@, u128::MAX as nat, 2000)
        &&& self.chain_id == env.integer("CHAIN_ID"@, u64::MAX as nat, 8453)
        &&& self.initial_retry_delay_secs == 2
        &&& self.max_retry_delay_secs == 60
    }

    /// Reads the configuration from an environment.
    pub fn from_env(env: &Environment, numbers: &NumberSettings) -> (result: Result<
        BotConfig,
        ConfigError,
    >)
        ensures
            match result {
                Ok(config) => config_refusal(*env) is None && config.reads(*env, *numbers),
                Err(error) => config_refusal(*env) == Some(error@),
            },
    {
        let rpc_wss_url: String = match env.get("RPC_WSS_URL") {
            Some(url) => url,
            None => return Err(ConfigError::Missing { setting: Setting::RpcWssUrl }),
        };
        if rpc_wss_url.as_str().is_empty() || has_prefix(rpc_wss_url.as_str(), "wss://your-") {
            return Err(ConfigError::BadUrl { setting: Setting::RpcWssUrl });
        }
        let rpc_http_url: String = match env.get("RPC_HTTP_URL") {
            Some(url) => url,
            None => return Err(ConfigError::Missing { setting: Setting::RpcHttpUrl }),
        };
        if rpc_http_url.as_str().is_empty() || has_prefix(rpc_http_url.as_str(), "https://your-") {
            return Err(ConfigError::BadUrl { setting: Setting::RpcHttpUrl });
        }
        let private_key: Option<String> = get_filled_in(
            env,
            "PRIVATE_KEY",
            "your-private-key-here",
        );
        let contract_address: Option<Address> = match get_filled_in(
            env,
            "ARBITRAGE_CONTRACT_ADDRESS",
            "0xYourContractAddress",
        ) {
            Some(t) => match parse_address(t.as_str()) {
                Ok(address) => Some(address),
                Err(_) => None,
            },
            None => None,
        };
        Ok(
            BotConfig {
                rpc_wss_url,
                rpc_http_url,
                private_key,
                contract_address,
                gas_cost_usd: get_number(numbers.gas_cost_usd, DEFAULT_GAS_COST),
                flash_loan_fee_bps: get_number(numbers.flash_loan_fee_bps, DEFAULT_LOAN_FEE),
                min_net_profit_usd: get_number(numbers.min_net_profit_usd, DEFAULT_MIN_PROFIT),
                stats_interval: env.get_integer("STATS_INTERVAL", u64::MAX as u128, 10) as u64,
                max_retries: env.get_integer("MAX_RETRIES", u32::MAX as u128, 0) as u32,
                initial_retry_delay_secs: 2,
                max_retry_delay_secs: 60,
                max_staleness_ms: env.get_integer("MAX_STALENESS_MS", u128::MAX, 2000),
                max_trade_size_weth: get_number(numbers.max_trade_size_weth, DEFAULT_MAX_TRADE),
                chain_id: env.get_integer("CHAIN_ID", u64::MAX as u128, 8453) as u64,
            },
        )
    }

    /// Whether trades can be sent.
    pub open spec fn executes(self) -> bool {
        self.private_key is Some && self.contract_address is Some
    }

    /// Whether trades can be sent.
    pub fn execution_enabled(&self) -> (answer: bool)
        ensures
            answer == self.executes(),
    {
        self.private_key.is_some() && self.contract_address.is_some()
    }
}

/// The exchange that the name `named` stands for in any case; any other name
/// stands for `other`.
pub open spec fn dex_choice(
    value: Seq<char>,
    named: Seq<char>,
    choice: DexType,
    other: DexType,
) -> DexType {
    if outside::lowercase(value) == named {
        choice
    } else {
        other
    }
}

/// An ASCII name stands for `choice` exactly where it is `named` in any case.
pub open spec fn plain_choice(
    value: Seq<char>,
    named: Seq<char>,
    dex: DexType,
    choice: DexType,
) -> bool {
    outside::all_ascii(value) ==> (dex == choice <==> outside::ascii_lowercase(value) == named)
}

/// The exchange that a name, already in lowercase, stands for.
pub fn choose_dex(lower: &str, named: &str, choice: DexType, other: DexType) -> (dex: DexType)
    ensures
        dex == (if lower@ == named@ {
            choice
        } else {
            other
        }),
{
    if same(lower, named) {
        choice
    } else {
        other
    }
}

/// A fee in basis points as a fraction.
pub open spec fn fee_of(bps: nat) -> Double {
    double::quotient(double::of_nat(bps), Double { bits: BASIS_POINTS })
}

/// Why an environment gives no pools.
pub open spec fn pools_refusal(env: Environment) -> Option<Refusal> {
    let a = env.value("POOL_A_ADDRESS"@);
    let b = env.value("POOL_B_ADDRESS"@);
    if a is None {
        Some(Refusal::Missing { setting: Setting::PoolAAddress })
    } else if !outside::is_hex(a.unwrap(), 20) {
        Some(
            Refusal::BadAddress {
                setting: Setting::PoolAAddress,
                reason: outside::address_error(a.unwrap()),
            },
        )
    } else if b is None {
        Some(Refusal::Missing { setting: Setting::PoolBAddress })
    } else if !outside::is_hex(b.unwrap(), 20) {
        Some(
            Refusal::BadAddress {
                setting: Setting::PoolBAddress,
                reason: outside::address_error(b.unwrap()),
            },
        )
    } else {
        None
    }
}

impl PoolConfig {
    /// Whether a pool is the first one that an environment gives.
    pub open spec fn reads_a(self, env: Environment) -> bool {
        &&& self.address@ == outside::hex_bytes(env.value("POOL_A_ADDRESS"@).unwrap(), 20)
        &&& self.name@ == env.value_or("POOL_A_NAME"@, "Havuz A"@)
        &&& self.fee_bps == env.integer("POOL_A_FEE_BPS"@, u32::MAX as nat, 5)
        &&& self.dex == dex_choice(
            env.value_or("POOL_A_DEX"@, "uniswap"@),
            "aerodrome"@,
            DexType::Aerodrome,
            DexType::UniswapV3,
        )
        &&& self.shares(env)
    }

    /// Whether a pool is the second one that an environment gives.
    pub open spec fn reads_b(self, env: Environment) -> bool {
        &&& self.address@ == outside::hex_bytes(env.value("POOL_B_ADDRESS"@).unwrap(), 20)
        &&& self.name@ == env.value_or("POOL_B_NAME"@, "Havuz B"@)
        &&& self.fee_bps == env.integer("POOL_B_FEE_BPS"@, u32::MAX as nat, 100)
        &&& self.dex == dex_choice(
            env.value_or("POOL_B_DEX"@, "aerodrome"@),
            "uniswap"@,
            DexType::UniswapV3,
            DexType::Aerodrome,
        )
        &&& self.shares(env)
    }

    /// What both pools have alike: the fee as a fraction, and the decimals.
    pub open spec fn shares(self, env: Environment) -> bool {
        &&& self.fee_fraction == fee_of(self.fee_bps as nat)
        &&& self.token0_decimals == env.integer("TOKEN0_DECIMALS"@, u8::MAX as nat, 6)
        &&& self.token1_decimals == env.integer("TOKEN1_DECIMALS"@, u8::MAX as nat, 18)
    }
}

fn fee_fraction_of(bps: u32) -> (fraction: Double)
    ensures
        fraction == fee_of(bps as nat),
{
    Double::from_u128(bps as u128).over(Double::from_bits(BASIS_POINTS))
}

fn get_address(env: &Environment, setting: Setting) -> (result: Result<Address, ConfigError>)
    ensures
        match result {
            Ok(address) => env.value(setting.label()) is Some && outside::is_hex(
                env.value(setting.label()).unwrap(),
                20,
            ) && address@ == outside::hex_bytes(env.value(setting.label()).unwrap(), 20),
            Err(error) => match env.value(setting.label()) {
                None => error@ == (Refusal::Missing { setting }),
                Some(t) => !outside::is_hex(t, 20) && error@ == (Refusal::BadAddress {
                    setting,
                    reason: outside::address_error(t),
                }),
            },
        },
{
    match env.get(setting.variable().as_str()) {
        None => Err(ConfigError::Missing { setting }),
        Some(t) => match parse_address(t.as_str()) {
            Ok(address) => Ok(address),
            Err(reason) => Err(ConfigError::BadAddress { setting, reason }),
        },
    }
}

/// Reads the two pools to watch from an environment.
pub fn load_pool_configs_from_env(env: &Environment) -> (result: Result<
    Vec<PoolConfig>,
    ConfigError,
>)
    ensures
        match result {
            Ok(pools) => {
                &&& pools_refusal(*env) is None
                &&& pools@.len() == 2
                &&& pools@[0].reads_a(*env)
                &&& pools@[1].reads_b(*env)
                &&& plain_choice(
                    env.value_or("POOL_A_DEX"@, "uniswap"@),
                    "aerodrome"@,
                    pools@[0].dex,
                    DexType::Aerodrome,
                )
                &&& plain_choice(
                    env.value_or("POOL_B_DEX"@, "aerodrome"@),
                    "uniswap"@,
                    pools@[1].dex,
                    DexType::UniswapV3,
                )
            },
            Err(error) => pools_refusal(*env) == Some(error@),
        },
{
    let address_a: Address = match get_address(env, Setting::PoolAAddress) {
        Ok(address) => address,
        Err(error) => return Err(error),
    };
    let name_a: String = env.get_or("POOL_A_NAME", "Havuz A");
    let fee_a: u32 = env.get_integer("POOL_A_FEE_BPS", u32::MAX as u128, 5) as u32;
    let dex_a: DexType = choose_dex(
        to_lowercase(env.get_or("POOL_A_DEX", "uniswap").as_str()).as_str(),
        "aerodrome",
        DexType::Aerodrome,
        DexType::UniswapV3,
    );
    let address_b: Address = match get_address(env, Setting::PoolBAddress) {
        Ok(address) => address,
        Err(error) => return Err(error),
    };
    let name_b: String = env.get_or("POOL_B_NAME", "Havuz B");
    let fee_b: u32 = env.get_integer("POOL_B_FEE_BPS", u32::MAX as u128, 100) as u32;
    let dex_b: DexType = choose_dex(
        to_lowercase(env.get_or("POOL_B_DEX", "aerodrome").as_str()).as_str(),
        "uniswap",
        DexType::UniswapV3,
        DexType::Aerodrome,
    );
    let token0_decimals: u8 = env.get_integer("TOKEN0_DECIMALS", u8::MAX as u128, 6) as u8;
    let token1_decimals: u8 = env.get_integer("TOKEN1_DECIMALS", u8::MAX as u128, 18) as u8;
    let mut pools: Vec<PoolConfig> = Vec::new();
    pools.push(
        PoolConfig {
            address: address_a,
            name: name_a,
            fee_bps: fee_a,
            fee_fraction: fee_fraction_of(fee_a),
            token0_decimals,
            token1_decimals,
            dex: dex_a,
        },
    );
    pools.push(
        PoolConfig {
            address: address_b,
            name: name_b,
            fee_bps: fee_b,
            fee_fraction: fee_fraction_of(fee_b),
            token0_decimals,
            token1_decimals,
            dex: dex_b,
        },
    );
    Ok(pools)
}

/// What a session has seen and done.
#[derive(Debug, Clone, Copy)]
pub struct ArbitrageStats {
    pub total_blocks_processed: u64,
    pub total_opportunities: u64,
    pub profitable_opportunities: u64,
    pub executed_trades: u64,
    pub failed_simulations: u64,
    pub max_spread_pct: Double,
    pub max_profit_usd: Double,
    pub total_potential_profit: Double,
    /// The reading of a monotonic clock, in nanoseconds, at the start.
    pub session_start: u128,
}

/// The nanoseconds of a second.
pub const NANOS_PER_SECOND: u128 = 1_000_000_000;

/// `hours:minutes:seconds`, each with two digits at least.
pub open spec fn clock_text(seconds: nat) -> Seq<char> {
    text::two_digits(seconds / 3600) + seq![':'] + text::two_digits(seconds % 3600 / 60)
        + seq![':'] + text::two_digits(seconds % 60)
}

impl ArbitrageStats {
    /// The statistics of a session that starts at the clock reading `now`.
    pub fn new(now: u128) -> (stats: ArbitrageStats)
        ensures
            stats.total_blocks_processed == 0,
            stats.total_opportunities == 0,
            stats.profitable_opportunities == 0,
            stats.executed_trades == 0,
            stats.failed_simulations == 0,
            stats.max_spread_pct == (Double { bits: 0 }),
            stats.max_profit_usd == (Double { bits: 0 }),
            stats.total_potential_profit == (Double { bits: 0 }),
            stats.session_start == now,
    {
        ArbitrageStats {
            total_blocks_processed: 0,
            total_opportunities: 0,
            profitable_opportunities: 0,
            executed_trades: 0,
            failed_simulations: 0,
            max_spread_pct: Double::from_bits(0),
            max_profit_usd: Double::from_bits(0),
            total_potential_profit: Double::from_bits(0),
            session_start: now,
        }
    }

    /// The whole seconds from the start to the clock reading `now`.
    pub open spec fn uptime(self, now: u128) -> nat {
        if now <= self.session_start {
            0
        } else {
            ((now - self.session_start) / NANOS_PER_SECOND as int) as nat
        }
    }

    /// The time since the start as text.
    pub fn uptime_str(&self, now: u128) -> (uptime: String)
        ensures
            uptime@ == clock_text(self.uptime(now)),
    {
        let seconds: u128 = if now <= self.session_start {
            0
        } else {
            (now - self.session_start) / NANOS_PER_SECOND
        };
        proof {
            reveal_strlit(":");
        }
        let mut uptime: String = String::new();
        append_two_digits(&mut uptime, seconds / 3600);
        uptime.append(":");
        append_two_digits(&mut uptime, seconds % 3600 / 60);
        uptime.append(":");
        append_two_digits(&mut uptime, seconds % 60);
        assert(uptime@ == clock_text(self.uptime(now)));
        uptime
    }
}

/// A positive whole number of 32 bits lies between powers of two.
proof fn lemma_small_between(n: nat)
    requires
        1 <= n <= u32::MAX,
    ensures
        scaling::between(double::of_nat(n), 0, 32),
{
    let d = pow2(1074);
    let x = double::of_nat(n);
    accuracy::lemma_of_nat_units(n);
    scaling::lemma_power(0);
    scaling::lemma_power(32);
    lemma2_to64();
    lemma_pow2_adds(32, 1074);
    lemma_mul_inequality(1, n as int, d as int);
    lemma_mul_inequality(n as int, 0x1_0000_0000, d as int);
    order::law_magnitudes_follow_values(scaling::power(0), x);
    order::law_magnitudes_follow_values(x, scaling::power(32));
}

/// The fraction of a pool's fee, times 10000, is the fee in basis points that
/// its environment gives, up to one rounding.
pub proof fn law_fee_fraction_is_the_fee(pool: PoolConfig, env: Environment)
    requires
        pool.reads_a(env) || pool.reads_b(env),
    ensures
        pool.fee_fraction.is_finite(),
        accuracy::real_of(pool.fee_fraction) >= 0real,
        accuracy::within(
            accuracy::real_of(pool.fee_fraction) * 10_000real,
            pool.fee_bps as real,
            1real,
            pool.fee_bps as real,
        ),
{
    let n = pool.fee_bps as nat;
    let x = double::of_nat(n);
    let points = Double { bits: BASIS_POINTS };
    accuracy::law_small_integers_are_exact(n);
    accuracy::lemma_of_nat_units(n);
    fidelity::lemma_units();
    fidelity::lemma_between(points, 13, 14);
    if n == 0 {
        fidelity::lemma_quotient_sized(x, points, 0, 32, 13, 14);
    } else {
        lemma_small_between(n);
        assert(double::absolute(x) == x);
        fidelity::lemma_quotient_sized(x, points, 0, 32, 13, 14);
    }
    assert(!pool.fee_fraction.negative()) by {
        reveal(double::quotient);
    }
    accuracy::lemma_real_units(pool.fee_fraction);
    let q = n as real / accuracy::real_of(points);
    algebra::lemma_quotient_back(n as real, accuracy::real_of(points));
    assert(q * 10_000real == n as real);
}

/// Of two pools, the one with the larger fee in basis points has no smaller
/// fraction.
pub proof fn law_larger_fee_is_no_smaller_fraction(
    low: PoolConfig,
    high: PoolConfig,
    env: Environment,
    other: Environment,
)
    requires
        low.reads_a(env) || low.reads_b(env),
        high.reads_a(other) || high.reads_b(other),
        low.fee_bps <= high.fee_bps,
    ensures
        double::less_or_equal(low.fee_fraction, high.fee_fraction),
{
    let d = pow2(1074);
    let points = Double { bits: BASIS_POINTS };
    let (a, b) = (low.fee_bps as nat, high.fee_bps as nat);
    accuracy::lemma_of_nat_units(a);
    accuracy::lemma_of_nat_units(b);
    fidelity::lemma_units();
    fidelity::lemma_between(points, 13, 14);
    lemma_mul_inequality(a as int, b as int, d as int);
    order::law_magnitudes_follow_values(double::of_nat(a), double::of_nat(b));
    order::lemma_quotient_operands(double::of_nat(a), points);
    order::lemma_quotient_operands(double::of_nat(b), points);
    order::law_quotient_is_monotone(double::of_nat(a), double::of_nat(b), points);
}

/// Of several variables with one name the first one counts.
pub proof fn law_first_variable_counts(env: Environment, name: Seq<char>, i: int)
    requires
        0 <= i < env.variables@.len(),
        env.variables@[i].0@ == name,
        forall|j: int| 0 <= j < i ==> (#[trigger] env.variables@[j]).0@ != name,
    ensures
        env.value(name) == Some(env.variables@[i].1@),
{
    lemma_first(env.variables@, name, i);
}

/// The first of several variables.
proof fn lemma_first(variables: Seq<(String, String)>, name: Seq<char>, i: int)
    requires
        0 <= i < variables.len(),
        variables[i].0@ == name,
        forall|j: int| 0 <= j < i ==> (#[trigger] variables[j]).0@ != name,
    ensures
        variable(variables, name) == Some(variables[i].1@),
    decreases i,
{
    if i > 0 {
        let rest = variables.drop_first();
        assert(variables[0].0@ != name);
        assert forall|j: int| 0 <= j < i - 1 implies (#[trigger] rest[j]).0@ != name by {
            assert(rest[j] == variables[j + 1]);
        }
        lemma_first(rest, name, i - 1);
    }
}

/// A name that no variable has, has no value.
pub proof fn law_unknown_variable_has_no_value(env: Environment, name: Seq<char>)
    requires
        forall|j: int|
            0 <= j < env.variables@.len() ==> (#[trigger] env.variables@[j]).0@ != name,
    ensures
        env.value(name) is None,
{
    lemma_none(env.variables@, name);
}

/// None of several variables.
proof fn lemma_none(variables: Seq<(String, String)>, name: Seq<char>)
    requires
        forall|j: int| 0 <= j < variables.len() ==> (#[trigger] variables[j]).0@ != name,
    ensures
        variable(variables, name) is None,
    decreases variables.len(),
{
    if variables.len() > 0 {
        let rest = variables.drop_first();
        assert(variables[0].0@ != name);
        assert forall|j: int| 0 <= j < rest.len() implies (#[trigger] rest[j]).0@ != name by {
            assert(rest[j] == variables[j + 1]);
        }
        lemma_none(rest, name);
    }
}

/// A whole number that an environment gives is the setting, where it fits.
pub proof fn law_numbers_are_taken_over(
    config: BotConfig,
    env: Environment,
    numbers: NumberSettings,
    n: nat,
)
    requires
        config.reads(env, numbers),
    ensures
        env.value("STATS_INTERVAL"@) == Some(text::decimal(n)) && n <= u64::MAX
            ==> config.stats_interval == n,
        env.value("MAX_RETRIES"@) == Some(text::decimal(n)) && n <= u32::MAX ==> config.max_retries
            == n,
        env.value("MAX_STALENESS_MS"@) == Some(text::decimal(n)) && n <= u128::MAX
            ==> config.max_staleness_ms == n,
        env.value("CHAIN_ID"@) == Some(text::decimal(n)) && n <= u64::MAX ==> config.chain_id == n,
        numbers.gas_cost_usd matches Some(x) ==> config.gas_cost_usd == x,
        numbers.flash_loan_fee_bps matches Some(x) ==> config.flash_loan_fee_bps == x,
        numbers.min_net_profit_usd matches Some(x) ==> config.min_net_profit_usd == x,
        numbers.max_trade_size_weth matches Some(x) ==> config.max_trade_size_weth == x,
{
    text::law_digits_are_parsed(n, u32::MAX as nat);
    text::law_digits_are_parsed(n, u64::MAX as nat);
    text::law_digits_are_parsed(n, u128::MAX as nat);
}

/// Whether a value is missing, or is no whole number up to `max`.
pub open spec fn unreadable(value: Option<Seq<char>>, max: nat) -> bool {
    value is None || text::parsed(value.unwrap(), max) is None
}

/// What an environment does not give has a default: a summary every 10 blocks,
/// any number of connections, data of up to 2 seconds, the chain 8453, 0.10 USD
/// of gas, 5 basis points for the loan, 0.50 USD of profit and 50 WETH at most;
/// the waits are from 2 to 60 seconds.
pub proof fn law_missing_numbers_have_defaults(
    config: BotConfig,
    env: Environment,
    numbers: NumberSettings,
)
    requires
        config.reads(env, numbers),
    ensures
        unreadable(env.value("STATS_INTERVAL"@), u64::MAX as nat) ==> config.stats_interval == 10,
        unreadable(env.value("MAX_RETRIES"@), u32::MAX as nat) ==> config.max_retries == 0,
        unreadable(env.value("MAX_STALENESS_MS"@), u128::MAX as nat) ==> config.max_staleness_ms
            == 2000,
        unreadable(env.value("CHAIN_ID"@), u64::MAX as nat) ==> config.chain_id == 8453,
        numbers.gas_cost_usd is None ==> steepness::is_nearest_part(config.gas_cost_usd, 10real),
        numbers.flash_loan_fee_bps is None ==> accuracy::real_of(config.flash_loan_fee_bps)
            == 5real,
        numbers.min_net_profit_usd is None ==> accuracy::real_of(config.min_net_profit_usd) * 2real
            == 1real,
        numbers.max_trade_size_weth is None ==> accuracy::real_of(config.max_trade_size_weth)
            == 50real,
        config.initial_retry_delay_secs == 2,
        config.max_retry_delay_secs == 60,
{
    let (gas, fee, profit, most) = (
        Double { bits: DEFAULT_GAS_COST },
        Double { bits: DEFAULT_LOAN_FEE },
        Double { bits: DEFAULT_MIN_PROFIT },
        Double { bits: DEFAULT_MAX_TRADE },
    );
    lemma2_to64();
    lemma2_to64_rest();
    steepness::lemma_nearest_part(gas, 7_205_759_403_792_794, 1018, 56, 10);
    assert(fee.spacing() == 1024 && fee.significand() == 0x14_0000_0000_0000);
    lemma_pow2_adds(50, 1024);
    let f = pow2(1024);
    assert(0x14_0000_0000_0000 * f == 5 * (0x4_0000_0000_0000 * f));
    fidelity::lemma_integer(fee, 5);
    assert(most.spacing() == 1027 && most.significand() == 0x19_0000_0000_0000);
    lemma_pow2_adds(47, 1027);
    let g = pow2(1027);
    assert(0x19_0000_0000_0000 * g == 50 * (0x8000_0000_0000 * g));
    fidelity::lemma_integer(most, 50);
    assert(profit.spacing() == 1021 && profit.significand() == 0x10_0000_0000_0000);
    lemma_pow2_adds(53, 1021);
    let h = pow2(1021);
    assert(2 * (0x10_0000_0000_0000 * h) == 0x20_0000_0000_0000 * h);
    lemma_half(profit);
}

/// A number of half as many units as one.
proof fn lemma_half(x: Double)
    requires
        !x.negative(),
        2 * x.units() == pow2(1074),
    ensures
        accuracy::real_of(x) * 2real == 1real,
{
    let t = pow2(1074) as real;
    accuracy::lemma_scale();
    accuracy::lemma_real_units(x);
    let r = accuracy::real_of(x);
    assert((r * 2real) * t == 2real * (r * t)) by (nonlinear_arith);
    algebra::lemma_cancel(r * 2real, 1real, t);
    algebra::lemma_cancel(1real, r * 2real, t);
}

/// The key and the contract are those of the environment; an empty text, or the
/// one of the template, stands for none. A contract is read from its hexadecimal
/// digits.
pub proof fn law_key_and_contract_are_taken_over(
    config: BotConfig,
    env: Environment,
    numbers: NumberSettings,
    contract: Seq<u8>,
)
    requires
        config.reads(env, numbers),
        contract.len() == 20,
    ensures
        env.value("RPC_WSS_URL"@) == Some(config.rpc_wss_url@),
        env.value("RPC_HTTP_URL"@) == Some(config.rpc_http_url@),
        config.private_key matches Some(key) ==> {
            &&& env.value("PRIVATE_KEY"@) == Some(key@)
            &&& key@.len() > 0
            &&& key@ != "your-private-key-here"@
        },
        config.private_key is None ==> {
            ||| env.value("PRIVATE_KEY"@) is None
            ||| env.value("PRIVATE_KEY"@).unwrap().len() == 0
            ||| env.value("PRIVATE_KEY"@) == Some("your-private-key-here"@)
        },
        env.value("ARBITRAGE_CONTRACT_ADDRESS"@) is None ==> config.contract_address is None,
        env.value("ARBITRAGE_CONTRACT_ADDRESS"@) matches Some(t) ==> {
            (config.contract_address is Some <==> outside::is_hex(t, 20) && t.len() > 0 && t
                != "0xYourContractAddress"@)
        },
        env.value("ARBITRAGE_CONTRACT_ADDRESS"@) == Some(
            seq!['0', 'x'] + text::hexadecimal(contract),
        ) ==> config.contract_address is Some && config.contract_address.unwrap()@ == contract,
{
    lemma_prefixed(contract);
    let t = seq!['0', 'x'] + text::hexadecimal(contract);
    text::law_hexadecimal_reads_back(contract);
    assert(t != "0xYourContractAddress"@) by {
        reveal_strlit("0xYourContractAddress");
        assert(t.len() == 42);
    }
}

/// A prefix before hexadecimal digits changes nothing.
proof fn lemma_prefixed(bytes: Seq<u8>)
    ensures
        ({
            let t = seq!['0', 'x'] + text::hexadecimal(bytes);
            &&& t.len() == 2 + 2 * bytes.len()
            &&& outside::is_hex(t, bytes.len())
            &&& outside::hex_bytes(t, bytes.len()) == bytes
        }),
{
    let digits = text::hexadecimal(bytes);
    let t = seq!['0', 'x'] + digits;
    text::law_hexadecimal_reads_back(bytes);
    assert(t.skip(2) =~= digits);
    assert(outside::without_prefix(t) == digits);
    assert(outside::without_prefix(digits) == digits) by {
        if digits.len() >= 2 && digits[0] == '0' && (digits[1] == 'x' || digits[1] == 'X') {
            assert(digits.skip(2).len() == digits.len() - 2);
        }
    }
    assert(outside::hex_bytes(t, bytes.len()) =~= outside::hex_bytes(digits, bytes.len()));
}

/// A configuration is refused exactly where a URL is missing, empty or left as
/// in the template, and the refusal names the first such URL.
pub proof fn law_configuration_needs_two_urls(env: Environment)
    ensures
        ({
            let wss = env.value("RPC_WSS_URL"@);
            let http = env.value("RPC_HTTP_URL"@);
            let wss_bad = wss is Some && (wss.unwrap().len() == 0 || "wss://your-"@.is_prefix_of(
                wss.unwrap(),
            ));
            let http_bad = http is Some && (http.unwrap().len() == 0
                || "https://your-"@.is_prefix_of(http.unwrap()));
            let refusal = config_refusal(env);
            &&& refusal is None <==> wss is Some && !wss_bad && http is Some && !http_bad
            &&& wss is None ==> refusal == Some(Refusal::Missing { setting: Setting::RpcWssUrl })
            &&& wss_bad ==> refusal == Some(Refusal::BadUrl { setting: Setting::RpcWssUrl })
            &&& wss is Some && !wss_bad && http is None ==> refusal == Some(
                Refusal::Missing { setting: Setting::RpcHttpUrl },
            )
            &&& wss is Some && !wss_bad && http_bad ==> refusal == Some(
                Refusal::BadUrl { setting: Setting::RpcHttpUrl },
            )
        }),
{
    let wss = env.value("RPC_WSS_URL"@);
    let http = env.value("RPC_HTTP_URL"@);
    lemma_begins(wss.unwrap(), "wss://your-"@);
    lemma_begins(http.unwrap(), "https://your-"@);
}

/// A text begins with its prefixes.
proof fn lemma_begins(text: Seq<char>, prefix: Seq<char>)
    ensures
        text::begins_with(text, prefix) == prefix.is_prefix_of(text),
{
    if prefix.len() <= text.len() {
        assert(text.take(prefix.len() as int) =~= text.subrange(0, prefix.len() as int));
    }
}

/// Pools are refused exactly where an address is missing or is no address, and
/// the refusal names the first such pool.
pub proof fn law_pools_need_two_addresses(env: Environment)
    ensures
        ({
            let a = env.value("POOL_A_ADDRESS"@);
            let b = env.value("POOL_B_ADDRESS"@);
            let a_good = a is Some && outside::is_hex(a.unwrap(), 20);
            let b_good = b is Some && outside::is_hex(b.unwrap(), 20);
            let refusal = pools_refusal(env);
            &&& refusal is None <==> a_good && b_good
            &&& a is None ==> refusal == Some(Refusal::Missing { setting: Setting::PoolAAddress })
            &&& a_good && b is None ==> refusal == Some(
                Refusal::Missing { setting: Setting::PoolBAddress },
            )
            &&& a is Some && !a_good ==> refusal == Some(
                Refusal::BadAddress {
                    setting: Setting::PoolAAddress,
                    reason: outside::address_error(a.unwrap()),
                },
            )
            &&& a_good && b is Some && !b_good ==> refusal == Some(
                Refusal::BadAddress {
                    setting: Setting::PoolBAddress,
                    reason: outside::address_error(b.unwrap()),
                },
            )
        }),
{
}

/// The pools are those of the environment: their addresses are read from
/// hexadecimal digits, their fees and decimals from decimal ones.
pub proof fn law_pools_are_taken_over(
    a: PoolConfig,
    b: PoolConfig,
    env: Environment,
    address: Seq<u8>,
    n: nat,
)
    requires
        a.reads_a(env),
        b.reads_b(env),
        address.len() == 20,
    ensures
        ({
            let hex = Some(seq!['0', 'x'] + text::hexadecimal(address));
            let digits = Some(text::decimal(n));
            &&& env.value("POOL_A_ADDRESS"@) == hex ==> a.address@ == address
            &&& env.value("POOL_B_ADDRESS"@) == hex ==> b.address@ == address
            &&& env.value("POOL_A_FEE_BPS"@) == digits && n <= u32::MAX ==> a.fee_bps == n
            &&& env.value("POOL_B_FEE_BPS"@) == digits && n <= u32::MAX ==> b.fee_bps == n
            &&& env.value("TOKEN0_DECIMALS"@) == digits && n <= u8::MAX ==> a.token0_decimals == n
                && b.token0_decimals == n
            &&& env.value("TOKEN1_DECIMALS"@) == digits && n <= u8::MAX ==> a.token1_decimals == n
                && b.token1_decimals == n
            &&& env.value("POOL_A_NAME"@) matches Some(name) ==> a.name@ == name
            &&& env.value("POOL_B_NAME"@) matches Some(name) ==> b.name@ == name
        }),
{
    lemma_prefixed(address);
    text::law_digits_are_parsed(n, u32::MAX as nat);
    text::law_digits_are_parsed(n, u8::MAX as nat);
}

/// What an environment does not say of the pools has a default: a fee of 5 and
/// of 100 basis points, 6 and 18 decimals, and a name for each.
pub proof fn law_missing_pool_settings_have_defaults(
    a: PoolConfig,
    b: PoolConfig,
    env: Environment,
)
    requires
        a.reads_a(env),
        b.reads_b(env),
    ensures
        unreadable(env.value("POOL_A_FEE_BPS"@), u32::MAX as nat) ==> a.fee_bps == 5,
        unreadable(env.value("POOL_B_FEE_BPS"@), u32::MAX as nat) ==> b.fee_bps == 100,
        unreadable(env.value("TOKEN0_DECIMALS"@), u8::MAX as nat) ==> a.token0_decimals == 6
            && b.token0_decimals == 6,
        unreadable(env.value("TOKEN1_DECIMALS"@), u8::MAX as nat) ==> a.token1_decimals == 18
            && b.token1_decimals == 18,
        env.value("POOL_A_NAME"@) is None ==> a.name@ == "Havuz A"@,
        env.value("POOL_B_NAME"@) is None ==> b.name@ == "Havuz B"@,
{
}

/// The first pool is one of Uniswap unless it is named Aerodrome, the second one
/// of Aerodrome unless it is named Uniswap.
pub proof fn law_exchange_is_the_named_one(a: PoolConfig, b: PoolConfig, env: Environment)
    requires
        a.reads_a(env),
        b.reads_b(env),
    ensures
        env.value("POOL_A_DEX"@) matches Some(name) ==> (a.dex == DexType::Aerodrome
            <==> outside::lowercase(name) == "aerodrome"@),
        env.value("POOL_B_DEX"@) matches Some(name) ==> (b.dex == DexType::UniswapV3
            <==> outside::lowercase(name) == "uniswap"@),
{
}

/// A pool is active exactly where it has been read and has a price and
/// liquidity; its age is the whole milliseconds since it was read.
pub proof fn law_activity_and_age(state: PoolState, now: u128)
    ensures
        state.active() <==> state.is_initialized && state.liquidity > 0 && double::less(
            Double { bits: 0 },
            state.eth_price_usd,
        ),
        now <= state.last_update ==> state.age_ms(now) == 0,
        now >= state.last_update ==> state.age_ms(now) * 1_000_000 <= now - state.last_update < (
        state.age_ms(now) + 1) * 1_000_000,
{
}

/// Trades are sent exactly where there are a key and a contract.
pub proof fn law_trades_need_a_key_and_a_contract(config: BotConfig)
    ensures
        config.executes() <==> config.private_key is Some && config.contract_address is Some,
{
}

/// The exchanges are called by their names.
pub proof fn law_exchanges_have_their_names()
    ensures
        DexType::UniswapV3.label() == "Uniswap V3"@,
        DexType::Aerodrome.label() == "Aerodrome"@,
{
}

/// No time has passed before the start.
pub proof fn law_no_uptime_before_the_start(stats: ArbitrageStats, now: u128)
    requires
        now <= stats.session_start,
    ensures
        stats.uptime(now) == 0,
{
}

/// The time since the start shows whole seconds: two digits of seconds and two
/// of minutes, both below 60, behind at least two of hours.
pub proof fn law_uptime_shows_the_seconds(stats: ArbitrageStats, now: u128)
    requires
        stats.session_start <= now,
    ensures
        ({
            let t = clock_text(stats.uptime(now));
            let k = t.len();
            let hours = text::decimal_value(t.take(k - 6));
            let minutes = text::decimal_value(t.subrange(k - 5, k - 3));
            let seconds = text::decimal_value(t.skip(k - 2));
            let total = 3600 * hours + 60 * minutes + seconds;
            &&& k >= 8
            &&& t[k - 6] == ':' && t[k - 3] == ':'
            &&& minutes < 60 && seconds < 60
            &&& total * 1_000_000_000 <= now - stats.session_start < (total + 1) * 1_000_000_000
        }),
{
    let total = stats.uptime(now);
    let (h, m, s) = (total / 3600, total % 3600 / 60, total % 60);
    let t = clock_text(total);
    text::law_two_digits_read_back(h);
    text::law_two_digits_read_back(m);
    text::law_two_digits_read_back(s);
    let k = t.len();
    assert(t.take(k - 6) =~= text::two_digits(h));
    assert(t.subrange(k - 5, k - 3) =~= text::two_digits(m));
    assert(t.skip(k - 2) =~= text::two_digits(s));
    assert(3600 * h + 60 * m + s == total);
}

/// What is said of a refused configuration holds of its own fields.
pub proof fn law_refusal_is_seen_as_it_is(error: ConfigError)
    ensures
        error matches ConfigError::Missing { setting } ==> error@ == (Refusal::Missing { setting }),
        error matches ConfigError::BadUrl { setting } ==> error@ == (Refusal::BadUrl { setting }),
        error matches ConfigError::BadAddress { setting, reason } ==> error@ == (
        Refusal::BadAddress { setting, reason: reason@ }),
{
}

} // verus!
