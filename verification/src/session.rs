//! A session: when to reconnect, what each block asks for, and the lines that
//! describe it.
use crate::double;
use crate::double::Double;
use crate::math::ZERO;
use crate::search;
use crate::simulator;
use crate::simulator::SimulationEngine;
use crate::state_sync;
use crate::state_sync::{sync_all_pools, PoolReading};
use crate::steepness;
use crate::strategy;
use crate::strategy::{
    can_check, check_arbitrage_opportunity, evaluate_and_execute, Evaluation, HUNDRED,
};
use crate::text;
use crate::text::append_fixed;
use crate::types::{ArbitrageOpportunity, ArbitrageStats, BotConfig, PoolConfig, PoolState};
use vstd::arithmetic::mul::*;
use vstd::arithmetic::power2::*;
use vstd::prelude::*;
use vstd::string::*;
use vstd::utf8::*;

verus! {

/// 0.001: a smaller spread in percent is not worth a line.
pub const SHOWN_SPREAD: u64 = 0x3f50_624d_d2f1_a9fc;

/// 0.05: a larger spread in percent stands out.
pub const NOTABLE_SPREAD: u64 = 0x3fa9_9999_9999_999a;

/// The bytes of a pool's name that are shown.
pub const SHOWN_NAME: usize = 12;

/// The attempts to stay connected.
#[derive(Debug, Clone, Copy)]
pub struct Reconnection {
    /// How many connections have ended.
    pub count: u32,
    /// The seconds to wait after the next one.
    pub delay_secs: u64,
}

/// What to do once a connection has ended.
#[derive(Debug, Clone, Copy, PartialEq, Eq, Structural)]
pub enum Retry {
    /// Stop for good.
    GiveUp,
    /// Wait that many seconds and connect again.
    Wait { secs: u64 },
}

/// The seconds to wait after a connection that ended: the initial delay where
/// it ended without an error, the planned delay otherwise.
pub open spec fn waiting_time(attempts: Reconnection, config: BotConfig, failed: bool) -> u64 {
    if failed {
        attempts.delay_secs
    } else {
        config.initial_retry_delay_secs
    }
}

/// What to do after one more connection has ended.
pub open spec fn retry_after(attempts: Reconnection, config: BotConfig, failed: bool) -> Retry {
    if config.max_retries > 0 && attempts.count + 1 > config.max_retries {
        Retry::GiveUp
    } else {
        Retry::Wait { secs: waiting_time(attempts, config, failed) }
    }
}

/// Twice a delay, but no more than the largest one.
pub open spec fn next_delay(delay: u64, config: BotConfig) -> u64 {
    if 2 * delay <= config.max_retry_delay_secs {
        (2 * delay) as u64
    } else {
        config.max_retry_delay_secs
    }
}

impl Reconnection {
    /// The state before the first connection.
    pub fn new(config: &BotConfig) -> (attempts: Reconnection)
        ensures
            attempts.count == 0,
            attempts.delay_secs == config.initial_retry_delay_secs,
    {
        Reconnection { count: 0, delay_secs: config.initial_retry_delay_secs }
    }

    /// Takes note that a connection has ended, with an error or without.
    pub fn ended(&mut self, config: &BotConfig, failed: bool) -> (retry: Retry)
        requires
            old(self).count < u32::MAX,
            2 * waiting_time(*old(self), *config, failed) <= u64::MAX,
        ensures
            retry == retry_after(*old(self), *config, failed),
            final(self).count == old(self).count + 1,
            retry is GiveUp ==> final(self).delay_secs == waiting_time(
                *old(self),
                *config,
                failed,
            ),
            retry matches Retry::Wait { secs } ==> final(self).delay_secs == next_delay(
                secs,
                *config,
            ),
    {
        if !failed {
            self.delay_secs = config.initial_retry_delay_secs;
        }
        self.count = self.count + 1;
        if config.max_retries > 0 && self.count > config.max_retries {
            return Retry::GiveUp;
        }
        let secs: u64 = self.delay_secs;
        self.delay_secs = if secs * 2 <= config.max_retry_delay_secs {
            secs * 2
        } else {
            config.max_retry_delay_secs
        };
        Retry::Wait { secs }
    }
}

/// Counts a block and says whether every pool was read, so that opportunities
/// can be looked for.
pub fn begin_block(stats: &mut ArbitrageStats, results: &Vec<Result<(), String>>) -> (all_synced:
    bool)
    requires
        old(stats).total_blocks_processed < u64::MAX,
    ensures
        *final(stats) == (ArbitrageStats {
            total_blocks_processed: (old(stats).total_blocks_processed + 1) as u64,
            ..*old(stats)
        }),
        all_synced == (forall|i: int| 0 <= i < results@.len() ==> (#[trigger] results@[i]) is Ok),
{
    stats.total_blocks_processed = stats.total_blocks_processed + 1;
    all_ok(results)
}

fn all_ok(results: &Vec<Result<(), String>>) -> (answer: bool)
    ensures
        answer == (forall|i: int| 0 <= i < results@.len() ==> (#[trigger] results@[i]) is Ok),
{
    let mut i: usize = 0;
    while i < results.len()
        invariant
            i <= results@.len(),
            forall|j: int| 0 <= j < i ==> (#[trigger] results@[j]) is Ok,
        decreases results@.len() - i,
    {
        if results[i].is_err() {
            assert(!(results@[i as int] is Ok));
            return false;
        }
        i = i + 1;
    }
    true
}

/// What a block brought.
#[derive(Debug)]
pub struct BlockReport {
    /// The result of each reading.
    pub results: Vec<Result<(), String>>,
    /// The opportunity that was found, and what becomes of it.
    pub found: Option<(ArbitrageOpportunity, Evaluation)>,
}

/// The opportunity that a block offers: none where a reading failed.
pub open spec fn offered(
    config: BotConfig,
    pools: Seq<PoolConfig>,
    states: Seq<PoolState>,
    readings: Seq<PoolReading>,
    block_number: u64,
    now: u128,
) -> Option<ArbitrageOpportunity> {
    if state_sync::all_read(pools, states, readings) {
        strategy::opportunity_in(
            pools,
            state_sync::after_readings(pools, states, readings, block_number),
            config,
            now,
        )
    } else {
        None
    }
}

/// Whether a block can be decided: where every pool was read and the first two
/// are comparable, their market can be searched.
pub open spec fn decidable(
    config: BotConfig,
    pools: Seq<PoolConfig>,
    states: Seq<PoolState>,
    readings: Seq<PoolReading>,
    block_number: u64,
    now: u128,
) -> bool {
    let after = state_sync::after_readings(pools, states, readings, block_number);
    state_sync::all_read(pools, states, readings) && strategy::comparable(
        pools,
        after,
        config,
        now,
    ) ==> search::searchable(
        strategy::pair_market(pools, after, config),
        config.max_trade_size_weth,
    )
}

/// The statistics with one more block.
pub open spec fn with_block(stats: ArbitrageStats) -> ArbitrageStats {
    ArbitrageStats {
        total_blocks_processed: (stats.total_blocks_processed + 1) as u64,
        ..stats
    }
}

/// Copies the states but for the code of the pools.
fn without_code(states: &Vec<PoolState>) -> (copies: Vec<PoolState>)
    ensures
        copies@.len() == states@.len(),
        forall|i: int|
            0 <= i < states@.len() ==> #[trigger] copies@[i] == (PoolState {
                bytecode: None,
                ..states@[i]
            }),
{
    let mut copies: Vec<PoolState> = Vec::new();
    let mut i: usize = 0;
    while i < states.len()
        invariant
            i <= states@.len(),
            copies@.len() == i,
            forall|j: int|
                0 <= j < i ==> #[trigger] copies@[j] == (PoolState {
                    bytecode: None,
                    ..states@[j]
                }),
        decreases states@.len() - i,
    {
        let state: &PoolState = &states[i];
        copies.push(
            PoolState {
                sqrt_price_x96: state.sqrt_price_x96,
                sqrt_price_f64: state.sqrt_price_f64,
                tick: state.tick,
                liquidity: state.liquidity,
                liquidity_f64: state.liquidity_f64,
                eth_price_usd: state.eth_price_usd,
                last_block: state.last_block,
                last_update: state.last_update,
                is_initialized: state.is_initialized,
                bytecode: None,
            },
        );
        i = i + 1;
    }
    copies
}

/// Whether `process_block` can decide over a block.
pub fn can_process(
    config: &BotConfig,
    pools: &[PoolConfig],
    states: &Vec<PoolState>,
    readings: &Vec<PoolReading>,
    block_number: u64,
    now: u128,
) -> (answer: bool)
    ensures
        answer == decidable(*config, pools@, states@, readings@, block_number, now),
{
    let mut copies: Vec<PoolState> = without_code(states);
    let results: Vec<Result<(), String>> = sync_all_pools(
        pools,
        &mut copies,
        readings,
        block_number,
    );
    proof {
        let after = state_sync::after_readings(pools@, states@, readings@, block_number);
        lemma_all_read(pools@, states@, readings@, results@);
        assert forall|i: int| 0 <= i < states@.len() implies #[trigger] copies@[i] == (PoolState {
            bytecode: None,
            ..after[i]
        }) by {}
        if states@.len() >= 2 && pools@.len() >= 2 {
            assert(copies@[0] == (PoolState { bytecode: None, ..after[0] }));
            assert(copies@[1] == (PoolState { bytecode: None, ..after[1] }));
        }
    }
    !all_ok(&results) || can_check(pools, &copies, config, now)
}

/// The results are all without a failure exactly where all readings are.
proof fn lemma_all_read(
    pools: Seq<PoolConfig>,
    states: Seq<PoolState>,
    readings: Seq<PoolReading>,
    results: Seq<Result<(), String>>,
)
    requires
        results.len() == state_sync::shortest(pools.len(), states.len(), readings.len()),
        forall|i: int|
            0 <= i < results.len() ==> state_sync::message_of(#[trigger] results[i])
                == state_sync::reading_failure(pools[i], readings[i]),
    ensures
        state_sync::all_read(pools, states, readings) <==> (forall|i: int|
            0 <= i < results.len() ==> (#[trigger] results[i]) is Ok),
{
    if state_sync::all_read(pools, states, readings) {
        assert forall|i: int| 0 <= i < results.len() implies (#[trigger] results[i]) is Ok by {
            assert(state_sync::reading_failure(pools[i], readings[i]) is None);
        }
    } else {
        let i = choose|i: int|
            0 <= i < results.len() && !(state_sync::reading_failure(
                pools[i],
                #[trigger] readings[i],
            ) is None);
        assert(!(results[i] is Ok));
    }
}

/// Takes the readings of a block over at the clock reading `now` and the block
/// time `timestamp`, counts the block, looks for an opportunity where every
/// pool was read, and evaluates it.
#[verifier::rlimit(30)]
pub fn process_block(
    config: &BotConfig,
    pools: &[PoolConfig],
    states: &mut Vec<PoolState>,
    readings: &Vec<PoolReading>,
    engine: &SimulationEngine,
    stats: &mut ArbitrageStats,
    block_number: u64,
    now: u128,
    timestamp: u64,
) -> (report: BlockReport)
    requires
        decidable(*config, pools@, old(states)@, readings@, block_number, now),
        old(stats).total_blocks_processed < u64::MAX,
        strategy::has_room(*old(stats)),
    ensures
        final(states)@ == state_sync::after_readings(
            pools@,
            old(states)@,
            readings@,
            block_number,
        ),
        report.results@.len() == state_sync::shortest(
            pools@.len(),
            old(states)@.len(),
            readings@.len(),
        ),
        forall|i: int|
            0 <= i < report.results@.len() ==> state_sync::message_of(#[trigger] report.results@[i])
                == state_sync::reading_failure(pools@[i], readings@[i]),
        match offered(*config, pools@, old(states)@, readings@, block_number, now) {
            None => {
                &&& report.found is None
                &&& *final(stats) == with_block(*old(stats))
            },
            Some(opportunity) => {
                let checks = strategy::checked(final(states)@, opportunity, now);
                let run = strategy::contract_run(
                    *config,
                    pools@,
                    final(states)@,
                    opportunity,
                    timestamp as nat,
                );
                &&& report.found matches Some(found) && found.0 == opportunity && found.1@
                    == strategy::decision(*config, pools@, opportunity, checks, run)
                &&& *final(stats) == strategy::counted(
                    with_block(*old(stats)),
                    opportunity,
                    strategy::passes(checks, run),
                    config.executes(),
                )
            },
        },
{
    let results: Vec<Result<(), String>> = sync_all_pools(pools, states, readings, block_number);
    let all_synced: bool = begin_block(stats, &results);
    assert(states@ =~= state_sync::after_readings(
        pools@,
        old(states)@,
        readings@,
        block_number,
    ));
    proof {
        lemma_all_read(pools@, old(states)@, readings@, results@);
    }
    if !all_synced {
        return BlockReport { results, found: None };
    }
    let opportunity: ArbitrageOpportunity = match check_arbitrage_opportunity(
        pools,
        states,
        config,
        now,
    ) {
        Some(opportunity) => opportunity,
        None => {
            return BlockReport { results, found: None };
        },
    };
    let evaluation: Evaluation = evaluate_and_execute(
        config,
        pools,
        states,
        &opportunity,
        engine,
        stats,
        now,
        timestamp,
    );
    BlockReport { results, found: Some((opportunity, evaluation)) }
}

/// Whether the statistics are due: after every `stats_interval` blocks.
pub fn stats_due(stats: &ArbitrageStats, config: &BotConfig) -> (due: bool)
    requires
        config.stats_interval != 0,
    ensures
        due == (stats.total_blocks_processed % config.stats_interval == 0
            && stats.total_blocks_processed > 0),
{
    stats.total_blocks_processed % config.stats_interval == 0 && stats.total_blocks_processed > 0
}

/// A spread that is worth a line.
#[derive(Debug, Clone)]
pub struct SpreadLine {
    /// The line.
    pub line: String,
    /// Whether the spread stands out.
    pub notable: bool,
}

/// The spread of two prices in percent of the lower one, 0 where that is not
/// above 0.
pub open spec fn shown_percent(a: Double, b: Double) -> Double {
    if double::less(Double { bits: ZERO }, double::smaller(a, b)) {
        strategy::spread_percent(a, b)
    } else {
        Double { bits: ZERO }
    }
}

/// Whether the spread of the first two pools is worth a line.
pub open spec fn shows_spread(states: Seq<PoolState>) -> bool {
    &&& states.len() >= 2
    &&& states[0].active()
    &&& states[1].active()
    &&& double::less(
        Double { bits: SHOWN_SPREAD },
        shown_percent(states[0].eth_price_usd, states[1].eth_price_usd),
    )
}

/// Whether the spread of the first two pools stands out.
pub open spec fn is_notable(states: Seq<PoolState>) -> bool {
    double::less(
        Double { bits: NOTABLE_SPREAD },
        shown_percent(states[0].eth_price_usd, states[1].eth_price_usd),
    )
}

/// The line on the spread of the first two pools, from the cheap to the dear
/// one.
pub open spec fn spread_text(pools: Seq<PoolConfig>, states: Seq<PoolState>) -> Seq<char> {
    let a = states[0].eth_price_usd;
    let b = states[1].eth_price_usd;
    let buy = strategy::cheap_index(a, b);
    let line = "Spread: "@ + text::fixed(shown_percent(a, b), 4) + "% ("@ + text::fixed(
        strategy::spread(a, b),
        4,
    ) + "$) | "@ + pools[buy].name@ + " → "@ + pools[1 - buy].name@;
    if is_notable(states) {
        line + " AL→SAT"@
    } else {
        line
    }
}

/// Describes the spread of the first two pools, where it is worth a line.
pub fn spread_line(pools: &[PoolConfig], states: &[PoolState]) -> (shown: Option<SpreadLine>)
    requires
        shows_spread(states@) ==> pools@.len() >= 2,
    ensures
        match shown {
            Some(s) => {
                &&& shows_spread(states@)
                &&& s.line@ == spread_text(pools@, states@)
                &&& s.notable == is_notable(states@)
            },
            None => !shows_spread(states@),
        },
{
    if states.len() < 2 {
        return None;
    }
    if !states[0].is_active() || !states[1].is_active() {
        return None;
    }
    let a: Double = states[0].eth_price_usd;
    let b: Double = states[1].eth_price_usd;
    let distance: Double = a.minus(b).abs();
    let low: Double = a.min(b);
    let percent: Double = if low.gt(Double::from_bits(ZERO)) {
        distance.over(low).times(Double::from_bits(HUNDRED))
    } else {
        Double::from_bits(ZERO)
    };
    if !percent.gt(Double::from_bits(SHOWN_SPREAD)) {
        return None;
    }
    let buy: usize = if a.lt(b) {
        0
    } else {
        1
    };
    let notable: bool = percent.gt(Double::from_bits(NOTABLE_SPREAD));
    let mut line: String = "Spread: ".to_owned();
    append_fixed(&mut line, percent, 4);
    line.append("% (");
    append_fixed(&mut line, distance, 4);
    line.append("$) | ");
    line.append(pools[buy].name.as_str());
    line.append(" → ");
    line.append(pools[1 - buy].name.as_str());
    if notable {
        line.append(" AL→SAT");
    }
    Some(SpreadLine { line, notable })
}

/// The start of a pool's name that is shown: all of it, or its first 12 bytes.
pub open spec fn short_name(name: Seq<char>) -> Seq<char> {
    if encode_utf8(name).len() > SHOWN_NAME {
        decode_utf8(encode_utf8(name).subrange(0, SHOWN_NAME as int))
    } else {
        name
    }
}

/// Whether a name can be cut there without splitting a character.
pub open spec fn can_shorten(name: Seq<char>) -> bool {
    encode_utf8(name).len() > SHOWN_NAME ==> is_char_boundary(
        encode_utf8(name),
        SHOWN_NAME as int,
    )
}

/// Whether a name can be cut at the length that is shown.
pub fn fits(name: &str) -> (answer: bool)
    ensures
        answer == can_shorten(name@),
{
    name.as_bytes().len() <= SHOWN_NAME || name.is_char_boundary(SHOWN_NAME)
}

/// The prices of the active pools among the first `n`.
pub open spec fn price_text(pools: Seq<PoolConfig>, states: Seq<PoolState>, n: nat) -> Seq<char>
    decreases n,
{
    if n == 0 {
        seq![]
    } else {
        let before = price_text(pools, states, (n - 1) as nat);
        let separator: Seq<char> = if n > 1 {
            " | "@
        } else {
            seq![]
        };
        if states[n - 1].active() {
            before + separator + short_name(pools[n - 1].name@) + "="@ + text::fixed(
                states[n - 1].eth_price_usd,
                2,
            ) + "$"@
        } else {
            before
        }
    }
}

/// Describes the prices of the active pools.
pub fn price_line(pools: &[PoolConfig], states: &[PoolState]) -> (line: String)
    requires
        forall|i: int|
            0 <= i < pools@.len() && i < states@.len() && (#[trigger] states@[i]).active()
                ==> can_shorten(pools@[i].name@),
    ensures
        line@ == price_text(pools@, states@, simulator::shorter(pools@.len(), states@.len())),
{
    let mut line: String = String::new();
    let mut i: usize = 0;
    while i < pools.len() && i < states.len()
        invariant
            i <= pools@.len(),
            i <= states@.len(),
            forall|j: int|
                0 <= j < pools@.len() && j < states@.len() && (#[trigger] states@[j]).active()
                    ==> can_shorten(pools@[j].name@),
            line@ == price_text(pools@, states@, i as nat),
        decreases pools@.len() - i,
    {
        let ghost before = line@;
        if states[i].is_active() {
            if i > 0 {
                line.append(" | ");
            }
            let name: &str = pools[i].name.as_str();
            if name.as_bytes().len() > SHOWN_NAME {
                let (start, _) = name.split_at(SHOWN_NAME);
                proof {
                    encode_utf8_decode_utf8(start@);
                }
                line.append(start);
            } else {
                line.append(name);
            }
            line.append("=");
            append_fixed(&mut line, states[i].eth_price_usd, 2);
            line.append("$");
            assert(line@ == price_text(pools@, states@, (i + 1) as nat));
        }
        i = i + 1;
    }
    line
}

/// A block with a failed reading is counted and brings no trade, whatever the
/// pools that were read offer.
pub proof fn law_failed_reading_brings_no_trade(
    config: BotConfig,
    pools: Seq<PoolConfig>,
    states: Seq<PoolState>,
    readings: Seq<PoolReading>,
    block_number: u64,
    now: u128,
    i: int,
)
    requires
        0 <= i < state_sync::shortest(pools.len(), states.len(), readings.len()),
        state_sync::reading_failure(pools[i], readings[i]) is Some,
    ensures
        offered(config, pools, states, readings, block_number, now) is None,
{
}

/// No wait is longer than the largest delay, provided that the initial and
/// the planned one are not.
pub proof fn law_waits_are_bounded(attempts: Reconnection, config: BotConfig, failed: bool)
    requires
        config.initial_retry_delay_secs <= config.max_retry_delay_secs,
        attempts.delay_secs <= config.max_retry_delay_secs,
    ensures
        retry_after(attempts, config, failed) matches Retry::Wait { secs } ==> {
            &&& secs <= config.max_retry_delay_secs
            &&& next_delay(secs, config) <= config.max_retry_delay_secs
            &&& next_delay(secs, config) >= secs
        },
{
}

/// Without a limit the bot never gives up; with one it gives up exactly when
/// it has reconnected as often and that connection has ended too.
pub proof fn law_retries_end_at_the_limit(attempts: Reconnection, config: BotConfig, failed: bool)
    ensures
        config.max_retries == 0 ==> !(retry_after(attempts, config, failed) is GiveUp),
        config.max_retries > 0 ==> (retry_after(attempts, config, failed) is GiveUp
            <==> attempts.count + 1 > config.max_retries),
{
}

/// The delay after `n` connections that ended with an error, one after the
/// other.
pub open spec fn delay_after(config: BotConfig, n: nat) -> u64
    decreases n,
{
    if n == 0 {
        config.initial_retry_delay_secs
    } else {
        next_delay(delay_after(config, (n - 1) as nat), config)
    }
}

/// The delays double from error to error, up to the largest one.
pub proof fn law_delays_double_up_to_the_largest(config: BotConfig, n: nat)
    requires
        config.initial_retry_delay_secs <= config.max_retry_delay_secs,
    ensures
        ({
            let grown = config.initial_retry_delay_secs * pow2(n);
            &&& grown <= config.max_retry_delay_secs ==> delay_after(config, n) == grown
            &&& grown > config.max_retry_delay_secs ==> delay_after(config, n)
                == config.max_retry_delay_secs
        }),
    decreases n,
{
    let first = config.initial_retry_delay_secs;
    lemma2_to64();
    if n == 0 {
        lemma_mul_basics(first as int);
    } else {
        let before = (n - 1) as nat;
        law_delays_double_up_to_the_largest(config, before);
        lemma_pow2_unfold(n);
        let p = pow2(before);
        assert(first * (2 * p) == 2 * (first * p)) by (nonlinear_arith);
    }
}

/// After an error the planned delay is waited for; after an end without one the
/// initial delay, and what is planned starts over.
pub proof fn law_wait_is_the_planned_one(
    attempts: Reconnection,
    other: Reconnection,
    config: BotConfig,
)
    requires
        config.max_retries == 0,
    ensures
        retry_after(attempts, config, true) == (Retry::Wait { secs: attempts.delay_secs }),
        retry_after(attempts, config, false) == (Retry::Wait {
            secs: config.initial_retry_delay_secs,
        }),
        retry_after(attempts, config, false) == retry_after(other, config, false),
{
}

/// A block adds one to the blocks, and changes nothing else.
pub proof fn law_block_is_counted(stats: ArbitrageStats)
    requires
        stats.total_blocks_processed < u64::MAX,
    ensures
        ({
            let after = with_block(stats);
            &&& after.total_blocks_processed == stats.total_blocks_processed + 1
            &&& after.total_opportunities == stats.total_opportunities
            &&& after.profitable_opportunities == stats.profitable_opportunities
            &&& after.executed_trades == stats.executed_trades
            &&& after.failed_simulations == stats.failed_simulations
            &&& after.max_spread_pct == stats.max_spread_pct
            &&& after.max_profit_usd == stats.max_profit_usd
            &&& after.total_potential_profit == stats.total_potential_profit
            &&& after.session_start == stats.session_start
        }),
{
}

/// A block in which all pools were read offers what the pools offer as they are
/// after it.
pub proof fn law_block_offers_what_was_read(
    config: BotConfig,
    pools: Seq<PoolConfig>,
    states: Seq<PoolState>,
    readings: Seq<PoolReading>,
    after: Seq<PoolState>,
    block_number: u64,
    now: u128,
)
    requires
        pools.len() == readings.len(),
        states.len() == readings.len(),
        after.len() == readings.len(),
        forall|i: int|
            0 <= i < readings.len() ==> (#[trigger] readings[i]).slot0 is Ok
                && readings[i].liquidity is Ok,
        forall|i: int|
            0 <= i < readings.len() ==> #[trigger] after[i] == state_sync::after_reading(
                pools[i],
                states[i],
                readings[i],
                block_number,
            ),
    ensures
        offered(config, pools, states, readings, block_number, now) == strategy::opportunity_in(
            pools,
            after,
            config,
            now,
        ),
{
    assert(state_sync::all_read(pools, states, readings)) by {
        assert forall|i: int| 0 <= i < readings.len() implies state_sync::reading_failure(
            pools[i],
            #[trigger] readings[i],
        ) is None by {}
    }
    assert(state_sync::after_readings(pools, states, readings, block_number) =~= after);
}

/// The spreads that are shown, and those that stand out, are above 0.001 and
/// 0.05 percent.
pub proof fn law_shown_spreads_are_accurate()
    ensures
        steepness::is_nearest_part(Double { bits: SHOWN_SPREAD }, 1000real),
        steepness::is_nearest_part(Double { bits: NOTABLE_SPREAD }, 20real),
{
    lemma2_to64();
    lemma2_to64_rest();
    steepness::lemma_nearest_part(
        Double { bits: SHOWN_SPREAD },
        4_611_686_018_427_388,
        1012,
        62,
        1000,
    );
    steepness::lemma_nearest_part(
        Double { bits: NOTABLE_SPREAD },
        7_205_759_403_792_794,
        1017,
        57,
        20,
    );
}

/// A spread is shown exactly where two pools are active and their spread in
/// percent is large enough; the line names the cheap pool before the dear one,
/// and says so where the spread stands out.
pub proof fn law_spread_is_shown_from_cheap_to_dear(
    pools: Seq<PoolConfig>,
    states: Seq<PoolState>,
    buy: int,
    sell: int,
)
    requires
        states.len() >= 2,
        (buy == 0 && sell == 1) || (buy == 1 && sell == 0),
        states[0].active(),
        states[1].active(),
        double::less(states[buy].eth_price_usd, states[sell].eth_price_usd),
    ensures
        ({
            let percent = strategy::spread_percent(
                states[0].eth_price_usd,
                states[1].eth_price_usd,
            );
            let line = spread_text(pools, states);
            let names = pools[buy].name@ + " → "@ + pools[sell].name@;
            let notable = double::less(Double { bits: NOTABLE_SPREAD }, percent);
            &&& shows_spread(states) <==> double::less(Double { bits: SHOWN_SPREAD }, percent)
            &&& is_notable(states) <==> notable
            &&& ("Spread: "@ + text::fixed(percent, 4) + "% ("@ + text::fixed(
                double::absolute(
                    double::difference(states[0].eth_price_usd, states[1].eth_price_usd),
                ),
                4,
            ) + "$) | "@).is_prefix_of(line)
            &&& !notable ==> names.is_suffix_of(line)
            &&& notable ==> (names + " AL→SAT"@).is_suffix_of(line)
        }),
{
    let (a, b) = (states[0].eth_price_usd, states[1].eth_price_usd);
    let percent = strategy::spread_percent(a, b);
    let line = spread_text(pools, states);
    let start = "Spread: "@ + text::fixed(percent, 4) + "% ("@ + text::fixed(
        double::absolute(double::difference(a, b)),
        4,
    ) + "$) | "@;
    let names = pools[buy].name@ + " → "@ + pools[sell].name@;
    assert(line.subrange(0, start.len() as int) =~= start);
    let end = if is_notable(states) {
        names + " AL→SAT"@
    } else {
        names
    };
    assert(line.subrange(line.len() - end.len(), line.len() as int) =~= end);
}

/// Where a pool is not active nothing is shown.
pub proof fn law_inactive_pools_show_no_spread(states: Seq<PoolState>)
    ensures
        states.len() < 2 || !states[0].active() || !states[1].active() ==> !shows_spread(states),
{
}

/// The prices are those of the active pools: one more pool that is not active
/// adds nothing, one that is adds its name and its price, behind a separator
/// unless it is the first.
pub proof fn law_prices_are_those_of_active_pools(
    pools: Seq<PoolConfig>,
    states: Seq<PoolState>,
    n: nat,
)
    ensures
        price_text(pools, states, 0) == Seq::<char>::empty(),
        !states[n as int].active() ==> price_text(pools, states, n + 1) == price_text(
            pools,
            states,
            n,
        ),
        states[n as int].active() && n > 0 ==> price_text(pools, states, n + 1) == price_text(
            pools,
            states,
            n,
        ) + " | "@ + short_name(pools[n as int].name@) + "="@ + text::fixed(
            states[n as int].eth_price_usd,
            2,
        ) + "$"@,
        states[0].active() ==> price_text(pools, states, 1) == short_name(pools[0].name@) + "="@
            + text::fixed(states[0].eth_price_usd, 2) + "$"@,
{
    let none: Seq<char> = seq![];
    let name = short_name(pools[0].name@);
    assert(price_text(pools, states, 0) == none);
    assert(none + none + name =~= name);
}

/// The bytes of a text are those of its parts.
proof fn lemma_joined_bytes(head: Seq<char>, tail: Seq<char>)
    ensures
        encode_utf8(head + tail) == encode_utf8(head) + encode_utf8(tail),
    decreases head.len(),
{
    if head.len() == 0 {
        assert(head + tail =~= tail);
        assert(encode_utf8(head) + encode_utf8(tail) =~= encode_utf8(tail));
    } else {
        let rest = head.drop_first();
        assert((head + tail).drop_first() =~= rest + tail);
        assert((head + tail)[0] == head[0]);
        lemma_joined_bytes(rest, tail);
        assert(encode_utf8(head + tail) =~= encode_utf8(head) + encode_utf8(tail));
    }
}

/// Of a long name the characters are shown that make up its first 12 bytes; a
/// name of up to 12 bytes is shown whole.
pub proof fn law_shown_name_is_its_start(head: Seq<char>, tail: Seq<char>)
    ensures
        encode_utf8(head).len() <= 12 ==> short_name(head) == head,
        encode_utf8(head).len() == 12 && encode_utf8(tail).len() > 0 ==> short_name(head + tail)
            == head,
{
    lemma_joined_bytes(head, tail);
    if encode_utf8(head).len() == 12 && encode_utf8(tail).len() > 0 {
        let all = encode_utf8(head + tail);
        assert(all.subrange(0, 12) =~= encode_utf8(head));
        encode_utf8_decode_utf8(head);
    }
}

/// Where the largest trade is no smaller than the smallest one, every block can
/// be decided.
pub proof fn law_blocks_can_be_decided(
    config: BotConfig,
    pools: Seq<PoolConfig>,
    states: Seq<PoolState>,
    readings: Seq<PoolReading>,
    block_number: u64,
    now: u128,
)
    requires
        double::less_or_equal(Double { bits: search::MIN_AMOUNT }, config.max_trade_size_weth),
    ensures
        decidable(config, pools, states, readings, block_number, now),
{
}

} // verus!
