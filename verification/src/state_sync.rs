//! What a pool reports becomes its state.
use crate::double;
use crate::math;
use crate::math::sqrt_price_x96_to_eth_price;
use crate::types::{PoolConfig, PoolState};
use crate::wide::U256;
use vstd::prelude::*;
use vstd::string::*;

verus! {

/// The part of a pool's `slot0` that is used.
#[derive(Debug, Clone, Copy)]
pub struct Slot0 {
    pub sqrt_price_x96: U256,
    pub tick: i32,
}

/// The answers of a pool to the two calls that read it, each of which may
/// fail with a message, and the clock reading once they were in.
#[derive(Debug)]
pub struct PoolReading {
    pub slot0: Result<Slot0, String>,
    pub liquidity: Result<u128, String>,
    pub now: u128,
}

/// `[name]`, what went wrong, and the message that came with it.
pub open spec fn failure_text(name: Seq<char>, what: Seq<char>, message: Seq<char>) -> Seq<char> {
    "["@ + name + "] "@ + what + message
}

fn failure(name: &str, what: &str, message: &str) -> (text: String)
    ensures
        text@ == failure_text(name@, what@, message@),
{
    let mut text: String = "[".to_owned();
    text.append(name);
    text.append("] ");
    text.append(what);
    text.append(message);
    text
}

/// Why a reading gives no state; `slot0` is looked at first.
pub open spec fn reading_failure(config: PoolConfig, reading: PoolReading) -> Option<Seq<char>> {
    match reading.slot0 {
        Err(message) => Some(
            failure_text(config.name@, "slot0 okuma hatası: "@, message@),
        ),
        Ok(_) => match reading.liquidity {
            Err(message) => Some(
                failure_text(config.name@, "liquidity okuma hatası: "@, message@),
            ),
            Ok(_) => None,
        },
    }
}

/// The state of a pool after a reading without failures.
pub open spec fn synced(
    config: PoolConfig,
    before: PoolState,
    reading: PoolReading,
    block_number: u64,
) -> PoolState {
    let slot0 = reading.slot0->Ok_0;
    let liquidity = reading.liquidity->Ok_0;
    let root = double::of_nat(slot0.sqrt_price_x96@);
    PoolState {
        sqrt_price_x96: slot0.sqrt_price_x96,
        sqrt_price_f64: root,
        tick: slot0.tick,
        liquidity,
        liquidity_f64: double::of_nat(liquidity as nat),
        eth_price_usd: math::eth_price(root, config.token0_decimals, config.token1_decimals),
        last_block: block_number,
        last_update: reading.now,
        is_initialized: true,
        bytecode: before.bytecode,
    }
}

/// The state of a pool after any reading: a failed one changes nothing.
pub open spec fn after_reading(
    config: PoolConfig,
    before: PoolState,
    reading: PoolReading,
    block_number: u64,
) -> PoolState {
    if reading_failure(config, reading) is None {
        synced(config, before, reading, block_number)
    } else {
        before
    }
}

/// The message of a failed result.
pub open spec fn message_of(result: Result<(), String>) -> Option<Seq<char>> {
    match result {
        Ok(_) => None,
        Err(message) => Some(message@),
    }
}

/// Takes a reading over into the state of a pool.
pub fn sync_pool_state(
    pool_config: &PoolConfig,
    pool_state: &mut PoolState,
    reading: &PoolReading,
    block_number: u64,
) -> (result: Result<(), String>)
    ensures
        *final(pool_state) == after_reading(
            *pool_config,
            *old(pool_state),
            *reading,
            block_number,
        ),
        message_of(result) == reading_failure(*pool_config, *reading),
{
    let slot0: Slot0 = match &reading.slot0 {
        Ok(slot0) => *slot0,
        Err(message) => {
            return Err(
                failure(pool_config.name.as_str(), "slot0 okuma hatası: ", message.as_str()),
            );
        },
    };
    let liquidity: u128 = match &reading.liquidity {
        Ok(liquidity) => *liquidity,
        Err(message) => {
            return Err(
                failure(pool_config.name.as_str(), "liquidity okuma hatası: ", message.as_str()),
            );
        },
    };
    let root: double::Double = slot0.sqrt_price_x96.to_double();
    pool_state.sqrt_price_x96 = slot0.sqrt_price_x96;
    pool_state.sqrt_price_f64 = root;
    pool_state.tick = slot0.tick;
    pool_state.liquidity = liquidity;
    pool_state.liquidity_f64 = double::Double::from_u128(liquidity);
    pool_state.eth_price_usd = sqrt_price_x96_to_eth_price(
        root,
        pool_config.token0_decimals,
        pool_config.token1_decimals,
    );
    pool_state.last_block = block_number;
    pool_state.last_update = reading.now;
    pool_state.is_initialized = true;
    Ok(())
}

/// Keeps the code of a pool, or says why it could not be read.
pub fn cache_pool_bytecode(
    pool_config: &PoolConfig,
    pool_state: &mut PoolState,
    code: Result<Vec<u8>, String>,
) -> (result: Result<(), String>)
    ensures
        match code {
            Ok(bytes) => *final(pool_state) == (PoolState {
                bytecode: Some(bytes),
                ..*old(pool_state)
            }) && result is Ok,
            Err(message) => *final(pool_state) == *old(pool_state) && message_of(result) == Some(
                failure_text(pool_config.name@, "Bytecode okuma hatası: "@, message@),
            ),
        },
{
    match code {
        Ok(bytes) => {
            pool_state.bytecode = Some(bytes);
            Ok(())
        },
        Err(message) => Err(
            failure(pool_config.name.as_str(), "Bytecode okuma hatası: ", message.as_str()),
        ),
    }
}

/// The least of three lengths.
pub open spec fn shortest(a: nat, b: nat, c: nat) -> nat {
    let ab = if a < b {
        a
    } else {
        b
    };
    if ab < c {
        ab
    } else {
        c
    }
}

/// The states of all pools after their readings.
pub open spec fn after_readings(
    pools: Seq<PoolConfig>,
    states: Seq<PoolState>,
    readings: Seq<PoolReading>,
    block_number: u64,
) -> Seq<PoolState> {
    Seq::new(
        states.len(),
        |i: int|
            if i < shortest(pools.len(), states.len(), readings.len()) {
                after_reading(pools[i], states[i], readings[i], block_number)
            } else {
                states[i]
            },
    )
}

/// Whether no reading of a pool failed.
pub open spec fn all_read(
    pools: Seq<PoolConfig>,
    states: Seq<PoolState>,
    readings: Seq<PoolReading>,
) -> bool {
    forall|i: int|
        0 <= i < shortest(pools.len(), states.len(), readings.len()) ==> reading_failure(
            pools[i],
            #[trigger] readings[i],
        ) is None
}

/// Takes the readings of all pools over, one result for each pool that has
/// both a state and a reading. A failed reading leaves its own pool as it was
/// and does not keep the others from being updated.
pub fn sync_all_pools(
    pools: &[PoolConfig],
    states: &mut Vec<PoolState>,
    readings: &Vec<PoolReading>,
    block_number: u64,
) -> (results: Vec<Result<(), String>>)
    ensures
        final(states)@.len() == old(states)@.len(),
        results@.len() == shortest(pools@.len(), old(states)@.len(), readings@.len()),
        forall|i: int|
            0 <= i < results@.len() ==> #[trigger] final(states)@[i] == after_reading(
                pools@[i],
                old(states)@[i],
                readings@[i],
                block_number,
            ),
        forall|i: int|
            0 <= i < results@.len() ==> message_of(#[trigger] results@[i]) == reading_failure(
                pools@[i],
                readings@[i],
            ),
        forall|i: int|
            results@.len() <= i < old(states)@.len() ==> #[trigger] final(states)@[i] == old(
                states,
            )@[i],
{
    let mut results: Vec<Result<(), String>> = Vec::new();
    let mut i: usize = 0;
    while i < pools.len() && i < states.len() && i < readings.len()
        invariant
            i <= shortest(pools@.len(), old(states)@.len(), readings@.len()),
            states@.len() == old(states)@.len(),
            results@.len() == i,
            forall|j: int|
                0 <= j < i ==> #[trigger] states@[j] == after_reading(
                    pools@[j],
                    old(states)@[j],
                    readings@[j],
                    block_number,
                ),
            forall|j: int|
                0 <= j < i ==> message_of(#[trigger] results@[j]) == reading_failure(
                    pools@[j],
                    readings@[j],
                ),
            forall|j: int| i <= j < states@.len() ==> #[trigger] states@[j] == old(states)@[j],
        decreases pools@.len() - i,
    {
        let result: Result<(), String> = sync_pool_state(
            &pools[i],
            &mut states[i],
            &readings[i],
            block_number,
        );
        results.push(result);
        i = i + 1;
    }
    results
}

/// Keeps the codes of all pools, one result for each pool that has both a
/// state and an answer.
pub fn cache_all_bytecodes(
    pools: &[PoolConfig],
    states: &mut Vec<PoolState>,
    codes: &Vec<Result<Vec<u8>, String>>,
) -> (results: Vec<Result<(), String>>)
    ensures
        final(states)@.len() == old(states)@.len(),
        results@.len() == shortest(pools@.len(), old(states)@.len(), codes@.len()),
        forall|i: int|
            0 <= i < results@.len() ==> match #[trigger] codes@[i] {
                Ok(bytes) => {
                    &&& results@[i] is Ok
                    &&& final(states)@[i].bytecode matches Some(kept) && kept@ == bytes@
                    &&& final(states)@[i] == (PoolState {
                        bytecode: final(states)@[i].bytecode,
                        ..old(states)@[i]
                    })
                },
                Err(message) => {
                    &&& message_of(results@[i]) == Some(
                        failure_text(pools@[i].name@, "Bytecode okuma hatası: "@, message@),
                    )
                    &&& final(states)@[i] == old(states)@[i]
                },
            },
        forall|i: int|
            results@.len() <= i < old(states)@.len() ==> #[trigger] final(states)@[i] == old(
                states,
            )@[i],
{
    let mut results: Vec<Result<(), String>> = Vec::new();
    let mut i: usize = 0;
    while i < pools.len() && i < states.len() && i < codes.len()
        invariant
            i <= shortest(pools@.len(), old(states)@.len(), codes@.len()),
            states@.len() == old(states)@.len(),
            results@.len() == i,
            forall|j: int|
                0 <= j < i ==> match #[trigger] codes@[j] {
                    Ok(bytes) => {
                        &&& results@[j] is Ok
                        &&& states@[j].bytecode matches Some(kept) && kept@ == bytes@
                        &&& states@[j] == (PoolState {
                            bytecode: states@[j].bytecode,
                            ..old(states)@[j]
                        })
                    },
                    Err(message) => {
                        &&& message_of(results@[j]) == Some(
                            failure_text(pools@[j].name@, "Bytecode okuma hatası: "@, message@),
                        )
                        &&& states@[j] == old(states)@[j]
                    },
                },
            forall|j: int| i <= j < states@.len() ==> #[trigger] states@[j] == old(states)@[j],
        decreases pools@.len() - i,
    {
        let code: Result<Vec<u8>, String> = match &codes[i] {
            Ok(bytes) => Ok(bytes.clone()),
            Err(message) => Err(message.clone()),
        };
        let result: Result<(), String> = cache_pool_bytecode(&pools[i], &mut states[i], code);
        results.push(result);
        i = i + 1;
    }
    results
}

/// A pool that was read is active exactly where it has a price and liquidity,
/// has no age at that moment, and keeps its code.
pub proof fn law_read_pool_is_current(
    config: PoolConfig,
    before: PoolState,
    reading: PoolReading,
    block_number: u64,
)
    requires
        reading_failure(config, reading) is None,
    ensures
        ({
            let after = after_reading(config, before, reading, block_number);
            &&& after.active() <==> double::less(
                double::Double { bits: 0 },
                after.eth_price_usd,
            ) && after.liquidity > 0
            &&& after.age_ms(reading.now) == 0
            &&& after.last_block == block_number
            &&& after.bytecode == before.bytecode
        }),
{
}

/// What a pool is after a reading does not depend on what it was before, but
/// for its code: two pools with one configuration and one reading end up alike.
pub proof fn law_reading_replaces_the_state(
    config: PoolConfig,
    before: PoolState,
    other: PoolState,
    reading: PoolReading,
    block_number: u64,
)
    requires
        reading.slot0 is Ok,
        reading.liquidity is Ok,
    ensures
        after_reading(config, before, reading, block_number) == (PoolState {
            bytecode: before.bytecode,
            ..after_reading(config, other, reading, block_number)
        }),
{
}

/// A pool holds what was read of it: the numbers that it reported, the block
/// and the time, whatever it held before.
pub proof fn law_reading_is_taken_over(
    config: PoolConfig,
    before: PoolState,
    slot0: Slot0,
    liquidity: u128,
    now: u128,
    block_number: u64,
)
    ensures
        ({
            let reading = PoolReading { slot0: Ok(slot0), liquidity: Ok(liquidity), now };
            let after = after_reading(config, before, reading, block_number);
            &&& reading_failure(config, reading) is None
            &&& after.sqrt_price_x96 == slot0.sqrt_price_x96
            &&& after.tick == slot0.tick
            &&& after.liquidity == liquidity
            &&& after.last_block == block_number
            &&& after.last_update == now
            &&& after.is_initialized
            &&& after.bytecode == before.bytecode
        }),
{
}

/// A pool whose reading failed stays as it was.
pub proof fn law_failed_reading_changes_nothing(
    config: PoolConfig,
    before: PoolState,
    reading: PoolReading,
    block_number: u64,
)
    requires
        reading.slot0 is Err || reading.liquidity is Err,
    ensures
        after_reading(config, before, reading, block_number) == before,
        reading_failure(config, reading) is Some,
{
}

/// A failed reading names the pool and gives the message of the call that
/// failed first.
pub proof fn law_failure_names_the_pool_and_the_reason(config: PoolConfig, reading: PoolReading)
    ensures
        reading_failure(config, reading) is Some <==> reading.slot0 is Err
            || reading.liquidity is Err,
        reading.slot0 matches Err(message) ==> reading_failure(config, reading) == Some(
            "["@ + config.name@ + "] slot0 okuma hatası: "@ + message@,
        ),
        reading.slot0 is Ok && reading.liquidity is Err ==> reading_failure(config, reading)
            == Some(
            "["@ + config.name@ + "] liquidity okuma hatası: "@ + reading.liquidity->Err_0@,
        ),
{
    reveal_strlit("[");
    reveal_strlit("] ");
    reveal_strlit("] slot0 okuma hatası: ");
    reveal_strlit("] liquidity okuma hatası: ");
    reveal_strlit("slot0 okuma hatası: ");
    reveal_strlit("liquidity okuma hatası: ");
    if reading.slot0 is Err {
        assert(reading_failure(config, reading).unwrap() =~= "["@ + config.name@
            + "] slot0 okuma hatası: "@ + reading.slot0->Err_0@);
    } else if reading.liquidity is Err {
        assert(reading_failure(config, reading).unwrap() =~= "["@ + config.name@
            + "] liquidity okuma hatası: "@ + reading.liquidity->Err_0@);
    }
}

/// Each pool is changed by its own reading alone: where it has both a
/// configuration and a reading that succeeded. The others stay as they were.
pub proof fn law_each_pool_follows_its_own_reading(
    pools: Seq<PoolConfig>,
    states: Seq<PoolState>,
    readings: Seq<PoolReading>,
    block_number: u64,
    i: int,
)
    requires
        0 <= i < states.len(),
    ensures
        ({
            let after = after_readings(pools, states, readings, block_number);
            let read = i < pools.len() && i < readings.len() && readings[i].slot0 is Ok
                && readings[i].liquidity is Ok;
            &&& after.len() == states.len()
            &&& read ==> after[i] == synced(pools[i], states[i], readings[i], block_number)
            &&& !read ==> after[i] == states[i]
        }),
{
}

/// The least of three lengths is one of them, and exceeds none.
pub proof fn law_shortest_exceeds_none(a: nat, b: nat, c: nat)
    ensures
        shortest(a, b, c) <= a,
        shortest(a, b, c) <= b,
        shortest(a, b, c) <= c,
        shortest(a, b, c) == a || shortest(a, b, c) == b || shortest(a, b, c) == c,
{
}

/// Where one reading fails, not all pools count as read.
pub proof fn law_all_read_needs_every_reading(
    pools: Seq<PoolConfig>,
    states: Seq<PoolState>,
    readings: Seq<PoolReading>,
    i: int,
)
    requires
        0 <= i < pools.len(),
        i < states.len(),
        i < readings.len(),
        readings[i].slot0 is Err || readings[i].liquidity is Err,
    ensures
        !all_read(pools, states, readings),
{
    assert(reading_failure(pools[i], readings[i]) is Some);
}

} // verus!
