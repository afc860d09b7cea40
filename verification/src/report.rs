//! The texts in which the bot reports its settings, pools and opportunities.
use crate::accuracy;
use crate::double;
use crate::double::Double;
use crate::fidelity;
use crate::strategy;
use crate::strategy::HUNDRED;
use crate::text;
use crate::text::{append_decimal, append_fixed};
use crate::types::{ArbitrageOpportunity, BotConfig, PoolConfig, PoolState, SimulationResult};
use vstd::prelude::*;
use vstd::string::*;

verus! {

/// A number with `places` digits behind the decimal point, between two texts.
pub open spec fn framed(before: Seq<char>, x: Double, places: nat, after: Seq<char>) -> Seq<char> {
    before + text::fixed(x, places) + after
}

fn frame(before: &str, x: Double, places: u32, after: &str) -> (line: String)
    requires
        places <= 9,
    ensures
        line@ == framed(before@, x, places as nat, after@),
{
    let mut line: String = before.to_owned();
    append_fixed(&mut line, x, places);
    line.append(after);
    line
}

/// A number in percent that is given in basis points.
pub open spec fn percent_of_bps(bps: Double) -> Double {
    double::quotient(bps, Double { bits: HUNDRED })
}

/// An amount of USD with `places` digits behind the decimal point.
pub fn dollars(amount: Double, places: u32) -> (line: String)
    requires
        places <= 9,
    ensures
        line@ == framed(""@, amount, places as nat, "$"@),
{
    frame("", amount, places, "$")
}

/// A percentage with four digits behind the decimal point.
pub fn percent(value: Double) -> (line: String)
    ensures
        line@ == framed(""@, value, 4, "%"@),
{
    frame("", value, 4, "%")
}

/// The flash loan and its fee.
pub fn loan_fee(config: &BotConfig) -> (line: String)
    ensures
        line@ == framed(
            "Aave V3 (%"@,
            percent_of_bps(config.flash_loan_fee_bps),
            2,
            " Komisyon)"@,
        ),
{
    frame(
        "Aave V3 (%",
        config.flash_loan_fee_bps.over(Double::from_bits(HUNDRED)),
        2,
        " Komisyon)",
    )
}

/// The largest trade.
pub fn trade_limit(config: &BotConfig) -> (line: String)
    ensures
        line@ == framed(""@, config.max_trade_size_weth, 1, " WETH"@),
{
    frame("", config.max_trade_size_weth, 1, " WETH")
}

/// A pool with its exchange and fee.
pub fn pool_line(pool: &PoolConfig) -> (line: String)
    ensures
        line@ == pool.name@ + " ("@ + pool.dex.label() + framed(
            " — Ücret: %"@,
            percent_of_bps(double::of_nat(pool.fee_bps as nat)),
            2,
            ")"@,
        ),
{
    let fee: Double = Double::from_u128(pool.fee_bps as u128).over(Double::from_bits(HUNDRED));
    let mut line: String = pool.name.clone();
    line.append(" (");
    line.append(pool.dex.name().as_str());
    line.append(frame(" — Ücret: %", fee, 2, ")").as_str());
    line
}

/// Where an opportunity buys.
pub fn buy_side(opportunity: &ArbitrageOpportunity, pools: &[PoolConfig]) -> (line: String)
    requires
        opportunity.buy_pool_idx < pools@.len(),
    ensures
        line@ == pools@[opportunity.buy_pool_idx as int].name@ + framed(
            "'dan AL ("@,
            opportunity.buy_price,
            2,
            "$)"@,
        ),
{
    let mut line: String = pools[opportunity.buy_pool_idx].name.clone();
    line.append(frame("'dan AL (", opportunity.buy_price, 2, "$)").as_str());
    line
}

/// Where an opportunity sells.
pub fn sell_side(opportunity: &ArbitrageOpportunity, pools: &[PoolConfig]) -> (line: String)
    requires
        opportunity.sell_pool_idx < pools@.len(),
    ensures
        line@ == pools@[opportunity.sell_pool_idx as int].name@ + framed(
            "'e SAT ("@,
            opportunity.sell_price,
            2,
            "$)"@,
        ),
{
    let mut line: String = pools[opportunity.sell_pool_idx].name.clone();
    line.append(frame("'e SAT (", opportunity.sell_price, 2, "$)").as_str());
    line
}

/// The trade size of an opportunity.
pub fn trade_size(opportunity: &ArbitrageOpportunity) -> (line: String)
    ensures
        line@ == text::fixed(opportunity.optimal_amount_weth, 6),
{
    let mut line: String = String::new();
    append_fixed(&mut line, opportunity.optimal_amount_weth, 6);
    assert(line@ == text::fixed(opportunity.optimal_amount_weth, 6));
    line
}

/// Why a simulation failed.
pub fn failure_reason(simulation: &SimulationResult) -> (reason: String)
    ensures
        reason@ == (match simulation.error {
            Some(error) => error@,
            None => "Bilinmiyor"@,
        }),
{
    match &simulation.error {
        Some(error) => error.clone(),
        None => "Bilinmiyor".to_owned(),
    }
}

/// A whole number with its sign.
pub open spec fn signed_decimal(n: int) -> Seq<char> {
    if n < 0 {
        "-"@ + text::decimal((-n) as nat)
    } else {
        text::decimal(n as nat)
    }
}

/// The price and tick of a pool.
pub fn price_and_tick(state: &PoolState) -> (line: String)
    ensures
        line@ == framed(""@, state.eth_price_usd, 2, "$ (tick: "@) + signed_decimal(
            state.tick as int,
        ) + ")"@,
{
    let mut line: String = frame("", state.eth_price_usd, 2, "$ (tick: ");
    let ghost start = line@;
    if state.tick < 0 {
        line.append("-");
        append_decimal(&mut line, (-(state.tick as i64)) as u128);
        assert(line@ == start + signed_decimal(state.tick as int));
    } else {
        append_decimal(&mut line, state.tick as u128);
    }
    line.append(")");
    line
}

/// A hundred basis points are one percent, up to rounding.
pub proof fn law_hundred_basis_points_are_a_percent(bps: Double)
    requires
        fidelity::is_sized(bps, -900, 1000),
        !bps.negative(),
    ensures
        accuracy::within(
            accuracy::real_of(percent_of_bps(bps)) * 100real,
            accuracy::real_of(bps),
            1real,
            accuracy::real_of(bps),
        ),
{
    strategy::lemma_hundred();
    fidelity::lemma_quotient_sized(bps, Double { bits: HUNDRED }, -900, 1000, 6, 7);
    accuracy::lemma_real_units(bps);
}

/// The digits of a whole number stand for it, behind a minus sign where it is
/// below zero.
pub proof fn law_signed_decimal_reads_back(n: int)
    ensures
        n >= 0 ==> text::decimal_value(signed_decimal(n)) == n,
        n < 0 ==> signed_decimal(n).len() > 1 && signed_decimal(n)[0] == '-'
            && text::decimal_value(signed_decimal(n).skip(1)) == -n,
{
    if n < 0 {
        reveal_strlit("-");
        text::law_decimal_reads_back((-n) as nat);
        assert(signed_decimal(n).skip(1) =~= text::decimal((-n) as nat));
    } else {
        text::law_decimal_reads_back(n as nat);
    }
}

/// A framed number stands between the two texts.
pub proof fn law_frame_is_around_the_number(
    before: Seq<char>,
    x: Double,
    places: nat,
    after: Seq<char>,
)
    ensures
        before.is_prefix_of(framed(before, x, places, after)),
        after.is_suffix_of(framed(before, x, places, after)),
        framed(before, x, places, after).skip(before.len() as int).take(
            text::fixed(x, places).len() as int,
        ) == text::fixed(x, places),
        framed(before, x, places, after).len() == before.len() + text::fixed(x, places).len()
            + after.len(),
{
    let line = framed(before, x, places, after);
    assert(line.subrange(0, before.len() as int) =~= before);
    assert(line.subrange(line.len() - after.len(), line.len() as int) =~= after);
    assert(line.skip(before.len() as int).take(text::fixed(x, places).len() as int)
        =~= text::fixed(x, places));
}

} // verus!
