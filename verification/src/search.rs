//! The search for a trade size: the most profitable one of a coarse scan, then
//! Newton-Raphson steps from there towards the point where the profit stops
//! rising.
//!
//! The last step is what the search gives; rounding or the limits of the range
//! can leave it less profitable than the size that the scan picked.
use crate::double;
use crate::double::Double;
use crate::math;
use crate::math::{Market, NEGATIVE_INFINITY, ONE, ZERO};
use crate::order;
use crate::pricing;
use crate::types::PoolState;
use vstd::prelude::*;

verus! {

/// 0.0001 WETH, the smallest trade.
pub const MIN_AMOUNT: u64 = 0x3f1a_36e2_eb1c_432d;

/// 10^-8 WETH: a shorter step ends the search.
pub const TOLERANCE: u64 = 0x3e45_798e_e230_8c3a;

/// 10^-20: below this curvature a Newton step is not taken.
pub const FLAT: u64 = 0x3bc7_9ca1_0c92_4223;

/// The points of the coarse scan.
pub const SCAN_STEPS: u32 = 20;

/// The most Newton-Raphson steps.
pub const MAX_ITERATIONS: u32 = 50;

/// The outcome of a search.
#[derive(Debug, Clone, Copy)]
pub struct OptimalAmountResult {
    /// The trade size in WETH.
    pub optimal_amount: Double,
    /// The profit in USD at that size.
    pub expected_profit: Double,
    /// Whether the steps became shorter than the tolerance.
    pub converged: bool,
    /// How many steps were tried.
    pub iterations: u32,
}

/// The `i`-th trade size of the scan: `min + (max - min) * (i / steps)^2`.
pub open spec fn scan_amount(max_amount: Double, i: nat) -> Double {
    let fraction = double::quotient(
        double::of_nat(i),
        double::of_nat(SCAN_STEPS as nat),
    );
    double::sum(
        math::number(MIN_AMOUNT),
        double::product(
            double::product(
                double::difference(max_amount, math::number(MIN_AMOUNT)),
                fraction,
            ),
            fraction,
        ),
    )
}

/// The best of the first `i` trade sizes of the scan, with its profit; the
/// earliest one where several share the highest profit.
pub open spec fn scan_best(m: Market, max_amount: Double, i: nat) -> (Double, Double)
    decreases i,
{
    if i == 0 {
        (math::number(ZERO), math::number(NEGATIVE_INFINITY))
    } else {
        let before = scan_best(m, max_amount, (i - 1) as nat);
        let amount = scan_amount(max_amount, i);
        let profit = math::profit(m, amount);
        if double::less(before.1, profit) {
            (amount, profit)
        } else {
            before
        }
    }
}

/// The best trade size of the whole scan, with its profit.
pub open spec fn best_scanned(m: Market, max_amount: Double) -> (Double, Double) {
    scan_best(m, max_amount, SCAN_STEPS as nat)
}

/// Whether the scan found a trade that goes through at all.
pub open spec fn viable(m: Market, max_amount: Double) -> bool {
    let best = best_scanned(m, max_amount);
    !double::less_or_equal(
        best.1,
        double::sum(math::number(NEGATIVE_INFINITY), math::number(ONE)),
    ) && !double::less_or_equal(best.0, math::number(ZERO))
}

/// Whether the profit is too flat at `x` for a Newton step.
pub open spec fn flat(m: Market, x: Double) -> bool {
    double::less(double::absolute(math::curvature(m, x)), math::number(FLAT))
}

/// The trade size after a Newton step from `x`, confined to the allowed range.
pub open spec fn newton_step(m: Market, max_amount: Double, x: Double) -> Double {
    double::clamped(
        double::difference(x, double::quotient(math::slope(m, x), math::curvature(m, x))),
        math::number(MIN_AMOUNT),
        max_amount,
    )
}

/// Where the Newton-Raphson steps from `x` end, `done` steps having been
/// tried: the trade size, whether the steps converged, and the steps tried.
pub open spec fn newton(m: Market, max_amount: Double, x: Double, done: nat) -> (Double, bool, nat)
    decreases MAX_ITERATIONS - done,
{
    if done >= MAX_ITERATIONS {
        (x, false, done)
    } else if flat(m, x) {
        (x, false, done + 1)
    } else {
        let next = newton_step(m, max_amount, x);
        if double::less(
            double::absolute(double::difference(next, x)),
            math::number(TOLERANCE),
        ) {
            (next, true, done + 1)
        } else {
            newton(m, max_amount, next, done + 1)
        }
    }
}

/// The outcome of a search in a market.
pub open spec fn optimum(m: Market, max_amount: Double) -> OptimalAmountResult {
    let best = best_scanned(m, max_amount);
    if viable(m, max_amount) {
        let end = newton(m, max_amount, best.0, 0);
        OptimalAmountResult {
            optimal_amount: end.0,
            expected_profit: math::profit(m, end.0),
            converged: end.1,
            iterations: end.2 as u32,
        }
    } else {
        OptimalAmountResult {
            optimal_amount: math::number(ZERO),
            expected_profit: double::larger(best.1, math::number(ZERO)),
            converged: false,
            iterations: 0,
        }
    }
}

/// Whether a search never meets an empty range of trade sizes: a Newton step
/// is taken only where the smallest trade does not exceed the largest.
pub open spec fn searchable(m: Market, max_amount: Double) -> bool {
    viable(m, max_amount) && !flat(m, best_scanned(m, max_amount).0) ==> double::less_or_equal(
        math::number(MIN_AMOUNT),
        max_amount,
    )
}

/// Scans the trade sizes.
fn scan(m: &Market, max_amount: Double) -> (best: (Double, Double))
    ensures
        best == best_scanned(*m, max_amount),
{
    let low: Double = Double::from_bits(MIN_AMOUNT);
    let mut best_amount: Double = Double::from_bits(ZERO);
    let mut best_profit: Double = Double::from_bits(NEGATIVE_INFINITY);
    let mut i: u32 = 0;
    while i < SCAN_STEPS
        invariant
            i <= SCAN_STEPS,
            low == math::number(MIN_AMOUNT),
            (best_amount, best_profit) == scan_best(*m, max_amount, i as nat),
        decreases SCAN_STEPS - i,
    {
        i = i + 1;
        let fraction: Double = Double::from_u128(i as u128).over(
            Double::from_u128(SCAN_STEPS as u128),
        );
        let amount: Double = low.plus(max_amount.minus(low).times(fraction).times(fraction));
        let profit: Double = m.profit_at(amount);
        if profit.gt(best_profit) {
            best_profit = profit;
            best_amount = amount;
        }
    }
    (best_amount, best_profit)
}

fn is_viable(best: (Double, Double)) -> (answer: bool)
    ensures
        answer == (!double::less_or_equal(
            best.1,
            double::sum(math::number(NEGATIVE_INFINITY), math::number(ONE)),
        ) && !double::less_or_equal(best.0, math::number(ZERO))),
{
    !best.1.le(Double::from_bits(NEGATIVE_INFINITY).plus(Double::from_bits(ONE))) && !best.0.le(
        Double::from_bits(ZERO),
    )
}

/// Searches a trade size between two pools: from the best one of the scan,
/// Newton-Raphson steps towards a slope of zero.
pub fn find_optimal_amount(
    sell_pool: &PoolState,
    sell_fee: Double,
    buy_pool: &PoolState,
    buy_fee: Double,
    gas_cost_usd: Double,
    flash_loan_fee_bps: Double,
    eth_price_usd: Double,
    max_amount_weth: Double,
) -> (result: OptimalAmountResult)
    requires
        searchable(
            math::market(
                *sell_pool,
                sell_fee,
                *buy_pool,
                buy_fee,
                gas_cost_usd,
                flash_loan_fee_bps,
                eth_price_usd,
            ),
            max_amount_weth,
        ),
    ensures
        result == optimum(
            math::market(
                *sell_pool,
                sell_fee,
                *buy_pool,
                buy_fee,
                gas_cost_usd,
                flash_loan_fee_bps,
                eth_price_usd,
            ),
            max_amount_weth,
        ),
{
    let m: Market = Market::between(
        sell_pool,
        sell_fee,
        buy_pool,
        buy_fee,
        gas_cost_usd,
        flash_loan_fee_bps,
        eth_price_usd,
    );
    let best: (Double, Double) = scan(&m, max_amount_weth);
    if !is_viable(best) {
        return OptimalAmountResult {
            optimal_amount: Double::from_bits(ZERO),
            expected_profit: best.1.max(Double::from_bits(ZERO)),
            converged: false,
            iterations: 0,
        };
    }
    let mut x: Double = best.0;
    let mut converged: bool = false;
    let mut iterations: u32 = 0;
    while iterations < MAX_ITERATIONS
        invariant_except_break
            !converged,
            newton(m, max_amount_weth, x, iterations as nat) == newton(
                m,
                max_amount_weth,
                best.0,
                0,
            ),
            iterations == 0 ==> x == best.0,
            iterations > 0 ==> double::less_or_equal(math::number(MIN_AMOUNT), max_amount_weth),
        invariant
            iterations <= MAX_ITERATIONS,
            !flat(m, best.0) ==> double::less_or_equal(math::number(MIN_AMOUNT), max_amount_weth),
        ensures
            (x, converged, iterations as nat) == newton(m, max_amount_weth, best.0, 0),
        decreases MAX_ITERATIONS - iterations,
    {
        iterations = iterations + 1;
        let slope: Double = m.profit_derivative(x);
        let curvature: Double = m.profit_second_derivative(x);
        if curvature.abs().lt(Double::from_bits(FLAT)) {
            break;
        }
        let next: Double = x.minus(slope.over(curvature)).clamp(
            Double::from_bits(MIN_AMOUNT),
            max_amount_weth,
        );
        let step: Double = next.minus(x).abs();
        x = next;
        if step.lt(Double::from_bits(TOLERANCE)) {
            converged = true;
            break;
        }
    }
    OptimalAmountResult {
        optimal_amount: x,
        expected_profit: m.profit_at(x),
        converged,
        iterations,
    }
}

/// Whether `find_optimal_amount` can search the market between two pools.
pub fn can_search(
    sell_pool: &PoolState,
    sell_fee: Double,
    buy_pool: &PoolState,
    buy_fee: Double,
    gas_cost_usd: Double,
    flash_loan_fee_bps: Double,
    eth_price_usd: Double,
    max_amount_weth: Double,
) -> (answer: bool)
    ensures
        answer == searchable(
            math::market(
                *sell_pool,
                sell_fee,
                *buy_pool,
                buy_fee,
                gas_cost_usd,
                flash_loan_fee_bps,
                eth_price_usd,
            ),
            max_amount_weth,
        ),
{
    if Double::from_bits(MIN_AMOUNT).le(max_amount_weth) {
        return true;
    }
    let m: Market = Market::between(
        sell_pool,
        sell_fee,
        buy_pool,
        buy_fee,
        gas_cost_usd,
        flash_loan_fee_bps,
        eth_price_usd,
    );
    let best: (Double, Double) = scan(&m, max_amount_weth);
    !is_viable(best) || m.profit_second_derivative(best.0).abs().lt(Double::from_bits(FLAT))
}

/// The best of a scan is a number, comes from one of its trade sizes unless
/// nothing went through, and is not exceeded by any of them.
proof fn lemma_scan_best(m: Market, max_amount: Double, n: nat)
    ensures
        ({
            let best = scan_best(m, max_amount, n);
            &&& !best.1.is_nan()
            &&& best == (math::number(ZERO), math::number(NEGATIVE_INFINITY)) || (best.1
                == math::profit(m, best.0) && double::less(
                math::number(NEGATIVE_INFINITY),
                best.1,
            ) && !double::less_or_equal(best.0, math::number(ZERO)))
            &&& forall|i: nat|
                1 <= i <= n ==> !double::less(
                    best.1,
                    math::profit(m, #[trigger] scan_amount(max_amount, i)),
                )
        }),
    decreases n,
{
    if n > 0 {
        let before = scan_best(m, max_amount, (n - 1) as nat);
        let best = scan_best(m, max_amount, n);
        lemma_scan_best(m, max_amount, (n - 1) as nat);
        let amount = scan_amount(max_amount, n);
        if double::less_or_equal(amount, math::number(ZERO)) {
            pricing::law_no_trade_no_profit(m, amount);
        }
        assert forall|i: nat| 1 <= i <= n implies !double::less(
            best.1,
            math::profit(m, #[trigger] scan_amount(max_amount, i)),
        ) by {
            if i < n {
                assert(!double::less(before.1, math::profit(m, scan_amount(max_amount, i))));
            }
        }
    }
}

/// No trade size of the scan is more profitable than the one that it picks.
pub proof fn law_scan_picks_the_best(m: Market, max_amount: Double, i: nat)
    requires
        1 <= i <= SCAN_STEPS,
    ensures
        !double::less(
            best_scanned(m, max_amount).1,
            math::profit(m, scan_amount(max_amount, i)),
        ),
{
    lemma_scan_best(m, max_amount, SCAN_STEPS as nat);
}

/// Where no trade size of the scan goes through, the search gives nothing.
pub proof fn law_nothing_viable_gives_nothing(m: Market, max_amount: Double)
    requires
        !viable(m, max_amount),
    ensures
        optimum(m, max_amount) == (OptimalAmountResult {
            optimal_amount: math::number(ZERO),
            expected_profit: math::number(ZERO),
            converged: false,
            iterations: 0,
        }),
{
    let bottom = math::number(NEGATIVE_INFINITY);
    assert(double::sum(bottom, math::number(ONE)) == bottom) by {
        reveal(double::sum);
    }
    lemma_scan_best(m, max_amount, SCAN_STEPS as nat);
}

/// The steps that are tried stay within their limit.
proof fn lemma_newton(m: Market, max_amount: Double, x: Double, done: nat)
    requires
        done <= MAX_ITERATIONS,
    ensures
        ({
            let end = newton(m, max_amount, x, done);
            &&& done <= end.2 <= MAX_ITERATIONS
            &&& end.1 ==> is_settled(m, max_amount, end.0)
        }),
    decreases MAX_ITERATIONS - done,
{
    if done < MAX_ITERATIONS && !flat(m, x) {
        let next = newton_step(m, max_amount, x);
        if double::less(
            double::absolute(double::difference(next, x)),
            math::number(TOLERANCE),
        ) {
            assert(is_last_step(m, max_amount, x, next));
        } else {
            lemma_newton(m, max_amount, next, done + 1);
        }
    }
}

/// Whether a Newton step leads from `before` to `after` and is shorter than
/// the tolerance.
pub open spec fn is_last_step(
    m: Market,
    max_amount: Double,
    before: Double,
    after: Double,
) -> bool {
    &&& !flat(m, before)
    &&& after == newton_step(m, max_amount, before)
    &&& double::less(
        double::absolute(double::difference(after, before)),
        math::number(TOLERANCE),
    )
}

/// Whether a trade size was reached by a step shorter than the tolerance.
pub open spec fn is_settled(m: Market, max_amount: Double, after: Double) -> bool {
    exists|before: Double| #[trigger] is_last_step(m, max_amount, before, after)
}

/// A search tries no more steps than its limit; it has converged only where
/// its last step was shorter than the tolerance; and the profit that it gives
/// is the profit at the trade size that it gives, where there is one.
pub proof fn law_search_is_bounded(m: Market, max_amount: Double)
    ensures
        ({
            let found = optimum(m, max_amount);
            &&& found.iterations <= MAX_ITERATIONS
            &&& found.converged ==> is_settled(m, max_amount, found.optimal_amount)
            &&& viable(m, max_amount) ==> found.expected_profit == math::profit(
                m,
                found.optimal_amount,
            )
        }),
{
    lemma_newton(m, max_amount, best_scanned(m, max_amount).0, 0);
}

/// Whether a trade size is one of the scan.
pub open spec fn is_scanned(max_amount: Double, amount: Double) -> bool {
    exists|i: nat| 1 <= i <= SCAN_STEPS && amount == #[trigger] scan_amount(max_amount, i)
}

/// Whether a trade size lies between the smallest and the largest one.
pub open spec fn is_allowed(max_amount: Double, amount: Double) -> bool {
    double::less_or_equal(math::number(MIN_AMOUNT), amount) && double::less_or_equal(
        amount,
        max_amount,
    )
}

/// The best of a scan is 0 or one of its trade sizes.
proof fn lemma_scan_source(m: Market, max_amount: Double, n: nat)
    requires
        n <= SCAN_STEPS,
    ensures
        ({
            let best = scan_best(m, max_amount, n);
            best.0 == math::number(ZERO) || is_scanned(max_amount, best.0)
        }),
    decreases n,
{
    if n > 0 {
        lemma_scan_source(m, max_amount, (n - 1) as nat);
        assert(is_scanned(max_amount, scan_amount(max_amount, n)));
    }
}

/// The steps end where they began, or where one of them was confined to.
proof fn lemma_newton_range(m: Market, max_amount: Double, x: Double, done: nat)
    requires
        done < MAX_ITERATIONS && !flat(m, x) ==> double::less_or_equal(
            math::number(MIN_AMOUNT),
            max_amount,
        ),
    ensures
        ({
            let end = newton(m, max_amount, x, done);
            end.0 == x || end.0.is_nan() || is_allowed(max_amount, end.0)
        }),
    decreases MAX_ITERATIONS - done,
{
    if done < MAX_ITERATIONS && !flat(m, x) {
        let next = newton_step(m, max_amount, x);
        lemma_confined(
            double::difference(x, double::quotient(math::slope(m, x), math::curvature(m, x))),
            max_amount,
        );
        lemma_newton_range(m, max_amount, next, done + 1);
    }
}

/// Whatever becomes of a search, converged or not, the trade size that it
/// gives is 0, no number, one of the scan, or between the smallest and the
/// largest one.
pub proof fn law_amount_is_scanned_or_allowed(m: Market, max_amount: Double)
    requires
        searchable(m, max_amount),
    ensures
        ({
            let amount = optimum(m, max_amount).optimal_amount;
            ||| amount == math::number(ZERO)
            ||| amount.is_nan()
            ||| is_scanned(max_amount, amount)
            ||| is_allowed(max_amount, amount)
        }),
{
    let best = best_scanned(m, max_amount);
    if viable(m, max_amount) {
        lemma_scan_source(m, max_amount, SCAN_STEPS as nat);
        lemma_newton_range(m, max_amount, best.0, 0);
    }
}

/// A search that has converged gives a trade size between the smallest and
/// the largest one.
#[verifier::rlimit(60)]
pub proof fn law_converged_amount_is_allowed(m: Market, max_amount: Double)
    requires
        double::less_or_equal(math::number(MIN_AMOUNT), max_amount),
        optimum(m, max_amount).converged,
    ensures
        is_allowed(max_amount, optimum(m, max_amount).optimal_amount),
{
    let after = optimum(m, max_amount).optimal_amount;
    law_search_is_bounded(m, max_amount);
    let before = choose|before: Double| #[trigger] is_last_step(m, max_amount, before, after);
    assert(is_last_step(m, max_amount, before, after));
    lemma_settled_number(before, after);
    lemma_confined(
        double::difference(
            before,
            double::quotient(math::slope(m, before), math::curvature(m, before)),
        ),
        max_amount,
    );
}

/// A step that is shorter than something ends at a number.
proof fn lemma_settled_number(before: Double, after: Double)
    requires
        double::less(
            double::absolute(double::difference(after, before)),
            math::number(TOLERANCE),
        ),
    ensures
        !after.is_nan(),
{
    let step = double::difference(after, before);
    order::lemma_sum_operands(after, double::negation(before));
    assert(double::absolute(step).magnitude() == step.magnitude());
}

/// What is confined to the range is no number, or lies in it.
proof fn lemma_confined(target: Double, max_amount: Double)
    requires
        double::less_or_equal(math::number(MIN_AMOUNT), max_amount),
    ensures
        ({
            let kept = double::clamped(target, math::number(MIN_AMOUNT), max_amount);
            kept.is_nan() || is_allowed(max_amount, kept)
        }),
{
}

/// Whether a trade size is left by a Newton-Raphson step for the next one: the
/// curvature is no less than 10^-20, and the next size is this one less the
/// slope over the curvature, or the end of the range that this is beyond.
pub open spec fn is_step(m: Market, max_amount: Double, x: Double, next: Double) -> bool {
    let low = math::number(MIN_AMOUNT);
    let target = double::difference(
        x,
        double::quotient(math::slope(m, x), math::curvature(m, x)),
    );
    &&& !double::less(double::absolute(math::curvature(m, x)), math::number(FLAT))
    &&& double::less(target, low) ==> next == low
    &&& !double::less(target, low) && double::less(max_amount, target) ==> next == max_amount
    &&& !double::less(target, low) && !double::less(max_amount, target) ==> next == target
}

/// Whether two trade sizes are less than 10^-8 WETH apart.
pub open spec fn is_short(x: Double, next: Double) -> bool {
    double::less(double::absolute(double::difference(next, x)), math::number(TOLERANCE))
}

/// Whether trade sizes are those that a search goes through: each is left for
/// the next by a step, and only the last step may be short.
pub open spec fn is_path(m: Market, max_amount: Double, path: Seq<Double>) -> bool {
    &&& path.len() >= 1
    &&& forall|k: int|
        0 <= k < path.len() - 1 ==> is_step(m, max_amount, #[trigger] path[k], path[k + 1])
    &&& forall|k: int| 0 <= k < path.len() - 2 ==> !is_short(#[trigger] path[k], path[k + 1])
}

/// Whether a search that went through some trade sizes ended as it had to: with
/// the last size; as converged exactly where its last step was short; and
/// otherwise where all steps were taken, or no step could be.
pub open spec fn is_outcome(
    m: Market,
    max_amount: Double,
    path: Seq<Double>,
    found: OptimalAmountResult,
) -> bool {
    let steps = (path.len() - 1) as nat;
    &&& is_path(m, max_amount, path)
    &&& found.optimal_amount == path.last()
    &&& found.converged <==> steps >= 1 && is_short(path[steps - 1], path[steps as int])
    &&& found.converged ==> found.iterations == steps
    &&& !found.converged ==> {
        ||| found.iterations == 50 && steps == 50
        ||| found.iterations == steps + 1 && double::less(
            double::absolute(math::curvature(m, path.last())),
            math::number(FLAT),
        )
    }
}

/// The trade sizes that the steps from `x` go through.
proof fn lemma_path(m: Market, max_amount: Double, x: Double, done: nat) -> (path: Seq<Double>)
    requires
        done <= MAX_ITERATIONS,
    ensures
        path[0] == x,
        ({
            let end = newton(m, max_amount, x, done);
            let steps = (path.len() - 1) as nat;
            &&& is_path(m, max_amount, path)
            &&& end.0 == path.last()
            &&& end.1 <==> steps >= 1 && is_short(path[steps - 1], path[steps as int])
            &&& end.1 ==> end.2 == done + steps
            &&& !end.1 ==> {
                ||| end.2 == 50 && done + steps == 50
                ||| end.2 == done + steps + 1 && flat(m, end.0)
            }
        }),
    decreases MAX_ITERATIONS - done,
{
    let alone = seq![x];
    if done >= MAX_ITERATIONS || flat(m, x) {
        alone
    } else {
        let next = newton_step(m, max_amount, x);
        assert(is_step(m, max_amount, x, next));
        if is_short(x, next) {
            let path = seq![x, next];
            assert(path[1] == next && path.last() == next);
            path
        } else {
            let rest = lemma_path(m, max_amount, next, done + 1);
            let path = alone + rest;
            assert(path.len() == rest.len() + 1);
            assert forall|k: int| 0 <= k < path.len() - 1 implies is_step(
                m,
                max_amount,
                #[trigger] path[k],
                path[k + 1],
            ) by {
                if k > 0 {
                    assert(path[k] == rest[k - 1] && path[k + 1] == rest[k]);
                }
            }
            assert forall|k: int| 0 <= k < path.len() - 2 implies !is_short(
                #[trigger] path[k],
                path[k + 1],
            ) by {
                if k > 0 {
                    assert(path[k] == rest[k - 1] && path[k + 1] == rest[k]);
                }
            }
            assert(path.last() == rest.last());
            if rest.len() >= 2 {
                assert(path[path.len() - 2] == rest[rest.len() - 2]);
            }
            path
        }
    }
}

/// Whether a trade size is the `i`-th one of the scan, is more profitable than
/// all before it, and is no less profitable than any of the twenty.
pub open spec fn is_best_at(m: Market, max_amount: Double, amount: Double, i: nat) -> bool {
    &&& 1 <= i <= 20
    &&& amount == scan_amount(max_amount, i)
    &&& forall|j: nat|
        1 <= j <= 20 ==> !double::less(
            math::profit(m, amount),
            math::profit(m, #[trigger] scan_amount(max_amount, j)),
        )
    &&& forall|j: nat|
        1 <= j < i && !math::profit(m, #[trigger] scan_amount(max_amount, j)).is_nan()
            ==> double::less(
            math::profit(m, scan_amount(max_amount, j)),
            math::profit(m, amount),
        )
}

/// Whether a trade size is the earliest one of the most profitable ones of the
/// scan.
pub open spec fn is_earliest_best(m: Market, max_amount: Double, amount: Double) -> bool {
    exists|i: nat| #[trigger] is_best_at(m, max_amount, amount, i)
}

/// The best of the first `n` sizes comes before all that are as profitable.
proof fn lemma_scan_earliest(m: Market, max_amount: Double, n: nat)
    requires
        double::less(math::number(NEGATIVE_INFINITY), scan_best(m, max_amount, n).1),
    ensures
        exists|i: nat| #[trigger] is_first_of(m, max_amount, n, i),
    decreases n,
{
    let bottom = math::number(NEGATIVE_INFINITY);
    if n > 0 {
        let rest = (n - 1) as nat;
        let before = scan_best(m, max_amount, rest);
        let amount = scan_amount(max_amount, n);
        lemma_scan_best(m, max_amount, rest);
        if double::less(before.1, math::profit(m, amount)) {
            assert(is_first_of(m, max_amount, n, n));
        } else {
            assert(scan_best(m, max_amount, n) == before);
            lemma_scan_earliest(m, max_amount, rest);
            let i = choose|i: nat| #[trigger] is_first_of(m, max_amount, rest, i);
            assert(is_first_of(m, max_amount, n, i));
        }
    }
}

/// Whether the best of the first `n` sizes is the `i`-th one, and more profitable
/// than all before it.
spec fn is_first_of(m: Market, max_amount: Double, n: nat, i: nat) -> bool {
    let best = scan_best(m, max_amount, n);
    &&& 1 <= i <= n
    &&& best.0 == scan_amount(max_amount, i)
    &&& best.1 == math::profit(m, best.0)
    &&& forall|j: nat|
        1 <= j < i && !math::profit(m, #[trigger] scan_amount(max_amount, j)).is_nan()
            ==> double::less(math::profit(m, scan_amount(max_amount, j)), best.1)
}

/// Where a search starts.
proof fn lemma_start(m: Market, max_amount: Double)
    requires
        viable(m, max_amount),
    ensures
        is_earliest_best(m, max_amount, best_scanned(m, max_amount).0),
{
    let best = best_scanned(m, max_amount);
    lemma_scan_best(m, max_amount, SCAN_STEPS as nat);
    lemma_scan_earliest(m, max_amount, SCAN_STEPS as nat);
    let i = choose|i: nat| #[trigger] is_first_of(m, max_amount, SCAN_STEPS as nat, i);
    assert(is_best_at(m, max_amount, best.0, i));
}

/// A search starts at the earliest one of the most profitable sizes of the scan,
/// goes from there by Newton-Raphson steps, and ends where they end.
#[verifier::rlimit(60)]
pub proof fn law_search_steps_from_the_best_of_the_scan(m: Market, max_amount: Double)
    requires
        viable(m, max_amount),
    ensures
        exists|path: Seq<Double>|
            {
                &&& #[trigger] is_outcome(m, max_amount, path, optimum(m, max_amount))
                &&& is_earliest_best(m, max_amount, path[0])
            },
        optimum(m, max_amount).expected_profit == math::profit(
            m,
            optimum(m, max_amount).optimal_amount,
        ),
{
    let best = best_scanned(m, max_amount);
    let path = lemma_path(m, max_amount, best.0, 0);
    lemma_newton(m, max_amount, best.0, 0);
    lemma_start(m, max_amount);
    assert(is_outcome(m, max_amount, path, optimum(m, max_amount)));
}

/// A search that did not converge either took all of its 50 steps, or ended
/// where the profit is too flat for one.
pub proof fn law_search_ends_by_itself(m: Market, max_amount: Double)
    requires
        viable(m, max_amount),
        !optimum(m, max_amount).converged,
    ensures
        ({
            let found = optimum(m, max_amount);
            found.iterations == 50 || double::less(
                double::absolute(math::curvature(m, found.optimal_amount)),
                math::number(FLAT),
            )
        }),
{
    let path = lemma_path(m, max_amount, best_scanned(m, max_amount).0, 0);
    lemma_newton(m, max_amount, best_scanned(m, max_amount).0, 0);
}

/// A search gives nothing exactly where no size of the scan goes through: where
/// each of them has a profit of negative infinity, or one that is no number.
pub proof fn law_search_gives_up_only_without_a_trade(m: Market, max_amount: Double)
    ensures
        viable(m, max_amount) <==> exists|i: nat|
            1 <= i <= 20 && double::less(
                math::number(NEGATIVE_INFINITY),
                math::profit(m, #[trigger] scan_amount(max_amount, i)),
            ),
        !viable(m, max_amount) ==> optimum(m, max_amount).optimal_amount == math::number(ZERO),
{
    let bottom = math::number(NEGATIVE_INFINITY);
    assert(double::sum(bottom, math::number(ONE)) == bottom) by {
        reveal(double::sum);
    }
    let best = best_scanned(m, max_amount);
    lemma_scan_best(m, max_amount, SCAN_STEPS as nat);
    lemma_scan_source(m, max_amount, SCAN_STEPS as nat);
    if viable(m, max_amount) {
        let i = choose|i: nat|
            1 <= i <= SCAN_STEPS && best.0 == #[trigger] scan_amount(max_amount, i);
        assert(double::less(bottom, math::profit(m, scan_amount(max_amount, i))));
    }
}

/// A market can be searched where the smallest trade does not exceed the largest
/// one, or no step is taken: nothing goes through, or the profit is flat where
/// the search would start. It cannot be otherwise.
pub proof fn law_empty_range_is_searched_without_steps(m: Market, max_amount: Double)
    ensures
        double::less_or_equal(math::number(MIN_AMOUNT), max_amount) ==> searchable(m, max_amount),
        !viable(m, max_amount) ==> searchable(m, max_amount),
        viable(m, max_amount) && !double::less_or_equal(math::number(MIN_AMOUNT), max_amount) ==> (
        searchable(m, max_amount) <==> double::less(
            double::absolute(math::curvature(m, best_scanned(m, max_amount).0)),
            math::number(FLAT),
        )),
{
}

} // verus!
