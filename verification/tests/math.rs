use arbitraj::double::Double;
use arbitraj::math::{
    compute_arbitrage_profit, find_optimal_amount, sqrt_price_x96_to_eth_price, swap_usdc_to_weth,
    swap_weth_to_usdc, OptimalAmountResult,
};
use arbitraj::search::can_search;
use arbitraj::types::PoolState;
use arbitraj::wide::U256;

fn number(x: f64) -> Double {
    Double::from_bits(x.to_bits())
}

fn machine(x: Double) -> f64 {
    f64::from_bits(x.to_bits())
}

const Q96: f64 = 79_228_162_514_264_337_593_543_950_336.0;

/// A pool at the given ETH price.
fn make_test_pool(eth_price: f64) -> PoolState {
    let price_ratio = 1.0e12 / eth_price;
    let sqrt_price = price_ratio.sqrt();
    let sqrt_price_x96 = sqrt_price * Q96;
    let liquidity: u128 = 1_000_000_000_000_000_000;
    PoolState {
        sqrt_price_x96: U256::zero(),
        sqrt_price_f64: number(sqrt_price_x96),
        tick: 0,
        liquidity,
        liquidity_f64: number(liquidity as f64),
        eth_price_usd: number(eth_price),
        last_block: 0,
        last_update: 0,
        is_initialized: true,
        bytecode: None,
    }
}

#[test]
fn test_sqrt_price_to_eth_price() {
    let pool = make_test_pool(2000.0);
    let price = machine(sqrt_price_x96_to_eth_price(pool.sqrt_price_f64, 6, 18));
    assert!((price - 2000.0).abs() < 1.0, "{}", price);
}

#[test]
fn test_swap_weth_to_usdc() {
    let pool = make_test_pool(2000.0);
    let usdc_out = machine(swap_weth_to_usdc(
        pool.sqrt_price_f64,
        pool.liquidity_f64,
        number(1.0),
        number(0.0005),
    ));
    assert!(usdc_out > 1900.0 && usdc_out < 2100.0, "{}", usdc_out);
}

#[test]
fn test_swap_usdc_to_weth() {
    let pool = make_test_pool(2000.0);
    let weth_out = machine(swap_usdc_to_weth(
        pool.sqrt_price_f64,
        pool.liquidity_f64,
        number(2000.0),
        number(0.0005),
    ));
    assert!(weth_out > 0.90 && weth_out < 1.10, "{}", weth_out);
}

#[test]
fn test_newton_raphson_finds_optimum() {
    let buy_pool = make_test_pool(1980.0);
    let sell_pool = make_test_pool(2020.0);
    let result = find_optimal_amount(
        &sell_pool,
        number(0.0005),
        &buy_pool,
        number(0.01),
        number(0.10),
        number(5.0),
        number(2000.0),
        number(10.0),
    );
    assert!(machine(result.expected_profit) > 0.0);
    assert!(machine(result.optimal_amount) > 0.0);
}

/// The same formulas on the machine's own numbers.
#[derive(Clone, Copy)]
struct Reference {
    sell: (f64, f64, f64),
    buy: (f64, f64, f64),
    gas: f64,
    bps: f64,
    eth: f64,
}

fn usdc_out(root_x96: f64, liquidity: f64, amount: f64, fee: f64) -> f64 {
    if root_x96 <= 0.0 || liquidity <= 0.0 || amount <= 0.0 {
        return 0.0;
    }
    let root = root_x96 / Q96;
    let raised = root + amount * (1.0 - fee) * 1e18 / liquidity;
    if raised <= 0.0 {
        return 0.0;
    }
    (liquidity * (1.0 / root - 1.0 / raised) / 1e6).abs()
}

fn weth_out(root_x96: f64, liquidity: f64, amount: f64, fee: f64) -> f64 {
    if root_x96 <= 0.0 || liquidity <= 0.0 || amount <= 0.0 {
        return 0.0;
    }
    let root = root_x96 / Q96;
    let deep = liquidity + amount * (1.0 - fee) * 1e6 * root;
    if deep <= 0.0 {
        return 0.0;
    }
    (liquidity * (root - liquidity * root / deep) / 1e18).abs()
}

impl Reference {
    fn profit(&self, amount: f64) -> f64 {
        if amount <= 0.0 {
            return f64::NEG_INFINITY;
        }
        let usdc = usdc_out(self.sell.0, self.sell.1, amount, self.sell.2);
        if usdc <= 0.0 {
            return f64::NEG_INFINITY;
        }
        let weth = weth_out(self.buy.0, self.buy.1, usdc, self.buy.2);
        if weth <= 0.0 {
            return f64::NEG_INFINITY;
        }
        (weth - amount * (1.0 + self.bps / 10_000.0)) * self.eth - self.gas
    }

    fn slope(&self, x: f64) -> f64 {
        let h = (x * 1e-7).max(1e-10);
        (self.profit(x + h) - self.profit(x - h)) / (2.0 * h)
    }

    fn curvature(&self, x: f64) -> f64 {
        let h = (x * 1e-5).max(1e-8);
        (self.slope(x + h) - self.slope(x - h)) / (2.0 * h)
    }

    fn search(&self, max: f64) -> (f64, f64, bool, u32) {
        let low = 0.0001;
        let mut best = (0.0, f64::NEG_INFINITY);
        for i in 1..=20 {
            let fraction = i as f64 / 20.0;
            let amount = low + (max - low) * fraction * fraction;
            let profit = self.profit(amount);
            if profit > best.1 {
                best = (amount, profit);
            }
        }
        if best.1 <= f64::NEG_INFINITY + 1.0 || best.0 <= 0.0 {
            return (0.0, best.1.max(0.0), false, 0);
        }
        let mut x = best.0;
        let mut converged = false;
        let mut iterations = 0;
        for i in 0..50 {
            iterations = i + 1;
            let first = self.slope(x);
            let second = self.curvature(x);
            if second.abs() < 1e-20 {
                break;
            }
            let next = (x - first / second).clamp(low, max);
            let step = (next - x).abs();
            x = next;
            if step < 1e-8 {
                converged = true;
                break;
            }
        }
        (x, self.profit(x), converged, iterations)
    }
}

fn pool(root_x96: f64, liquidity: f64) -> PoolState {
    let mut state = make_test_pool(2000.0);
    state.sqrt_price_f64 = number(root_x96);
    state.liquidity_f64 = number(liquidity);
    state
}

fn search(r: &Reference, max: f64) -> OptimalAmountResult {
    find_optimal_amount(
        &pool(r.sell.0, r.sell.1),
        number(r.sell.2),
        &pool(r.buy.0, r.buy.1),
        number(r.buy.2),
        number(r.gas),
        number(r.bps),
        number(r.eth),
        number(max),
    )
}

fn profit(r: &Reference, amount: f64) -> Double {
    compute_arbitrage_profit(
        number(amount),
        &pool(r.sell.0, r.sell.1),
        number(r.sell.2),
        &pool(r.buy.0, r.buy.1),
        number(r.buy.2),
        number(r.gas),
        number(r.bps),
        number(r.eth),
    )
}

fn same(ours: Double, theirs: f64) -> bool {
    if theirs.is_nan() {
        machine(ours).is_nan()
    } else {
        ours.to_bits() == theirs.to_bits()
    }
}

struct Random {
    state: u64,
}

impl Random {
    fn unit(&mut self) -> f64 {
        self.state ^= self.state << 13;
        self.state ^= self.state >> 7;
        self.state ^= self.state << 17;
        (self.state >> 11) as f64 / (1u64 << 53) as f64
    }
}

fn root_at(price: f64) -> f64 {
    (1.0e12 / price).sqrt() * Q96
}

fn random_market(random: &mut Random) -> Reference {
    let price = 500.0 + 4000.0 * random.unit();
    Reference {
        sell: (
            root_at(price * (1.0 + 0.05 * random.unit())),
            10f64.powf(15.0 + 6.0 * random.unit()),
            0.01 * random.unit(),
        ),
        buy: (root_at(price), 10f64.powf(15.0 + 6.0 * random.unit()), 0.01 * random.unit()),
        gas: random.unit(),
        bps: 10.0 * random.unit(),
        eth: price,
    }
}

#[test]
fn swaps_agree_with_the_machine() {
    let mut random = Random { state: 0x1234_5678_9abc_def1 };
    for _ in 0..3000 {
        let root = root_at(100.0 + 10_000.0 * random.unit());
        let liquidity = 10f64.powf(10.0 + 15.0 * random.unit());
        let amount = 10f64.powf(8.0 * random.unit() - 4.0);
        let fee = 0.02 * random.unit();
        assert!(same(
            swap_weth_to_usdc(number(root), number(liquidity), number(amount), number(fee)),
            usdc_out(root, liquidity, amount, fee)
        ));
        assert!(same(
            swap_usdc_to_weth(number(root), number(liquidity), number(amount), number(fee)),
            weth_out(root, liquidity, amount, fee)
        ));
    }
}

#[test]
fn swap_of_nothing_gives_nothing() {
    let p = make_test_pool(2000.0);
    for bad in [0.0, -0.0, -1.0, f64::NEG_INFINITY] {
        for out in [
            swap_weth_to_usdc(p.sqrt_price_f64, p.liquidity_f64, number(bad), number(0.01)),
            swap_weth_to_usdc(p.sqrt_price_f64, number(bad), number(1.0), number(0.01)),
            swap_weth_to_usdc(number(bad), p.liquidity_f64, number(1.0), number(0.01)),
            swap_usdc_to_weth(p.sqrt_price_f64, p.liquidity_f64, number(bad), number(0.01)),
            swap_usdc_to_weth(p.sqrt_price_f64, number(bad), number(1.0), number(0.01)),
            swap_usdc_to_weth(number(bad), p.liquidity_f64, number(1.0), number(0.01)),
        ] {
            assert_eq!(out.to_bits(), 0);
        }
    }
}

#[test]
fn larger_swaps_give_no_less() {
    let p = make_test_pool(2000.0);
    let mut last = (0.0, 0.0);
    for i in 1..200 {
        let amount = number(i as f64 * 0.05);
        let usdc =
            machine(swap_weth_to_usdc(p.sqrt_price_f64, p.liquidity_f64, amount, number(0.003)));
        let weth =
            machine(swap_usdc_to_weth(p.sqrt_price_f64, p.liquidity_f64, amount, number(0.003)));
        assert!(usdc >= last.0 && weth >= last.1);
        last = (usdc, weth);
    }
}

#[test]
fn prices_of_token_orders() {
    assert_eq!(sqrt_price_x96_to_eth_price(number(0.0), 6, 18).to_bits(), 0);
    assert_eq!(sqrt_price_x96_to_eth_price(number(-1.0), 6, 18).to_bits(), 0);
    assert_eq!(machine(sqrt_price_x96_to_eth_price(number(Q96), 18, 18)), 1.0);
    assert_eq!(machine(sqrt_price_x96_to_eth_price(number(2.0 * Q96), 18, 18)), 4.0);
    assert_eq!(
        machine(sqrt_price_x96_to_eth_price(number(Q96), 18, 6)),
        1_000_000_000_000.0
    );
    // A vanishing price.
    assert_eq!(sqrt_price_x96_to_eth_price(number(1e-200), 6, 18).to_bits(), 0);
    for (root, d0, d1) in [(3.1e30, 6u8, 18u8), (7.7e33, 6, 18), (1.2e25, 18, 6), (5.0e28, 0, 22)]
    {
        let x = root / Q96;
        let adjusted = x * x * 10f64.powi(d0 as i32 - d1 as i32);
        let expected = if d0 < d1 { 1.0 / adjusted } else { adjusted };
        assert!(same(sqrt_price_x96_to_eth_price(number(root), d0, d1), expected));
    }
}

#[test]
fn price_falls_as_the_root_rises() {
    let mut last = f64::INFINITY;
    for i in 1..100 {
        let price = machine(sqrt_price_x96_to_eth_price(number(i as f64 * 1e32), 6, 18));
        assert!(price <= last && price > 0.0);
        last = price;
    }
}

#[test]
fn profits_agree_with_the_machine() {
    let mut random = Random { state: 0x0bad_cafe_1234_5671 };
    for _ in 0..2000 {
        let r = random_market(&mut random);
        let amount = 10f64.powf(6.0 * random.unit() - 4.0);
        assert!(same(profit(&r, amount), r.profit(amount)));
    }
}

#[test]
fn profit_of_no_trade_is_bottomless() {
    let r = Reference {
        sell: (root_at(2020.0), 1e18, 0.0005),
        buy: (root_at(1980.0), 1e18, 0.01),
        gas: 0.1,
        bps: 5.0,
        eth: 2000.0,
    };
    for amount in [0.0, -0.0, -3.5] {
        assert_eq!(machine(profit(&r, amount)), f64::NEG_INFINITY);
    }
    let dry = Reference { buy: (r.buy.0, 0.0, r.buy.2), ..r };
    assert_eq!(machine(profit(&dry, 1.0)), f64::NEG_INFINITY);
    let unpriced = Reference { sell: (0.0, r.sell.1, r.sell.2), ..r };
    assert_eq!(machine(profit(&unpriced, 1.0)), f64::NEG_INFINITY);
    // Dearer gas costs just that.
    let dear = Reference { gas: 1.1, ..r };
    assert!(machine(profit(&dear, 1.0)) < machine(profit(&r, 1.0)));
}

#[test]
fn searches_agree_with_the_machine() {
    let mut random = Random { state: 0x5eed_5eed_5eed_5eed };
    let mut converged = 0;
    for _ in 0..60 {
        let r = random_market(&mut random);
        let max = 0.5 + 60.0 * random.unit();
        let ours = search(&r, max);
        let theirs = r.search(max);
        assert!(same(ours.optimal_amount, theirs.0));
        assert!(same(ours.expected_profit, theirs.1));
        assert_eq!(ours.converged, theirs.2);
        assert_eq!(ours.iterations, theirs.3);
        assert!(ours.iterations <= 50);
        assert!(same(ours.expected_profit, r.profit(machine(ours.optimal_amount))));
        let amount = machine(ours.optimal_amount);
        let scanned = (1..=20).any(|i| {
            let fraction = i as f64 / 20.0;
            amount == 0.0001 + (max - 0.0001) * fraction * fraction
        });
        assert!(amount.is_nan() || scanned || (0.0001..=max).contains(&amount));
        if ours.converged {
            converged += 1;
            assert!(machine(ours.optimal_amount) >= 0.0001);
            assert!(machine(ours.optimal_amount) <= max);
        }
    }
    assert!(converged > 0);
}

#[test]
fn search_in_a_dry_market_gives_nothing() {
    let r = Reference {
        sell: (root_at(2020.0), 0.0, 0.0005),
        buy: (root_at(1980.0), 1e18, 0.01),
        gas: 0.1,
        bps: 5.0,
        eth: 2000.0,
    };
    let found = search(&r, 10.0);
    assert_eq!(found.optimal_amount.to_bits(), 0);
    assert_eq!(found.expected_profit.to_bits(), 0);
    assert!(!found.converged);
    assert_eq!(found.iterations, 0);
}

#[test]
fn empty_ranges_cannot_be_searched() {
    let ask = |sell: &PoolState, max: f64| {
        can_search(
            sell,
            number(0.0005),
            &make_test_pool(1980.0),
            number(0.01),
            number(0.1),
            number(5.0),
            number(2000.0),
            number(max),
        )
    };
    let sell = make_test_pool(2020.0);
    assert!(ask(&sell, 0.0001));
    assert!(ask(&sell, 10.0));
    assert!(!ask(&sell, 0.00005));
    // Nothing goes through: no step is taken, whatever the range.
    assert!(ask(&pool(root_at(2020.0), 0.0), 0.00005));
    assert!(ask(&sell, f64::NAN));
    assert!(ask(&sell, -1.0));
}

#[test]
fn tiny_swaps_are_rounding_noise() {
    // Here rounding has the smaller amount seem to raise the price, and it
    // buys more than the larger one.
    let root = number(2.084634711608654e33);
    let liquidity = number(1.8525162723540849e18);
    let small = swap_usdc_to_weth(root, liquidity, number(1e-9), number(0.0));
    let large = swap_usdc_to_weth(root, liquidity, number(1e-8), number(0.0));
    assert!(machine(small) > 0.0);
    assert_eq!(machine(large), 0.0);
}

#[test]
fn doubling_the_root_quarters_the_price() {
    for root in [1.0, 1.1, 3.7e9, Q96, 1.7720049e33, 9.9e40, 2f64.powi(159)] {
        let price = machine(sqrt_price_x96_to_eth_price(number(root), 6, 18));
        let doubled = machine(sqrt_price_x96_to_eth_price(number(2.0 * root), 6, 18));
        assert!(price > 0.0 && price.is_finite());
        assert_eq!(doubled, price / 4.0);
    }
}

#[test]
fn swaps_give_no_more_than_the_reserve() {
    let mut random = Random { state: 0x7777_1111_2222_3333 };
    for _ in 0..500 {
        let root = root_at(500.0 + 4000.0 * random.unit());
        let liquidity = 10f64.powf(15.0 + 6.0 * random.unit());
        let reserve = liquidity * (1.0 / (root / Q96)) / 1e6;
        let fee = number(0.01 * random.unit());
        for amount in [1e-4, 1.0, 1e6, 1e30, 1e300] {
            let out = swap_weth_to_usdc(number(root), number(liquidity), number(amount), fee);
            assert!(machine(out) <= reserve);
        }
    }
}

#[test]
fn one_pool_never_earns() {
    let mut random = Random { state: 0x0123_4567_89ab_cdef };
    for _ in 0..500 {
        let mut r = random_market(&mut random);
        r.buy.0 = r.sell.0;
        r.buy.1 = r.sell.1;
        for amount in [0.01, 1.0, 40.0] {
            let earned = machine(profit(&r, amount));
            // What rounding can add, measured by the WETH that the pool holds.
            let noise = 1e-13 * r.eth * (r.buy.1 * (r.buy.0 / Q96) / 1e18 + amount);
            assert!(earned <= -r.gas + noise, "{} {}", earned, noise);
        }
    }
}

#[test]
fn a_swap_without_a_fee_is_undone() {
    let free = number(0.0);
    for (price, liquidity, amount) in [(2000.0, 1e18, 1.0), (1500.0, 3e19, 0.25), (4000.0, 1e17, 7.5)]
    {
        let root = root_at(price);
        let usdc = swap_weth_to_usdc(number(root), number(liquidity), number(amount), free);
        let raised = (root / Q96 + amount * 1e18 / liquidity) * Q96;
        let weth = swap_usdc_to_weth(number(raised), number(liquidity), usdc, free);
        assert!((machine(weth) - amount).abs() < 1e-9, "{}", machine(weth));
    }
}

#[test]
fn a_search_can_end_below_the_scan() {
    let r = Reference {
        sell: (root_at(2040.0), 1e18, 0.0005),
        buy: (root_at(2000.0), 1e18, 0.0005),
        gas: 0.1,
        bps: 0.0,
        eth: 2000.0,
    };
    let found = search(&r, 50.0);
    let theirs = r.search(50.0);
    assert!(same(found.optimal_amount, theirs.0));
    assert!(machine(found.expected_profit) < machine(profit(&r, 50.0)));
}

impl Reference {
    /// What comes back of `a` WETH is `gain * a / (depth + drag * a)`.
    fn closed_form(&self) -> (f64, f64, f64) {
        let (r, l, k) = (self.sell.0 / Q96, self.sell.1, (1.0 - self.sell.2) * 1e18);
        let (s, n, j) = (self.buy.0 / Q96, self.buy.1, (1.0 - self.buy.2) * 1e6);
        (
            n * s * s * j * k * l,
            1e18 * 1e6 * n * r * r * l,
            1e18 * k * (n * 1e6 * r + j * s * l),
        )
    }
}

#[test]
fn profits_are_close_to_the_closed_form() {
    let mut random = Random { state: 0x1357_9bdf_0246_8ace };
    for _ in 0..1000 {
        let r = random_market(&mut random);
        let amount = 10f64.powf(4.0 * random.unit() - 2.0);
        let (gain, depth, drag) = r.closed_form();
        let back = gain * amount / (depth + drag * amount);
        let cost = amount * (1.0 + r.bps / 10_000.0);
        let expected = (back - cost) * r.eth - r.gas;
        let (sell_root, buy_root) = (r.sell.0 / Q96, r.buy.0 / Q96);
        let held = r.buy.1 * buy_root / 1e18;
        let worth = buy_root * buy_root * (1.0 - r.buy.2) * 1e6 / 1e18 * (r.sell.1 / sell_root / 1e6);
        let tolerance = r.eth * (28.0 * held + 24.0 * worth + 12.0 * cost) + r.gas;
        let noise = 1e-14 * r.eth * (back + cost);
        let off = (machine(profit(&r, amount)) - expected).abs();
        assert!(off <= tolerance / 2f64.powi(53) + noise, "{} {}", off, tolerance);
    }
}

#[test]
fn exact_newton_steps_do_not_overshoot() {
    let r = Reference {
        sell: (root_at(2040.0), 1e19, 0.0005),
        buy: (root_at(2000.0), 2e19, 0.003),
        gas: 0.1,
        bps: 5.0,
        eth: 2000.0,
    };
    let (gain, depth, drag) = r.closed_form();
    let cost = 1.0 + r.bps / 10_000.0;
    let best = ((gain * depth / cost).sqrt() - depth) / drag;
    assert!(best > 0.0);
    for i in 0..40 {
        let x = best * i as f64 / 20.0;
        let d = depth + drag * x;
        let slope = gain * depth / (d * d) - cost;
        let curvature = -2.0 * gain * depth * drag / (d * d * d);
        let next = x - slope / curvature;
        assert!(next <= best * (1.0 + 1e-12));
        assert!(x > best || next >= x * (1.0 - 1e-12));
    }
}

#[test]
fn the_middle_earns_no_less_than_the_mean() {
    let mut random = Random { state: 0x2468_ace1_3579_bdf0 };
    for _ in 0..500 {
        let r = random_market(&mut random);
        let (x, y) = (0.01 + 5.0 * random.unit(), 5.0 + 40.0 * random.unit());
        let mean = (machine(profit(&r, x)) + machine(profit(&r, y))) / 2.0;
        let held = r.buy.1 * (r.buy.0 / Q96) / 1e18;
        let noise = 1e-13 * r.eth * (held + y);
        assert!(machine(profit(&r, (x + y) / 2.0)) >= mean - noise);
    }
}

#[test]
fn a_search_is_beaten_by_its_slope_only() {
    let mut random = Random { state: 0x0f1e_2d3c_4b5a_6978 };
    let mut markets: Vec<Reference> = (0..40).map(|_| random_market(&mut random)).collect();
    // One where the search ends far below the scan: a steep slope is left there.
    markets.push(Reference {
        sell: (root_at(2040.0), 1e18, 0.0005),
        buy: (root_at(2000.0), 1e18, 0.0005),
        gas: 0.1,
        bps: 0.0,
        eth: 2000.0,
    });
    for r in markets {
        let found = search(&r, 50.0);
        let (a, best) = (machine(found.optimal_amount), machine(found.expected_profit));
        assert!(a > 0.0 && best.is_finite());
        let (gain, depth, drag) = r.closed_form();
        let d = depth + drag * a;
        let slope = (gain * depth / (d * d) - (1.0 + r.bps / 10_000.0)) * r.eth;
        let held = r.buy.1 * (r.buy.0 / Q96) / 1e18;
        for i in 1..=100 {
            let y = 0.5 * i as f64;
            let noise = 1e-12 * r.eth * (held + a + y);
            let earned = machine(profit(&r, y));
            assert!(earned <= best + slope * (y - a) + noise);
            if slope * (y - a) <= 0.0 {
                assert!(earned <= best + noise);
            }
        }
    }
}
