//! Swaps and the profit formula in exact arithmetic: why a point where the
//! slope is zero is the most profitable trade size, why a Newton step does not
//! lead beyond it, and why one pool alone earns nothing.
use crate::algebra;
use vstd::prelude::*;

verus! {

/// The two pools of a trade and its costs, without rounding.
pub struct ExactMarket {
    pub sell_root: real,
    pub sell_liquidity: real,
    pub sell_fee: real,
    pub buy_root: real,
    pub buy_liquidity: real,
    pub buy_fee: real,
    pub gas_cost: real,
    pub loan_rate: real,
    pub eth_price: real,
}

/// The root price of a pool after `amount` WETH went in.
pub open spec fn exact_raised_root(root: real, liquidity: real, fee: real, amount: real) -> real {
    root + amount * (1real - fee) * 1_000_000_000_000_000_000real / liquidity
}

/// The USDC that `amount` WETH buy in a pool.
pub open spec fn exact_usdc_out(root: real, liquidity: real, fee: real, amount: real) -> real {
    let raised = exact_raised_root(root, liquidity, fee, amount);
    liquidity * (1real / root - 1real / raised) / 1_000_000real
}

/// The WETH that `amount` USDC buy in a pool.
pub open spec fn exact_weth_out(root: real, liquidity: real, fee: real, amount: real) -> real {
    let deepened = liquidity + amount * (1real - fee) * 1_000_000real * root;
    let lowered = liquidity * root / deepened;
    liquidity * (root - lowered) / 1_000_000_000_000_000_000real
}

/// The USDC that `amount` WETH buy in the dear pool.
pub open spec fn usdc_received(m: ExactMarket, amount: real) -> real {
    exact_usdc_out(m.sell_root, m.sell_liquidity, m.sell_fee, amount)
}

/// The WETH that `amount` USDC buy in the cheap pool.
pub open spec fn weth_received(m: ExactMarket, amount: real) -> real {
    exact_weth_out(m.buy_root, m.buy_liquidity, m.buy_fee, amount)
}

/// The net profit of a trade.
pub open spec fn exact_profit(m: ExactMarket, amount: real) -> real {
    (weth_received(m, usdc_received(m, amount)) - amount * (1real + m.loan_rate)) * m.eth_price
        - m.gas_cost
}

/// Whether the pools have prices and liquidity, the fees leave something, and
/// ETH has a price.
pub open spec fn is_sound(m: ExactMarket) -> bool {
    &&& m.sell_root > 0real
    &&& m.sell_liquidity > 0real
    &&& 0real <= m.sell_fee < 1real
    &&& m.buy_root > 0real
    &&& m.buy_liquidity > 0real
    &&& 0real <= m.buy_fee < 1real
    &&& m.eth_price > 0real
}

/// The numerator of the WETH that come back, per WETH that goes in.
pub open spec fn gain(m: ExactMarket) -> real {
    m.buy_liquidity * m.buy_root * m.buy_root * ((1real - m.buy_fee) * 1_000_000real) * ((1real
        - m.sell_fee) * 1_000_000_000_000_000_000real) * m.sell_liquidity
}

/// The denominator where nothing goes in.
pub open spec fn depth(m: ExactMarket) -> real {
    1_000_000_000_000_000_000real * 1_000_000real * m.buy_liquidity * m.sell_root * m.sell_root
        * m.sell_liquidity
}

/// What each WETH that goes in adds to the denominator.
pub open spec fn drag(m: ExactMarket) -> real {
    1_000_000_000_000_000_000real * ((1real - m.sell_fee) * 1_000_000_000_000_000_000real) * (
    m.buy_liquidity * 1_000_000real * m.sell_root + ((1real - m.buy_fee) * 1_000_000real)
        * m.buy_root * m.sell_liquidity)
}

/// The slope of the profit.
pub open spec fn exact_slope(m: ExactMarket, amount: real) -> real {
    let d = depth(m) + drag(m) * amount;
    (gain(m) * depth(m) / (d * d) - (1real + m.loan_rate)) * m.eth_price
}

/// The three terms are positive.
proof fn lemma_positive(m: ExactMarket)
    requires
        is_sound(m),
    ensures
        gain(m) > 0real,
        depth(m) > 0real,
        drag(m) > 0real,
{
    let k = (1real - m.sell_fee) * 1_000_000_000_000_000_000real;
    let j = (1real - m.buy_fee) * 1_000_000real;
    let (r, l, s, n) = (m.sell_root, m.sell_liquidity, m.buy_root, m.buy_liquidity);
    algebra::lemma_product_positive(1real - m.sell_fee, 1_000_000_000_000_000_000real);
    algebra::lemma_product_positive(1real - m.buy_fee, 1_000_000real);
    algebra::lemma_product_positive(n, s);
    algebra::lemma_product_positive(n * s, s);
    algebra::lemma_product_positive(n * s * s, j);
    algebra::lemma_product_positive(n * s * s * j, k);
    algebra::lemma_product_positive(n * s * s * j * k, l);
    let big = 1_000_000_000_000_000_000real * 1_000_000real;
    algebra::lemma_product_positive(1_000_000_000_000_000_000real, 1_000_000real);
    algebra::lemma_product_positive(big, n);
    algebra::lemma_product_positive(big * n, r);
    algebra::lemma_product_positive(big * n * r, r);
    algebra::lemma_product_positive(big * n * r * r, l);
    algebra::lemma_product_positive(n, 1_000_000real);
    algebra::lemma_product_positive(n * 1_000_000real, r);
    algebra::lemma_product_positive(j, s);
    algebra::lemma_product_positive(j * s, l);
    algebra::lemma_product_positive(1_000_000_000_000_000_000real, k);
    algebra::lemma_product_positive(
        1_000_000_000_000_000_000real * k,
        n * 1_000_000real * r + j * s * l,
    );
}

/// The USDC received as one fraction.
proof fn lemma_usdc(m: ExactMarket, a: real)
    requires
        is_sound(m),
        a >= 0real,
    ensures
        ({
            let k = (1real - m.sell_fee) * 1_000_000_000_000_000_000real;
            let (r, l) = (m.sell_root, m.sell_liquidity);
            &&& r * l + k * a > 0real
            &&& r * (r * l + k * a) * 1_000_000real > 0real
            &&& usdc_received(m, a) == k * a * l / (r * (r * l + k * a) * 1_000_000real)
        }),
{
    let big = 1_000_000_000_000_000_000real;
    let mil = 1_000_000real;
    let k = (1real - m.sell_fee) * big;
    let (r, l) = (m.sell_root, m.sell_liquidity);
    let t = r * l + k * a;
    algebra::lemma_product_positive(1real - m.sell_fee, big);
    algebra::lemma_product_positive(r, l);
    algebra::lemma_product_monotone(0real, k, 0real, a);
    algebra::lemma_product_positive(r, t);
    algebra::lemma_product_positive(r * t, mil);
    let moved = a * (1real - m.sell_fee) * big;
    algebra::identity_last(a, 1real - m.sell_fee, big);
    let raised = r + moved / l;
    algebra::lemma_quotient_back(moved, l);
    algebra::lemma_plus(r, moved / l, l);
    assert(raised * l == t);
    algebra::lemma_positive_factor(raised, l);
    let p = 1real / r;
    let q = 1real / raised;
    algebra::lemma_quotient_back(1real, r);
    algebra::lemma_quotient_back(1real, raised);
    // q * t == l
    algebra::lemma_multiple(q, t, raised * l);
    algebra::lemma_associative(q, raised, l);
    algebra::lemma_multiple(l, q * raised, 1real);
    // out * (r * t) == k * a * l
    let out = l * (p - q);
    algebra::identity_inverses(l, p, q, r * t);
    algebra::lemma_associative(p, r, t);
    algebra::lemma_multiple(t, p * r, 1real);
    algebra::lemma_multiple(l, p * (r * t), t);
    algebra::lemma_multiple(r, q * t, l);
    algebra::identity_middle(q, r, t);
    algebra::lemma_multiple(l, q * (r * t), r * l);
    algebra::lemma_plus(r * l, k * a, l);
    assert(out * (r * t) == l * (k * a));
    algebra::identity_end(l, k, a);
    let usdc = out / mil;
    algebra::lemma_quotient_back(out, mil);
    algebra::identity_scaled(usdc, r * t, mil);
    algebra::lemma_multiple(r * t, usdc * mil, out);
    algebra::lemma_quotient(k * a * l, r * t * mil, usdc);
}

/// The USDC received are not negative.
pub(crate) proof fn lemma_usdc_positive(m: ExactMarket, a: real)
    requires
        is_sound(m),
        a >= 0real,
    ensures
        usdc_received(m, a) >= 0real,
{
    let k = (1real - m.sell_fee) * 1_000_000_000_000_000_000real;
    let (r, l) = (m.sell_root, m.sell_liquidity);
    let v = r * (r * l + k * a) * 1_000_000real;
    lemma_usdc(m, a);
    algebra::lemma_product_positive(1real - m.sell_fee, 1_000_000_000_000_000_000real);
    algebra::lemma_product_monotone(0real, k, 0real, a);
    algebra::lemma_product_monotone(0real, k * a, 0real, l);
    algebra::lemma_quotient_back(k * a * l, v);
    algebra::lemma_cancel(0real, usdc_received(m, a), v);
}

/// The WETH received as one fraction.
proof fn lemma_weth(m: ExactMarket, u: real)
    requires
        is_sound(m),
        u >= 0real,
    ensures
        ({
            let j = (1real - m.buy_fee) * 1_000_000real;
            let (s, n) = (m.buy_root, m.buy_liquidity);
            &&& n + j * s * u > 0real
            &&& weth_received(m, u) * ((n + j * s * u) * 1_000_000_000_000_000_000real) == n * s
                * s * j * u
        }),
{
    let big = 1_000_000_000_000_000_000real;
    let j = (1real - m.buy_fee) * 1_000_000real;
    let (s, n) = (m.buy_root, m.buy_liquidity);
    let d = n + j * s * u;
    algebra::lemma_product_positive(1real - m.buy_fee, 1_000_000real);
    algebra::lemma_product_positive(j, s);
    algebra::lemma_product_monotone(0real, j * s, 0real, u);
    let deepened = n + u * (1real - m.buy_fee) * 1_000_000real * s;
    algebra::identity_rotate(u, 1real - m.buy_fee, 1_000_000real, s);
    assert(deepened == d);
    let low = n * s / deepened;
    algebra::lemma_quotient_back(n * s, deepened);
    algebra::identity_moved(n, s, low, d);
    algebra::lemma_multiple(n, low * d, n * s);
    algebra::identity_swapped(n, s, j, u);
    let out = n * (s - low);
    assert(out * d == n * s * s * j * u);
    let weth = out / big;
    algebra::lemma_quotient_back(out, big);
    algebra::identity_scaled(weth, d, big);
    algebra::lemma_multiple(d, weth * big, out);
}

/// What comes back of `a` WETH: `gain * a / (depth + drag * a)`.
proof fn lemma_returned(m: ExactMarket, a: real)
    requires
        is_sound(m),
        a >= 0real,
    ensures
        depth(m) + drag(m) * a >= depth(m),
        weth_received(m, usdc_received(m, a)) * (depth(m) + drag(m) * a) == gain(m) * a,
{
    let big = 1_000_000_000_000_000_000real;
    let mil = 1_000_000real;
    let k = (1real - m.sell_fee) * big;
    let j = (1real - m.buy_fee) * mil;
    let (r, l, s, n) = (m.sell_root, m.sell_liquidity, m.buy_root, m.buy_liquidity);
    let g = j * s;
    let v = r * (r * l + k * a) * mil;
    let u = usdc_received(m, a);
    lemma_positive(m);
    algebra::lemma_product_monotone(0real, drag(m), 0real, a);
    lemma_usdc(m, a);
    algebra::lemma_product_positive(1real - m.sell_fee, big);
    algebra::lemma_quotient_back(k * a * l, v);
    assert(u * v == k * a * l);
    algebra::lemma_product_monotone(0real, k, 0real, a);
    algebra::lemma_product_monotone(0real, k * a, 0real, l);
    algebra::lemma_cancel(0real, u, v);
    lemma_weth(m, u);
    let w = weth_received(m, u);
    let d = n + g * u;
    let c = n * s * s * j;
    // `w * (d * big) == c * u`, times `v`.
    algebra::lemma_multiple(v, w * (d * big), c * u);
    algebra::lemma_associative(c, u, v);
    algebra::lemma_multiple(c, u * v, k * a * l);
    algebra::identity_gain(c, k, a, l);
    assert((c * u) * v == gain(m) * a);
    algebra::identity_deep(n, g, u, v);
    algebra::lemma_multiple(g, u * v, k * a * l);
    algebra::identity_denominator(big, mil, n, r, l, k, a, g);
    algebra::lemma_multiple(big, d * v, n * v + g * (k * a * l));
    algebra::identity_front(d, big, v);
    assert((d * big) * v == depth(m) + drag(m) * a);
    algebra::lemma_associative(w, d * big, v);
    algebra::lemma_multiple(w, (d * big) * v, depth(m) + drag(m) * a);
}

/// The profit lies on or below each of its tangents, and off them by no more
/// than a multiple of the squared distance: `exact_slope` is its slope, and it
/// is concave.
pub proof fn law_profit_is_concave(m: ExactMarket, x: real, y: real)
    requires
        is_sound(m),
        x >= 0real,
        y >= 0real,
    ensures
        exact_profit(m, y) <= exact_profit(m, x) + exact_slope(m, x) * (y - x),
        exact_profit(m, x) + exact_slope(m, x) * (y - x) - exact_profit(m, y) <= m.eth_price * (
        gain(m) * drag(m) / (depth(m) * depth(m))) * (y - x) * (y - x),
{
    let (p, q, c, e) = (gain(m), depth(m), drag(m), m.eth_price);
    lemma_positive(m);
    lemma_returned(m, x);
    lemma_returned(m, y);
    let dx = q + c * x;
    let dy = q + c * y;
    let wx = weth_received(m, usdc_received(m, x));
    let wy = weth_received(m, usdc_received(m, y));
    algebra::lemma_product_positive(dx, dx);
    let f = p * q / (dx * dx);
    algebra::lemma_quotient_back(p * q, dx * dx);
    let h = y - x;
    let gap = wx + f * h - wy;
    let den = dx * dx * dy;
    // The gap below the tangent, times its denominator.
    algebra::identity_gap(wx, wy, f, h, dx, dy);
    algebra::lemma_multiple(dx * dy, wx * dx, p * x);
    algebra::lemma_multiple(h * dy, f * (dx * dx), p * q);
    algebra::lemma_multiple(dx * dx, wy * dy, p * y);
    algebra::identity_tangent(p, q, c, x, y);
    let square = h * h;
    assert(gap * den == p * q * c * square);
    algebra::lemma_product_positive(dx * dx, dy);
    algebra::lemma_square(h);
    algebra::lemma_product_positive(p, q);
    algebra::lemma_product_positive(p * q, c);
    algebra::lemma_product_monotone(0real, p * q * c, 0real, square);
    algebra::lemma_cancel(0real, gap, den);
    // The denominator is at least `q^3`.
    algebra::lemma_product_positive(q, q);
    algebra::lemma_product_positive(q * q, q);
    algebra::lemma_product_monotone(q, dx, q, dx);
    algebra::lemma_product_monotone(q * q, dx * dx, q, dy);
    let bound = p * c / (q * q);
    algebra::lemma_quotient_back(p * c, q * q);
    algebra::identity_bound(bound, square, q);
    algebra::lemma_multiple(square * q, bound * (q * q), p * c);
    algebra::identity_reorder(p, c, q, square);
    algebra::lemma_product_monotone(gap, gap, q * q * q, den);
    algebra::lemma_cancel(gap, bound * square, q * q * q);
    algebra::identity_profit(wx, wy, f, 1real + m.loan_rate, e, m.gas_cost, x, y);
    assert(exact_profit(m, x) + exact_slope(m, x) * h - exact_profit(m, y) == gap * e);
    algebra::lemma_product_monotone(0real, gap, 0real, e);
    algebra::lemma_product_monotone(gap, bound * square, e, e);
    algebra::identity_quadratic(bound, h, e);
}

/// A trade size at which the slope of the profit is zero is the most
/// profitable one.
pub proof fn law_flat_point_is_the_maximum(m: ExactMarket, x: real, y: real)
    requires
        is_sound(m),
        x >= 0real,
        y >= 0real,
        exact_slope(m, x) == 0real,
    ensures
        exact_profit(m, y) <= exact_profit(m, x),
{
    law_profit_is_concave(m, x, y);
    algebra::lemma_multiple(y - x, exact_slope(m, x), 0real);
}

/// In a pool without a fee, selling what a swap bought gives back what was
/// paid for it.
pub proof fn law_swap_is_undone(root: real, liquidity: real, amount: real)
    requires
        root > 0real,
        liquidity > 0real,
        amount >= 0real,
    ensures
        exact_weth_out(
            exact_raised_root(root, liquidity, 0real, amount),
            liquidity,
            0real,
            exact_usdc_out(root, liquidity, 0real, amount),
        ) == amount,
{
    let big = 1_000_000_000_000_000_000real;
    let mil = 1_000_000real;
    let (r, l, a) = (root, liquidity, amount);
    let moved = a * (1real - 0real) * big;
    let raised = r + moved / l;
    algebra::lemma_quotient_back(moved, l);
    algebra::lemma_plus(r, moved / l, l);
    algebra::lemma_product_positive(r, l);
    assert(raised * l == r * l + moved);
    algebra::lemma_positive_factor(raised, l);
    let p = 1real / r;
    let q = 1real / raised;
    algebra::lemma_quotient_back(1real, r);
    algebra::lemma_quotient_back(1real, raised);
    let out = l * (p - q);
    let usdc = out / mil;
    algebra::lemma_quotient_back(out, mil);
    let paid = usdc * (1real - 0real) * mil;
    assert(paid == out);
    let deepened = l + paid * raised;
    // `deepened == l * p * raised`, so that it lowers `raised` to `root`.
    algebra::identity_inverses(l, p, q, raised);
    algebra::lemma_multiple(l, q * raised, 1real);
    assert(deepened == l * (p * raised));
    algebra::identity_chain(r, l, p, raised);
    algebra::lemma_multiple(l * raised, p * r, 1real);
    assert(r * deepened == l * raised);
    algebra::lemma_product_positive(l, raised);
    algebra::lemma_positive_factor(deepened, r);
    algebra::lemma_quotient(l * raised, deepened, r);
    algebra::lemma_minus(raised, r, l);
    assert(l * (raised - r) == moved);
}

/// The gain of one pool with itself is no more than its depth.
proof fn lemma_one_pool(m: ExactMarket)
    requires
        is_sound(m),
        m.sell_root == m.buy_root,
        m.sell_liquidity == m.buy_liquidity,
    ensures
        gain(m) <= depth(m),
{
    let big = 1_000_000_000_000_000_000real;
    let mil = 1_000_000real;
    let k = (1real - m.sell_fee) * big;
    let j = (1real - m.buy_fee) * mil;
    let (s, n) = (m.buy_root, m.buy_liquidity);
    algebra::lemma_product_positive(1real - m.sell_fee, big);
    algebra::lemma_product_positive(1real - m.buy_fee, mil);
    algebra::lemma_product_monotone(1real - m.sell_fee, 1real, big, big);
    algebra::lemma_product_monotone(1real - m.buy_fee, 1real, mil, mil);
    algebra::lemma_product_positive(n, s);
    algebra::lemma_product_positive(n * s, s);
    algebra::lemma_product_positive(n * s * s, j);
    let c = n * s * s;
    algebra::lemma_product_monotone(c, c, j, mil);
    algebra::lemma_product_monotone(c * j, c * mil, k, big);
    algebra::lemma_product_positive(c * j, k);
    algebra::lemma_product_monotone(c * j * k, c * mil * big, n, n);
    algebra::identity_lined_up(big * mil, n, s);
    assert(c * mil * big * n == c * n * (big * mil)) by (nonlinear_arith);
}

/// Selling in a pool and buying back in the same one earns nothing: no more
/// WETH come back than went in, and the gas is lost.
pub proof fn law_one_pool_never_earns(m: ExactMarket, amount: real)
    requires
        is_sound(m),
        m.sell_root == m.buy_root,
        m.sell_liquidity == m.buy_liquidity,
        m.loan_rate >= 0real,
        amount >= 0real,
    ensures
        weth_received(m, usdc_received(m, amount)) <= amount,
        exact_profit(m, amount) <= -m.gas_cost,
{
    let a = amount;
    let w = weth_received(m, usdc_received(m, a));
    let d = depth(m) + drag(m) * a;
    lemma_positive(m);
    lemma_one_pool(m);
    lemma_returned(m, a);
    algebra::lemma_product_monotone(gain(m), d, a, a);
    algebra::identity_exchange(a, d);
    algebra::lemma_cancel(w, a, d);
    algebra::lemma_product_monotone(a, a, 1real, 1real + m.loan_rate);
    let e = m.eth_price;
    let short = a * (1real + m.loan_rate) - w;
    algebra::lemma_product_monotone(0real, short, e, e);
    algebra::lemma_minus(w, a * (1real + m.loan_rate), e);
    algebra::lemma_minus(a * (1real + m.loan_rate), w, e);
}

/// The most WETH that one more USDC buys in a pool.
pub open spec fn steepest(root: real, fee: real) -> real {
    root * root * ((1real - fee) * 1_000_000real) / 1_000_000_000_000_000_000real
}

/// More USDC buy no less WETH, and no more of it than at the start.
pub proof fn law_weth_out_is_smooth(root: real, liquidity: real, fee: real, u: real, v: real)
    requires
        root > 0real,
        liquidity > 0real,
        0real <= fee < 1real,
        0real <= u <= v,
    ensures
        ({
            let more = exact_weth_out(root, liquidity, fee, v) - exact_weth_out(
                root,
                liquidity,
                fee,
                u,
            );
            0real <= more <= steepest(root, fee) * (v - u)
        }),
{
    let m = ExactMarket {
        sell_root: 1real,
        sell_liquidity: 1real,
        sell_fee: 0real,
        buy_root: root,
        buy_liquidity: liquidity,
        buy_fee: fee,
        gas_cost: 0real,
        loan_rate: 0real,
        eth_price: 1real,
    };
    lemma_weth(m, u);
    lemma_weth(m, v);
    let big = 1_000_000_000_000_000_000real;
    let j = (1real - fee) * 1_000_000real;
    let (s, n) = (root, liquidity);
    let g = j * s;
    let c = n * s * s * j;
    let (wu, wv) = (
        exact_weth_out(root, liquidity, fee, u),
        exact_weth_out(root, liquidity, fee, v),
    );
    let (du, dv) = (n + g * u, n + g * v);
    let h = wv - wu;
    algebra::lemma_product_positive(1real - fee, 1_000_000real);
    algebra::lemma_product_positive(j, s);
    algebra::lemma_product_monotone(0real, g, 0real, u);
    algebra::lemma_product_monotone(0real, g, 0real, v);
    // `h * big * (du * dv) == c * (v * du - u * dv)`
    algebra::identity_common(wv, wu, big, du, dv);
    algebra::lemma_multiple(du, wv * (dv * big), c * v);
    algebra::lemma_multiple(dv, wu * (du * big), c * u);
    algebra::lemma_associative(c, v, du);
    algebra::lemma_associative(c, u, dv);
    algebra::lemma_minus(v * du, u * dv, c);
    algebra::identity_cross(n, g, v, u);
    algebra::lemma_multiple(c, v * du - u * dv, n * (v - u));
    assert((h * big) * (du * dv) == c * (n * (v - u)));
    let mu = s * s * j * (v - u);
    algebra::lemma_product_positive(s, s);
    algebra::lemma_product_positive(s * s, j);
    algebra::lemma_product_monotone(0real, s * s * j, 0real, v - u);
    algebra::identity_squares(n, s, j, v - u);
    algebra::lemma_product_monotone(n, du, n, dv);
    algebra::lemma_product_positive(n, n);
    algebra::lemma_product_monotone(n * n, du * dv, mu, mu);
    algebra::identity_exchange(du * dv, mu);
    algebra::lemma_cancel(h * big, mu, du * dv);
    algebra::lemma_product_monotone(0real, n * n, 0real, mu);
    algebra::lemma_cancel(0real, h * big, du * dv);
    algebra::identity_shared(s * s * j, v - u);
}

/// At a higher root the same USDC buy no less WETH, and no more than the rise
/// of the root is worth.
pub proof fn law_weth_out_follows_the_root(
    low: real,
    high: real,
    liquidity: real,
    fee: real,
    amount: real,
)
    requires
        0real < low <= high,
        liquidity > 0real,
        0real <= fee < 1real,
        amount >= 0real,
    ensures
        ({
            let more = exact_weth_out(high, liquidity, fee, amount) - exact_weth_out(
                low,
                liquidity,
                fee,
                amount,
            );
            0real <= more <= liquidity * (high - low) / 1_000_000_000_000_000_000real
        }),
{
    let n = liquidity;
    let h = high - low;
    let c = amount * (1real - fee) * 1_000_000real;
    algebra::lemma_product_monotone(0real, amount, 0real, 1real - fee);
    algebra::lemma_product_monotone(0real, c, 0real, low);
    algebra::lemma_product_monotone(0real, c, 0real, high);
    let (dl, dh) = (n + c * low, n + c * high);
    let (bl, bh) = (n * low / dl, n * high / dh);
    algebra::lemma_quotient_back(n * low, dl);
    algebra::lemma_quotient_back(n * high, dh);
    // `(bh - bl) * (dl * dh) == n * (n * h)`
    algebra::identity_common(bh, bl, 1real, dl, dh);
    algebra::lemma_multiple(dl, bh * (dh * 1real), n * high);
    algebra::lemma_multiple(dh, bl * (dl * 1real), n * low);
    algebra::lemma_associative(n, high, dl);
    algebra::lemma_associative(n, low, dh);
    algebra::lemma_minus(high * dl, low * dh, n);
    algebra::identity_cross(n, c, high, low);
    algebra::lemma_multiple(n, high * dl - low * dh, n * h);
    let fall = bh - bl;
    assert((fall * 1real) * (dl * dh) == n * (n * h));
    algebra::lemma_associative(n, n, h);
    algebra::lemma_product_positive(n, n);
    algebra::lemma_product_monotone(n, dl, n, dh);
    algebra::lemma_product_monotone(0real, n * n, 0real, h);
    algebra::lemma_product_monotone(n * n, dl * dh, h, h);
    algebra::identity_exchange(dl * dh, h);
    algebra::lemma_cancel(fall, h, dl * dh);
    algebra::lemma_cancel(0real, fall, dl * dh);
    algebra::lemma_minus(high - bh, low - bl, n);
    algebra::lemma_product_monotone(0real, n, 0real, h - fall);
    algebra::lemma_product_monotone(n, n, h - fall, h);
}

/// The slope of the slope of the profit.
pub open spec fn exact_curvature(m: ExactMarket, amount: real) -> real {
    let d = depth(m) + drag(m) * amount;
    -(2real * (gain(m) * depth(m) * drag(m)) / (d * d * d)) * m.eth_price
}

/// The trade size after a Newton step.
pub open spec fn exact_newton_step(m: ExactMarket, amount: real) -> real {
    amount - exact_slope(m, amount) / exact_curvature(m, amount)
}

/// Where a Newton step leads, as a multiple of the denominators.
proof fn lemma_newton_step(m: ExactMarket, x: real)
    requires
        is_sound(m),
        x >= 0real,
    ensures
        ({
            let pq = gain(m) * depth(m);
            let d = depth(m) + drag(m) * x;
            let next = exact_newton_step(m, x);
            let e = depth(m) + drag(m) * next;
            &&& pq > 0real
            &&& d > 0real
            &&& (1real + m.loan_rate) * (d * d * d) == pq * (3real * d - 2real * e)
            &&& exact_slope(m, x) >= 0real ==> next >= x
        }),
{
    lemma_positive(m);
    lemma_returned(m, x);
    let (p, q, r) = (gain(m), depth(m), drag(m));
    let pq = p * q;
    let c = 1real + m.loan_rate;
    let price = m.eth_price;
    let d = q + r * x;
    algebra::lemma_product_positive(p, q);
    algebra::lemma_product_positive(d, d);
    algebra::lemma_product_positive(d * d, d);
    let cube = d * d * d;
    let f = pq / (d * d);
    algebra::lemma_quotient_back(pq, d * d);
    algebra::lemma_product_positive(pq, r);
    let k = 2real * (p * q * r) / cube;
    algebra::lemma_quotient_back(2real * (p * q * r), cube);
    algebra::lemma_positive_factor(k, cube);
    algebra::lemma_product_positive(k, price);
    let slope = exact_slope(m, x);
    let curvature = exact_curvature(m, x);
    assert(slope == (f - c) * price);
    algebra::lemma_minus(0real, k, price);
    assert(curvature == -(k * price));
    let next = exact_newton_step(m, x);
    let t = next - x;
    // `t * k == f - c`
    algebra::lemma_quotient_back(slope, curvature);
    let ratio = slope / curvature;
    assert(t == -ratio);
    algebra::lemma_minus(0real, ratio, curvature);
    algebra::lemma_minus(0real, k * price, t);
    assert(t * (k * price) == slope);
    algebra::lemma_associative(t, k, price);
    algebra::lemma_cancel(t * k, f - c, price);
    algebra::lemma_cancel(f - c, t * k, price);
    // times the cube
    algebra::lemma_associative(t, k, cube);
    algebra::lemma_multiple(t, k * cube, 2real * (pq * r));
    algebra::lemma_minus(f, c, cube);
    algebra::lemma_multiple(cube, t * k, f - c);
    algebra::lemma_associative(f, d * d, d);
    algebra::lemma_multiple(d, f * (d * d), pq);
    assert(t * (2real * (pq * r)) == pq * d - c * cube);
    let e = q + r * next;
    algebra::lemma_minus(next, x, r);
    assert(e - d == r * t);
    algebra::identity_doubled(pq, r, t);
    algebra::identity_thrice(pq, d, e);
    algebra::lemma_multiple(pq, e - d, r * t);
    if slope >= 0real {
        algebra::lemma_cancel(0real, t, k * price);
    }
}

/// A Newton step never leads beyond the most profitable trade size: where it
/// ends the profit does not fall. From a size at which the profit rises it
/// leads up, to a size that is no less profitable.
pub proof fn law_newton_step_never_overshoots(m: ExactMarket, x: real)
    requires
        is_sound(m),
        x >= 0real,
        exact_newton_step(m, x) >= 0real,
    ensures
        ({
            let next = exact_newton_step(m, x);
            &&& exact_slope(m, next) >= 0real
            &&& exact_slope(m, x) >= 0real ==> next >= x && exact_profit(m, next) >= exact_profit(
                m,
                x,
            )
        }),
{
    lemma_newton_step(m, x);
    lemma_positive(m);
    let pq = gain(m) * depth(m);
    let c = 1real + m.loan_rate;
    let d = depth(m) + drag(m) * x;
    let next = exact_newton_step(m, x);
    let e = depth(m) + drag(m) * next;
    lemma_returned(m, next);
    let cube = d * d * d;
    algebra::lemma_product_positive(d, d);
    algebra::lemma_product_positive(d * d, d);
    algebra::lemma_product_positive(e, e);
    // `c * e^2 * d^3 <= pq * d^3`
    algebra::lemma_multiple(e * e, c * cube, pq * (3real * d - 2real * e));
    algebra::lemma_associative(pq, 3real * d - 2real * e, e * e);
    algebra::identity_cubic(d, e);
    algebra::lemma_square(d - e);
    algebra::lemma_product_monotone(0real, (d - e) * (d - e), 0real, d + 2real * e);
    let left = cube - (3real * d - 2real * e) * (e * e);
    algebra::lemma_product_monotone(0real, pq, 0real, left);
    algebra::lemma_minus(cube, (3real * d - 2real * e) * (e * e), pq);
    assert((c * cube) * (e * e) == (c * (e * e)) * cube) by {
        algebra::lemma_associative(c, cube, e * e);
        algebra::identity_exchange(cube, e * e);
        algebra::lemma_associative(c, e * e, cube);
    }
    algebra::lemma_cancel(c * (e * e), pq, cube);
    let f = pq / (e * e);
    algebra::lemma_quotient_back(pq, e * e);
    algebra::lemma_cancel(c, f, e * e);
    algebra::lemma_product_monotone(0real, f - c, 0real, m.eth_price);
    if exact_slope(m, x) >= 0real {
        law_profit_is_concave(m, next, x);
        let slope = exact_slope(m, next);
        algebra::lemma_product_monotone(0real, slope, 0real, next - x);
        algebra::lemma_minus(0real, next - x, slope);
    }
}

} // verus!
