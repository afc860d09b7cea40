//! Swaps at any fee, one that takes more than everything as well.
use crate::accuracy;
use crate::algebra;
use crate::double;
use crate::double::Double;
use crate::fidelity;
use crate::math;
use crate::math::{ONE, Q96, USDC_UNIT, WETH_UNIT};
use crate::order;
use crate::scaling;
use vstd::prelude::*;

verus! {

/// A rounded multiple of a number that is close to another one.
proof fn lemma_rounded_multiple(x: real, y: real, k: real, scale: real, w: real, z: real)
    requires
        0real <= k <= 100real,
        w >= 0real,
        -scale <= y <= scale,
        accuracy::within(x, y, k, scale),
        accuracy::within(z, x * w, 1real, accuracy::size(x * w)),
    ensures
        accuracy::within(z, y * w, k + 2real, scale * w),
        -(scale * w) <= y * w <= scale * w,
{
    fidelity::lemma_multiplied(x, y, k, scale, w);
    fidelity::lemma_size_multiple(y, w, scale);
    algebra::identity_exchange(w, y);
    algebra::identity_exchange(w, scale);
    algebra::lemma_product_monotone(0real, w, 0real, scale);
    let t = scale * w;
    algebra::lemma_product_monotone(k, 100real, t, t);
    algebra::lemma_plus(k, 2real, t);
    lemma_last(x * w, y * w, k * t, t, z);
}

/// One more rounding.
proof fn lemma_last(x: real, y: real, kt: real, t: real, z: real)
    requires
        -t <= y <= t,
        0real <= kt <= 100real * t,
        (x - y) * 9_007_199_254_740_992real <= kt,
        (y - x) * 9_007_199_254_740_992real <= kt,
        accuracy::within(z, x, 1real, accuracy::size(x)),
    ensures
        (z - y) * 9_007_199_254_740_992real <= kt + 2real * t,
        (y - z) * 9_007_199_254_740_992real <= kt + 2real * t,
{
}

/// What a fee leaves of one, which may be less than nothing.
proof fn lemma_left(fee: Double)
    requires
        order::unsigned(fee),
        double::less_or_equal(fee, scaling::power(60)),
    ensures
        ({
            let part = double::difference(math::number(ONE), fee);
            let left = 1real - accuracy::real_of(fee);
            &&& fidelity::is_sized(part, -53, 60)
            &&& accuracy::within(accuracy::real_of(part), left, 1real, accuracy::size(left))
        }),
{
    let one = math::number(ONE);
    let part = double::difference(one, fee);
    fidelity::lemma_units();
    scaling::lemma_power(0);
    scaling::lemma_power(60);
    if double::less(fee, one) {
        fidelity::lemma_part(fee);
        fidelity::lemma_widened(part, -53, 0, -53, 60);
        fidelity::lemma_between(part, -53, 60);
        assert(double::absolute(part) == part);
    } else {
        assert(scaling::between(fee, 0, 60));
        fidelity::lemma_widened(one, 0, 0, 0, 60);
        fidelity::lemma_between(one, 0, 60);
        fidelity::lemma_difference_sized(one, fee, 0, 60);
        fidelity::lemma_net(one, fee);
        scaling::lemma_power(-53);
        scaling::lemma_power(-52);
    }
}

/// What is left of an amount after the fee is the amount less that part of it,
/// up to rounding: for any fee up to 2^60 times everything.
pub proof fn law_fee_takes_its_part(amount: Double, fee: Double, low: int, high: int)
    requires
        -800 <= low <= high <= 800,
        scaling::between(amount, low, high),
        order::unsigned(fee),
        double::less_or_equal(fee, scaling::power(60)),
    ensures
        ({
            let a = accuracy::real_of(amount);
            let left = 1real - accuracy::real_of(fee);
            &&& a > 0real
            &&& fidelity::is_sized(math::after_fee(amount, fee), low - 53, high + 60)
            &&& accuracy::within(
                accuracy::real_of(math::after_fee(amount, fee)),
                left * a,
                3real,
                accuracy::size(left) * a,
            )
            &&& -(accuracy::size(left) * a) <= left * a <= accuracy::size(left) * a
        }),
{
    let part = double::difference(math::number(ONE), fee);
    let (a, p) = (accuracy::real_of(amount), accuracy::real_of(part));
    let left = 1real - accuracy::real_of(fee);
    lemma_left(fee);
    fidelity::lemma_between(amount, low, high);
    fidelity::lemma_product_sized(amount, part, low, high, -53, 60);
    algebra::identity_exchange(a, p);
    lemma_rounded_multiple(
        p,
        left,
        1real,
        accuracy::size(left),
        a,
        accuracy::real_of(math::after_fee(amount, fee)),
    );
}

/// A number of a known size is one.
proof fn lemma_sized_finite(x: Double, low: int, high: int)
    requires
        -1022 <= low <= high <= 1000,
        fidelity::is_sized(x, low, high),
    ensures
        x.is_finite(),
        x.magnitude() <= scaling::power(1000).bits,
{
    scaling::lemma_power(high);
    scaling::lemma_power(1000);
    assert(double::absolute(x).magnitude() == x.magnitude());
    if !x.is_zero() {
        fidelity::lemma_between(double::absolute(x), low, high);
    }
}

/// The root after WETH went in is the root and what is left of the amount, in
/// base units, over the liquidity, up to rounding.
pub proof fn law_raised_root_is_accurate(
    root: Double,
    liquidity: Double,
    amount: Double,
    fee: Double,
)
    requires
        scaling::between(root, -128, 128),
        scaling::between(liquidity, -64, 192),
        scaling::between(amount, -128, 128),
        order::unsigned(fee),
        double::less_or_equal(fee, scaling::power(60)),
    ensures
        ({
            let up = math::raised_root(root, liquidity, amount, fee);
            let left = 1real - accuracy::real_of(fee);
            let per = accuracy::real_of(amount) * 1_000_000_000_000_000_000real * (1real
                / accuracy::real_of(liquidity));
            &&& up.is_finite()
            &&& accuracy::within(
                accuracy::real_of(up),
                accuracy::real_of(root) + left * per,
                9real,
                accuracy::real_of(root) + accuracy::size(left) * per,
            )
        }),
{
    let unit = math::number(WETH_UNIT);
    let rest = math::after_fee(amount, fee);
    let raw = double::product(rest, unit);
    let moved = double::quotient(raw, liquidity);
    let (a, l) = (accuracy::real_of(amount), accuracy::real_of(liquidity));
    let left = 1real - accuracy::real_of(fee);
    let wide = accuracy::size(left);
    law_fee_takes_its_part(amount, fee, -128, 128);
    fidelity::lemma_units();
    fidelity::lemma_between(root, -128, 128);
    fidelity::lemma_between(liquidity, -64, 192);
    order::law_product_commutes(rest, unit);
    fidelity::lemma_product_sized(unit, rest, 59, 60, -181, 188);
    algebra::identity_exchange(accuracy::real_of(unit), accuracy::real_of(rest));
    let u = 1_000_000_000_000_000_000real;
    lemma_rounded_multiple(
        accuracy::real_of(rest),
        left * a,
        3real,
        wide * a,
        u,
        accuracy::real_of(raw),
    );
    fidelity::lemma_quotient_sized(raw, liquidity, -122, 248, -64, 192);
    fidelity::lemma_inverse(accuracy::real_of(raw), l);
    lemma_rounded_multiple(
        accuracy::real_of(raw),
        left * a * u,
        5real,
        wide * a * u,
        1real / l,
        accuracy::real_of(moved),
    );
    lemma_sized_finite(moved, -314, 312);
    lemma_sum_of(root, moved, 128);
    algebra::identity_gathered(left, a, u, 1real / l);
    algebra::identity_gathered(wide, a, u, 1real / l);
    lemma_added(
        accuracy::real_of(root),
        accuracy::real_of(moved),
        left * a * u * (1real / l),
        wide * a * u * (1real / l),
        accuracy::real_of(double::sum(root, moved)),
    );
}

/// A sum with a positive number is one.
proof fn lemma_sum_of(x: Double, y: Double, high: int)
    requires
        -128 <= high <= 1000,
        scaling::between(x, -128, high),
        y.is_finite(),
        y.magnitude() <= scaling::power(1000).bits,
    ensures
        double::sum(x, y).is_finite(),
        accuracy::within(
            accuracy::real_of(double::sum(x, y)),
            accuracy::real_of(x) + accuracy::real_of(y),
            1real,
            accuracy::size(accuracy::real_of(x) + accuracy::real_of(y)),
        ),
{
    fidelity::lemma_between(x, -128, high);
    scaling::lemma_power(high);
    scaling::lemma_power(1000);
    fidelity::lemma_finite_sum(x, y);
    accuracy::law_sum_is_accurate(x, y);
}

/// A number that is close to another one, added to a third.
proof fn lemma_added(r: real, x: real, y: real, scale: real, z: real)
    requires
        r > 0real,
        -scale <= y <= scale,
        accuracy::within(x, y, 7real, scale),
        accuracy::within(z, r + x, 1real, accuracy::size(r + x)),
    ensures
        accuracy::within(z, r + y, 9real, r + scale),
{
}

/// The liquidity and what USDC add to it: what is left of the amount, in base
/// units, times the root, up to rounding.
pub proof fn law_deepened_liquidity_is_accurate(
    root: Double,
    liquidity: Double,
    amount: Double,
    fee: Double,
)
    requires
        scaling::between(root, -128, 128),
        scaling::between(liquidity, -64, 192),
        scaling::between(amount, -389, 301),
        order::unsigned(fee),
        double::less_or_equal(fee, scaling::power(60)),
    ensures
        ({
            let deep = math::deepened(root, liquidity, amount, fee);
            let left = 1real - accuracy::real_of(fee);
            let per = accuracy::real_of(amount) * 1_000_000real * accuracy::real_of(root);
            &&& deep.is_finite()
            &&& accuracy::within(
                accuracy::real_of(deep),
                accuracy::real_of(liquidity) + left * per,
                9real,
                accuracy::real_of(liquidity) + accuracy::size(left) * per,
            )
        }),
{
    let unit = math::number(USDC_UNIT);
    let rest = math::after_fee(amount, fee);
    let raw = double::product(rest, unit);
    let moved = double::product(raw, root);
    let (a, s) = (accuracy::real_of(amount), accuracy::real_of(root));
    let left = 1real - accuracy::real_of(fee);
    let wide = accuracy::size(left);
    law_fee_takes_its_part(amount, fee, -389, 301);
    fidelity::lemma_units();
    fidelity::lemma_between(root, -128, 128);
    fidelity::lemma_between(liquidity, -64, 192);
    order::law_product_commutes(rest, unit);
    fidelity::lemma_product_sized(unit, rest, 19, 20, -442, 361);
    algebra::identity_exchange(accuracy::real_of(unit), accuracy::real_of(rest));
    let u = 1_000_000real;
    lemma_rounded_multiple(
        accuracy::real_of(rest),
        left * a,
        3real,
        wide * a,
        u,
        accuracy::real_of(raw),
    );
    order::law_product_commutes(raw, root);
    fidelity::lemma_product_sized(root, raw, -128, 128, -423, 381);
    algebra::identity_exchange(s, accuracy::real_of(raw));
    lemma_rounded_multiple(
        accuracy::real_of(raw),
        left * a * u,
        5real,
        wide * a * u,
        s,
        accuracy::real_of(moved),
    );
    lemma_sized_finite(moved, -551, 509);
    fidelity::lemma_widened(liquidity, -64, 192, -128, 192);
    lemma_sum_of(liquidity, moved, 192);
    algebra::identity_gathered(left, a, u, s);
    algebra::identity_gathered(wide, a, u, s);
    lemma_added(
        accuracy::real_of(liquidity),
        accuracy::real_of(moved),
        left * a * u * s,
        wide * a * u * s,
        accuracy::real_of(double::sum(liquidity, moved)),
    );
}

/// The USDC that a swap gives are the liquidity times what the inverse of the
/// root moves by, in USDC, up to rounding, whichever way it moves.
pub proof fn law_usdc_follow_the_root(
    sqrt_price: Double,
    liquidity: Double,
    amount: Double,
    fee: Double,
)
    requires
        scaling::between(sqrt_price, -32, 224),
        scaling::between(liquidity, -64, 192),
        scaling::between(amount, -128, 128),
        scaling::between(
            math::raised_root(
                double::quotient(sqrt_price, math::number(Q96)),
                liquidity,
                amount,
                fee,
            ),
            -128,
            253,
        ),
    ensures
        ({
            let r = fidelity::exact_root(sqrt_price);
            let up = accuracy::real_of(
                math::raised_root(
                    double::quotient(sqrt_price, math::number(Q96)),
                    liquidity,
                    amount,
                    fee,
                ),
            );
            let l = accuracy::real_of(liquidity);
            accuracy::within(
                accuracy::real_of(math::usdc_out(sqrt_price, liquidity, amount, fee)),
                accuracy::size(1real / r - 1real / up) * l / 1_000_000real,
                7real,
                (1real / r + 1real / up) * l / 1_000_000real,
            )
        }),
{
    let one = math::number(ONE);
    let root = double::quotient(sqrt_price, math::number(Q96));
    let up = math::raised_root(root, liquidity, amount, fee);
    let (before, after) = (double::quotient(one, root), double::quotient(one, up));
    let fall = double::difference(before, after);
    let given = double::product(liquidity, fall);
    let out = double::quotient(given, math::number(USDC_UNIT));
    fidelity::lemma_root(sqrt_price);
    fidelity::lemma_units();
    fidelity::lemma_between(one, 0, 0);
    fidelity::lemma_between(root, -128, 128);
    fidelity::lemma_between(up, -128, 253);
    fidelity::lemma_between(sqrt_price, -32, 224);
    fidelity::lemma_between(liquidity, -64, 192);
    fidelity::lemma_between(amount, -128, 128);
    scaling::lemma_quotient_between(one, root, 0, 0, -128, 128);
    scaling::lemma_quotient_between(one, up, 0, 0, -128, 253);
    fidelity::lemma_between(before, -128, 128);
    fidelity::lemma_between(after, -253, 128);
    accuracy::law_quotient_is_accurate(one, root);
    accuracy::law_quotient_is_accurate(one, up);
    fidelity::lemma_widened(before, -128, 128, -253, 128);
    fidelity::lemma_difference_sized(before, after, -253, 128);
    fidelity::lemma_net(before, after);
    fidelity::lemma_product_sized(liquidity, fall, -64, 192, -305, 128);
    fidelity::lemma_quotient_sized(given, math::number(USDC_UNIT), -369, 320, 19, 20);
    fidelity::lemma_absolute(out);
    assert(math::usdc_out(sqrt_price, liquidity, amount, fee) == double::absolute(out));
    let (r, w) = (accuracy::real_of(root), accuracy::real_of(up));
    fidelity::lemma_inverse(1real, r);
    fidelity::lemma_inverse(1real, w);
    algebra::identity_exchange(accuracy::real_of(liquidity), accuracy::real_of(fall));
    lemma_moved(
        1real / r,
        1real / w,
        accuracy::real_of(before),
        accuracy::real_of(after),
        accuracy::real_of(fall),
        accuracy::real_of(liquidity),
        accuracy::real_of(given),
    );
    lemma_scaled(
        accuracy::real_of(given),
        (1real / r - 1real / w) * accuracy::real_of(liquidity),
        (1real / r + 1real / w) * accuracy::real_of(liquidity),
        accuracy::real_of(out),
    );
    lemma_size_times(1real / r - 1real / w, accuracy::real_of(liquidity));
}

/// A rounded difference of rounded numbers, times a positive one.
proof fn lemma_moved(p: real, q: real, x: real, y: real, d: real, l: real, given: real)
    requires
        p > 0real,
        q > 0real,
        l > 0real,
        accuracy::within(x, p, 1real, accuracy::size(p)),
        accuracy::within(y, q, 1real, accuracy::size(q)),
        accuracy::within(d, x - y, 1real, accuracy::size(x - y)),
        accuracy::within(given, d * l, 1real, accuracy::size(d * l)),
    ensures
        accuracy::within(given, (p - q) * l, 5real, (p + q) * l),
        -((p + q) * l) <= (p - q) * l <= (p + q) * l,
{
    assert(accuracy::within(d, p - q, 3real, p + q));
    lemma_rounded_multiple(d, p - q, 3real, p + q, l, given);
}

/// Over a million, without the sign.
proof fn lemma_scaled(given: real, full: real, scale: real, out: real)
    requires
        -scale <= full <= scale,
        accuracy::within(given, full, 5real, scale),
        accuracy::within(
            out,
            given / 1_000_000real,
            1real,
            accuracy::size(given / 1_000_000real),
        ),
    ensures
        accuracy::within(
            accuracy::size(out),
            accuracy::size(full) / 1_000_000real,
            7real,
            scale / 1_000_000real,
        ),
{
}

/// The size of a multiple by a positive number.
proof fn lemma_size_times(x: real, w: real)
    requires
        w > 0real,
    ensures
        accuracy::size(x * w) == accuracy::size(x) * w,
{
    if x >= 0real {
        algebra::lemma_product_monotone(0real, x, 0real, w);
    } else {
        algebra::lemma_product_monotone(0real, -x, 0real, w);
        algebra::lemma_minus(0real, x, w);
        algebra::lemma_product_positive(-x, w);
    }
}

/// The WETH that a swap gives are the liquidity times what the root moves by, in
/// WETH, up to rounding, whichever way it moves: to the product of the liquidity
/// and the root over the deepened liquidity.
pub proof fn law_weth_follow_the_root(
    sqrt_price: Double,
    liquidity: Double,
    amount: Double,
    fee: Double,
)
    requires
        scaling::between(sqrt_price, -32, 224),
        scaling::between(liquidity, -64, 192),
        scaling::between(amount, -389, 301),
        scaling::between(
            math::deepened(
                double::quotient(sqrt_price, math::number(Q96)),
                liquidity,
                amount,
                fee,
            ),
            -64,
            490,
        ),
    ensures
        ({
            let s = fidelity::exact_root(sqrt_price);
            let n = accuracy::real_of(liquidity);
            let deep = accuracy::real_of(
                math::deepened(
                    double::quotient(sqrt_price, math::number(Q96)),
                    liquidity,
                    amount,
                    fee,
                ),
            );
            let to = n * s * (1real / deep);
            accuracy::within(
                accuracy::real_of(math::weth_out(sqrt_price, liquidity, amount, fee)),
                accuracy::size(s - to) * n / 1_000_000_000_000_000_000real,
                9real,
                (s + to) * n / 1_000_000_000_000_000_000real,
            )
        }),
{
    let root = double::quotient(sqrt_price, math::number(Q96));
    let deep = math::deepened(root, liquidity, amount, fee);
    let held = double::product(liquidity, root);
    let low = double::quotient(held, deep);
    fidelity::lemma_root(sqrt_price);
    fidelity::lemma_between(root, -128, 128);
    fidelity::lemma_between(liquidity, -64, 192);
    fidelity::lemma_between(deep, -64, 490);
    scaling::lemma_product_between(liquidity, root, -64, 192, -128, 128);
    scaling::lemma_quotient_between(held, deep, -192, 320, -64, 490);
    fidelity::lemma_between(held, -192, 320);
    fidelity::lemma_between(low, -682, 384);
    accuracy::law_product_is_accurate(liquidity, root);
    accuracy::law_quotient_is_accurate(held, deep);
    let (s, n, d) = (
        accuracy::real_of(root),
        accuracy::real_of(liquidity),
        accuracy::real_of(deep),
    );
    let h = accuracy::real_of(held);
    fidelity::lemma_inverse(h, d);
    algebra::lemma_product_positive(n, s);
    algebra::lemma_product_positive(n * s, 1real / d);
    let to = n * s * (1real / d);
    lemma_rounded_multiple(h, n * s, 1real, n * s, 1real / d, accuracy::real_of(low));
    fidelity::lemma_widened(root, -128, 128, -682, 384);
    fidelity::lemma_weth_given(liquidity, root, low);
    fidelity::lemma_weth_form(sqrt_price, liquidity, amount, fee);
    let fall = double::difference(root, low);
    let given = double::product(liquidity, fall);
    let out = double::quotient(given, math::number(WETH_UNIT));
    fidelity::lemma_absolute(out);
    algebra::identity_exchange(n, accuracy::real_of(fall));
    lemma_lowered(
        s,
        to,
        accuracy::real_of(low),
        accuracy::real_of(fall),
        n,
        accuracy::real_of(given),
    );
    lemma_scaled_down(
        accuracy::real_of(given),
        (s - to) * n,
        (s + to) * n,
        accuracy::real_of(out),
    );
    lemma_size_times(s - to, n);
}

/// A rounded difference of a number and a rounded one, times a positive one.
proof fn lemma_lowered(p: real, q: real, y: real, d: real, l: real, given: real)
    requires
        p > 0real,
        q > 0real,
        l > 0real,
        accuracy::within(y, q, 3real, q),
        accuracy::within(d, p - y, 1real, accuracy::size(p - y)),
        accuracy::within(given, d * l, 1real, accuracy::size(d * l)),
    ensures
        accuracy::within(given, (p - q) * l, 7real, (p + q) * l),
        -((p + q) * l) <= (p - q) * l <= (p + q) * l,
{
    assert(accuracy::within(d, p - q, 5real, p + q));
    lemma_rounded_multiple(d, p - q, 5real, p + q, l, given);
}

/// Over 10^18, without the sign.
proof fn lemma_scaled_down(given: real, full: real, scale: real, out: real)
    requires
        -scale <= full <= scale,
        accuracy::within(given, full, 7real, scale),
        accuracy::within(
            out,
            given / 1_000_000_000_000_000_000real,
            1real,
            accuracy::size(given / 1_000_000_000_000_000_000real),
        ),
    ensures
        accuracy::within(
            accuracy::size(out),
            accuracy::size(full) / 1_000_000_000_000_000_000real,
            9real,
            scale / 1_000_000_000_000_000_000real,
        ),
{
}

/// Where a fee leaves less than nothing of the root, or of the liquidity, a swap
/// gives nothing.
pub proof fn law_nothing_beyond_the_pool(
    sqrt_price: Double,
    liquidity: Double,
    amount: Double,
    fee: Double,
)
    ensures
        ({
            let root = double::quotient(sqrt_price, math::number(Q96));
            let zero = math::number(math::ZERO);
            &&& double::less_or_equal(math::raised_root(root, liquidity, amount, fee), zero)
                ==> math::usdc_out(sqrt_price, liquidity, amount, fee) == zero
            &&& double::less_or_equal(math::deepened(root, liquidity, amount, fee), zero)
                ==> math::weth_out(sqrt_price, liquidity, amount, fee) == zero
        }),
{
}

} // verus!
