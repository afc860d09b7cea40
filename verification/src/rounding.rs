//! Rounding of exact non-negative rationals to the nearest binary64 magnitude.
//!
//! Every finite binary64 magnitude is a whole number of units of 2^-1074, the
//! smallest positive subnormal. A rational `n / d` below is measured in those
//! units, so rounding needs no negative exponents.
use vstd::arithmetic::div_mod::*;
use vstd::arithmetic::mul::*;
use vstd::arithmetic::power2::*;
use vstd::prelude::*;

verus! {

/// The weight of the lowest bit of the exponent field, 2^52.
pub const EXPONENT_STEP: u64 = 0x0010_0000_0000_0000;

/// The bit pattern of positive infinity.
pub const INFINITY_BITS: u64 = 0x7ff0_0000_0000_0000;

/// `n / d` rounded to the nearest integer, ties to the even one.
pub open spec fn half_even(n: nat, d: nat) -> nat {
    let quotient = n / d;
    let twice_rest = 2 * (n % d);
    if twice_rest < d || (twice_rest == d && quotient % 2 == 0) {
        quotient
    } else {
        quotient + 1
    }
}

/// Whether consecutive binary64 magnitudes around `n / d` are `2^k` units
/// apart: `n / d` lies below `2^(53+k)`, and at `2^(52+k)` or above unless it
/// is in the lowest range.
pub open spec fn is_spacing(n: nat, d: nat, k: nat) -> bool {
    &&& n < d * pow2(53 + k)
    &&& (k == 0 || n >= d * pow2(52 + k))
}

/// The exponent of the spacing of binary64 magnitudes around `n / d`.
pub open spec fn spacing(n: nat, d: nat) -> nat {
    choose|k: nat| is_spacing(n, d, k)
}

/// The bit pattern (sign bit clear) of the binary64 magnitude nearest to
/// `n / d` units, ties to the even significand, infinity on overflow.
///
/// With spacing `2^k` and significand `m`, the pattern is `k * 2^52 + m`: the
/// implicit leading bit of `m` carries into the exponent field.
pub open spec fn round(n: nat, d: nat) -> nat {
    let k = spacing(n, d);
    let bits = k * EXPONENT_STEP as nat + half_even(n, d * pow2(k));
    if bits < INFINITY_BITS {
        bits
    } else {
        INFINITY_BITS as nat
    }
}

/// The numerator of `n * 2^e`.
pub open spec fn scaled_numerator(n: nat, e: int) -> nat {
    if e >= 0 {
        n * pow2(e as nat)
    } else {
        n
    }
}

/// The denominator of `n * 2^e`.
pub open spec fn scaled_denominator(e: int) -> nat {
    if e >= 0 {
        1
    } else {
        pow2((-e) as nat)
    }
}

/// `2^b` is no smaller than `2^a` for `a <= b`.
pub proof fn lemma_pow2_monotone(a: nat, b: nat)
    requires
        a <= b,
    ensures
        pow2(a) <= pow2(b),
{
    if a < b {
        lemma_pow2_strictly_increases(a, b);
    }
}

/// A rational lies in the range of one spacing only.
pub proof fn lemma_spacing_unique(n: nat, d: nat, j: nat, k: nat)
    requires
        d > 0,
        is_spacing(n, d, j),
        is_spacing(n, d, k),
    ensures
        j == k,
    decreases j,
{
    if j < k {
        lemma_pow2_monotone(53 + j, 52 + k);
        lemma_mul_inequality(pow2(53 + j) as int, pow2(52 + k) as int, d as int);
        lemma_mul_is_commutative(pow2(53 + j) as int, d as int);
        lemma_mul_is_commutative(pow2(52 + k) as int, d as int);
    } else if k < j {
        lemma_spacing_unique(n, d, k, j);
    }
}

/// A known spacing is the spacing.
pub proof fn lemma_spacing_is(n: nat, d: nat, k: nat)
    requires
        d > 0,
        is_spacing(n, d, k),
    ensures
        spacing(n, d) == k,
{
    lemma_spacing_unique(n, d, spacing(n, d), k);
}

/// Every rational lies in the range of some spacing.
pub proof fn lemma_spacing_exists(n: nat, d: nat)
    requires
        d > 0,
    ensures
        is_spacing(n, d, spacing(n, d)),
{
    lemma_spacing_below(n, d, n);
}

proof fn lemma_exceeded(n: nat, d: nat)
    requires
        d > 0,
    ensures
        n < d * pow2(53 + n),
    decreases n,
{
    if n == 0 {
        lemma_pow2_pos(53);
        lemma_mul_strictly_positive(d as int, pow2(53) as int);
    } else {
        let m = (n - 1) as nat;
        lemma_exceeded(m, d);
        lemma_pow2_unfold(53 + n);
        assert(d * (2 * pow2(53 + m)) == 2 * (d * pow2(53 + m))) by (nonlinear_arith);
        lemma_pow2_pos(53 + m);
        lemma_mul_strictly_positive(d as int, pow2(53 + m) as int);
    }
}

proof fn lemma_spacing_below(n: nat, d: nat, k: nat)
    requires
        d > 0,
        k <= n,
        k == n || n < d * pow2(53 + k),
    ensures
        exists|j: nat| is_spacing(n, d, j),
    decreases k,
{
    if k == n {
        lemma_exceeded(n, d);
    }
    if k == 0 || n >= d * pow2(52 + k) {
        assert(is_spacing(n, d, k));
    } else {
        assert(53 + (k - 1) == 52 + k);
        lemma_spacing_below(n, d, (k - 1) as nat);
    }
}

/// Scaling both terms of a fraction does not change its nearest integer.
pub proof fn lemma_half_even_scaled(n: nat, d: nat, c: nat)
    requires
        d > 0,
        c > 0,
    ensures
        half_even(n * c, d * c) == half_even(n, d),
{
    let q = n / d;
    let r = n % d;
    lemma_fundamental_div_mod(n as int, d as int);
    assert(n * c == q * (d * c) + r * c) by (nonlinear_arith)
        requires
            n == d * q + r,
    ;
    assert(0 <= r * c < d * c) by (nonlinear_arith)
        requires
            0 <= r < d,
            c > 0,
    ;
    lemma_fundamental_div_mod_converse((n * c) as int, (d * c) as int, q as int, (r * c) as int);
    assert(2 * (r * c) == (2 * r) * c) by (nonlinear_arith);
    assert((2 * r) * c < d * c <==> 2 * r < d) by (nonlinear_arith)
        requires
            c > 0,
    ;
    assert((2 * r) * c == d * c <==> 2 * r == d) by (nonlinear_arith)
        requires
            c > 0,
    ;
}

/// The nearest integer of a whole quotient is that quotient.
pub proof fn lemma_half_even_exact(m: nat, d: nat)
    requires
        d > 0,
    ensures
        half_even(m * d, d) == m,
{
    assert(m * d == d * m + 0) by (nonlinear_arith);
    lemma_fundamental_div_mod_converse((m * d) as int, d as int, m as int, 0);
}

/// Scaling both terms of a fraction does not change how it rounds.
pub proof fn lemma_round_scaled(n: nat, d: nat, c: nat)
    requires
        d > 0,
        c > 0,
    ensures
        round(n * c, d * c) == round(n, d),
{
    let k = spacing(n, d);
    lemma_spacing_exists(n, d);
    assert(d * c > 0) by (nonlinear_arith)
        requires
            d > 0,
            c > 0,
    ;
    let hi = pow2(53 + k);
    assert(n * c < (d * c) * hi) by (nonlinear_arith)
        requires
            n < d * hi,
            c > 0,
    ;
    if k > 0 {
        let lo = pow2(52 + k);
        assert(n * c >= (d * c) * lo) by (nonlinear_arith)
            requires
                n >= d * lo,
                c > 0,
        ;
    }
    lemma_spacing_is(n * c, d * c, k);
    let p = pow2(k);
    lemma_pow2_pos(k);
    assert((d * c) * p == (d * p) * c) by (nonlinear_arith);
    assert(d * p > 0) by (nonlinear_arith)
        requires
            d > 0,
            p > 0,
    ;
    lemma_half_even_scaled(n, d * p, c);
}

/// The nearest integer of `(q * u + r) / (u * w)` is decided by `q` and by
/// whether `r` is zero, when `w` is even.
proof fn lemma_half_even_sticky(q: nat, u: nat, r: nat, h: nat)
    requires
        u > 0,
        r < u,
        h > 0,
    ensures
        half_even(q * u + r, u * (2 * h)) == half_even(
            2 * q + (if r > 0 { 1nat } else { 0nat }),
            4 * h,
        ),
{
    let w = 2 * h;
    let s: nat = if r > 0 { 1 } else { 0 };
    let a = q / w;
    let b = q % w;
    lemma_fundamental_div_mod(q as int, w as int);
    let n = q * u + r;
    let rest = b * u + r;
    assert(n == a * (u * w) + rest) by (nonlinear_arith)
        requires
            n == q * u + r,
            q == w * a + b,
            rest == b * u + r,
    ;
    assert(0 <= rest < u * w) by (nonlinear_arith)
        requires
            rest == b * u + r,
            0 <= r < u,
            0 <= b < w,
    ;
    lemma_fundamental_div_mod_converse(n as int, (u * w) as int, a as int, rest as int);
    let m = 2 * q + s;
    let mrest = 2 * b + s;
    assert(m == (4 * h) * a + mrest) by (nonlinear_arith)
        requires
            m == 2 * q + s,
            q == w * a + b,
            w == 2 * h,
            mrest == 2 * b + s,
    ;
    lemma_fundamental_div_mod_converse(m as int, (4 * h) as int, a as int, mrest as int);
    if b < h {
        assert(2 * rest < u * w) by (nonlinear_arith)
            requires
                rest == b * u + r,
                r < u,
                b + 1 <= h,
                w == 2 * h,
        ;
    } else if b > h {
        assert(2 * rest > u * w) by (nonlinear_arith)
            requires
                rest == b * u + r,
                u > 0,
                r >= 0,
                b >= h + 1,
                w == 2 * h,
        ;
    } else {
        assert(2 * rest == u * w + 2 * r) by (nonlinear_arith)
            requires
                rest == b * u + r,
                b == h,
                w == 2 * h,
        ;
    }
}

/// A quotient of at least 55 bits and a sticky bit for its remainder round as
/// the exact value does.
///
/// `n = q * u + r` measures `n` in units of `u`; `d * 2^a == u * 2^b` says that
/// `u / d` is the power of two `2^(a-b)`.
pub proof fn lemma_round_sticky(n: nat, d: nat, q: nat, u: nat, r: nat, a: nat, b: nat)
    requires
        d > 0,
        u > 0,
        r < u,
        n == q * u + r,
        q >= pow2(54),
        d * pow2(a) == u * pow2(b),
    ensures
        round(n, d) == round(
            (2 * q + (if r > 0 { 1nat } else { 0nat })) * pow2(a),
            pow2(b + 1),
        ),
{
    let s: nat = if r > 0 { 1 } else { 0 };
    let k = spacing(n, d);
    lemma_spacing_exists(n, d);
    let pa = pow2(a);
    let pb = pow2(b);
    let p53 = pow2(53);
    let p52 = pow2(52);
    let pk = pow2(k);
    lemma_pow2_pos(a);
    lemma_pow2_pos(b);
    lemma_pow2_pos(k);
    lemma_pow2_adds(53, k);
    lemma_pow2_adds(52, k);
    lemma_pow2_unfold(54);
    lemma_pow2_unfold(53);
    lemma_pow2_pos(52);
    lemma_pow2_adds(b, k);
    // q * 2^a < 2^(b+53+k)
    assert(q * pa < pb * p53 * pk) by (nonlinear_arith)
        requires
            n == q * u + r,
            n < d * (p53 * pk),
            d * pa == u * pb,
            u > 0,
            pa > 0,
            r >= 0,
    {
        assert((q * u) * pa <= n * pa);
        assert(n * pa < (d * (p53 * pk)) * pa);
        assert((d * (p53 * pk)) * pa == (d * pa) * (p53 * pk));
        assert((u * pb) * (p53 * pk) == u * (pb * p53 * pk));
        assert((q * u) * pa == u * (q * pa));
    }
    // so 2^(a+1) < 2^(b+k)
    if b + k < a + 2 {
        lemma_pow2_monotone(b + k, a + 1);
        lemma_pow2_unfold(a + 1);
        assert(pb * p53 * pk == (pb * pk) * p53) by (nonlinear_arith);
        assert((pb * pk) * p53 <= (2 * pa) * p53) by (nonlinear_arith)
            requires
                pb * pk <= 2 * pa,
        ;
        assert((2 * pa) * p53 <= q * pa) by (nonlinear_arith)
            requires
                q >= 2 * p53,
                pa > 0,
        ;
        assert(false);
    }
    let h = pow2((b + k - a - 1) as nat);
    lemma_pow2_pos((b + k - a - 1) as nat);
    lemma_pow2_adds((b + k - a - 1) as nat, 1);
    lemma2_to64();
    let w = 2 * h;
    lemma_pow2_adds((b + k - a) as nat, a);
    assert(pb * pk == w * pa);
    // d * 2^k == u * w
    assert(d * pk == u * w) by (nonlinear_arith)
        requires
            d * pa == u * pb,
            pb * pk == w * pa,
            pa > 0,
    {
        assert((d * pk) * pa == (d * pa) * pk);
        assert((u * pb) * pk == u * (pb * pk));
        assert(u * (w * pa) == (u * w) * pa);
    }
    lemma_half_even_sticky(q, u, r, h);
    let n2 = (2 * q + s) * pa;
    let d2 = pow2(b + 1);
    lemma_pow2_unfold(b + 1);
    assert(d2 * pk == (4 * h) * pa) by (nonlinear_arith)
        requires
            d2 == 2 * pb,
            pb * pk == (2 * h) * pa,
    ;
    lemma_half_even_scaled(2 * q + s, 4 * h, pa);
    // the spacing is the same
    assert(q < w * p53) by (nonlinear_arith)
        requires
            n == q * u + r,
            r >= 0,
            n < d * (p53 * pk),
            d * pk == u * w,
            u > 0,
    {
        assert(d * (p53 * pk) == (d * pk) * p53);
        assert((u * w) * p53 == u * (w * p53));
    }
    assert(n2 < d2 * (p53 * pk)) by (nonlinear_arith)
        requires
            n2 == (2 * q + s) * pa,
            s <= 1,
            q + 1 <= w * p53,
            d2 * pk == (2 * w) * pa,
            pa > 0,
    {
        assert(d2 * (p53 * pk) == (d2 * pk) * p53);
        assert(((2 * w) * pa) * p53 == (2 * (w * p53)) * pa);
    }
    if k > 0 {
        assert(q >= w * p52) by (nonlinear_arith)
            requires
                n == q * u + r,
                r < u,
                n >= d * (p52 * pk),
                d * pk == u * w,
                u > 0,
        {
            assert(d * (p52 * pk) == (d * pk) * p52);
            assert((u * w) * p52 == u * (w * p52));
            assert((q + 1) * u == q * u + u);
        }
        assert(n2 >= d2 * (p52 * pk)) by (nonlinear_arith)
            requires
                n2 == (2 * q + s) * pa,
                s >= 0,
                q >= w * p52,
                d2 * pk == (2 * w) * pa,
                pa > 0,
        {
            assert(d2 * (p52 * pk) == (d2 * pk) * p52);
            assert(((2 * w) * pa) * p52 == (2 * (w * p52)) * pa);
        }
    }
    lemma_pow2_pos(b + 1);
    lemma_spacing_is(n2, d2, k);
}

/// Zero rounds to zero.
pub proof fn lemma_round_zero(d: nat)
    requires
        d > 0,
    ensures
        round(0, d) == 0,
{
    lemma_pow2_pos(53);
    lemma_mul_strictly_positive(d as int, pow2(53) as int);
    lemma_spacing_is(0, d, 0);
    lemma2_to64();
    lemma_mul_basics(d as int);
    lemma_half_even_exact(0, d);
}

/// One unit or more does not round to zero.
pub proof fn lemma_round_positive(n: nat, d: nat)
    requires
        0 < d <= n,
    ensures
        round(n, d) > 0,
{
    lemma_spacing_exists(n, d);
    let k = spacing(n, d);
    if k == 0 {
        lemma2_to64();
        lemma_mul_basics(d as int);
        lemma_div_non_zero(n as int, d as int);
    }
}

/// `n * 2^(e+s) / 2^s` rounds as `n * 2^e` does.
pub proof fn lemma_scaled_shift(n: nat, e: int, s: nat)
    requires
        e + s >= 0,
    ensures
        round(n * pow2((e + s) as nat), pow2(s)) == round(
            scaled_numerator(n, e),
            scaled_denominator(e),
        ),
{
    if e >= 0 {
        lemma_pow2_adds(e as nat, s);
        lemma_pow2_pos(s);
        lemma_mul_is_associative(n as int, pow2(e as nat) as int, pow2(s) as int);
        lemma_mul_basics(pow2(s) as int);
        lemma_round_scaled(n * pow2(e as nat), 1, pow2(s));
    } else {
        lemma_pow2_adds((-e) as nat, (e + s) as nat);
        lemma_pow2_pos((-e) as nat);
        lemma_pow2_pos((e + s) as nat);
        lemma_round_scaled(n, pow2((-e) as nat), pow2((e + s) as nat));
    }
}

/// How many bits `n` has.
fn bit_length(n: u128) -> (length: u32)
    requires
        n < 0x8000_0000_0000_0000_0000_0000_0000_0000,
    ensures
        length <= 127,
        n < pow2(length as nat),
        length > 0 ==> n >= pow2((length - 1) as nat),
        n > 0 ==> length > 0,
{
    let mut length: u32 = 0;
    let mut power: u128 = 1;
    proof {
        lemma2_to64();
        lemma_pow2_127();
    }
    while power <= n
        invariant
            n < 0x8000_0000_0000_0000_0000_0000_0000_0000,
            pow2(127) == 0x8000_0000_0000_0000_0000_0000_0000_0000,
            length <= 127,
            power == pow2(length as nat),
            length > 0 ==> n >= pow2((length - 1) as nat),
            length == 0 ==> power == 1,
        decreases 127 - length,
    {
        proof {
            lemma_pow2_unfold((length + 1) as nat);
            if length == 127 {
                assert(false);
            }
        }
        power = power * 2;
        length = length + 1;
    }
    length
}

/// The value of `2^127`.
proof fn lemma_pow2_127()
    ensures
        pow2(127) == 0x8000_0000_0000_0000_0000_0000_0000_0000,
{
    lemma2_to64();
    lemma2_to64_rest();
    lemma_pow2_adds(63, 64);
}

/// `2^s` as a machine integer.
pub fn power_of_two(s: u32) -> (p: u128)
    requires
        s <= 127,
    ensures
        p == pow2(s as nat),
{
    let mut power: u128 = 1;
    let mut i: u32 = 0;
    proof {
        lemma2_to64();
        lemma_pow2_127();
    }
    while i < s
        invariant
            i <= s <= 127,
            power == pow2(i as nat),
            pow2(127) == 0x8000_0000_0000_0000_0000_0000_0000_0000,
        decreases s - i,
    {
        proof {
            lemma_pow2_unfold((i + 1) as nat);
            lemma_pow2_monotone((i + 1) as nat, 127);
        }
        power = power * 2;
        i = i + 1;
    }
    power
}

/// The spacing of `n * 2^e`, from the bit length of `n`.
proof fn lemma_scaled_spacing(n: nat, e: int, length: nat, k: nat)
    requires
        0 < n < pow2(length),
        length > 0,
        n >= pow2((length - 1) as nat),
        k == (if length + e - 53 > 0 { length + e - 53 } else { 0 }),
    ensures
        is_spacing(scaled_numerator(n, e), scaled_denominator(e), k),
{
    if e >= 0 {
        let pe = pow2(e as nat);
        lemma_pow2_pos(e as nat);
        lemma_pow2_adds(length, e as nat);
        lemma_pow2_monotone((length + e) as nat, 53 + k);
        lemma_mul_strict_inequality(n as int, pow2(length) as int, pe as int);
        if k > 0 {
            lemma_pow2_adds((length - 1) as nat, e as nat);
            lemma_mul_inequality(pow2((length - 1) as nat) as int, n as int, pe as int);
            assert((length - 1) as nat + e as nat == 52 + k);
        }
        lemma_mul_basics(pow2(53 + k) as int);
        lemma_mul_basics(pow2(52 + k) as int);
    } else {
        lemma_pow2_adds((-e) as nat, 53 + k);
        lemma_pow2_monotone(length, (-e) as nat + (53 + k));
        if k > 0 {
            lemma_pow2_adds((-e) as nat, 52 + k);
            assert((-e) as nat + (52 + k) == (length - 1) as nat);
        }
    }
}

/// Rounds `n * 2^e` units to the nearest binary64 magnitude.
pub fn round_scaled(n: u128, e: i32) -> (bits: u64)
    requires
        n < 0x8000_0000_0000_0000_0000_0000_0000_0000,
        -10000 <= e <= 10000,
    ensures
        bits == round(scaled_numerator(n as nat, e as int), scaled_denominator(e as int)),
{
    let ghost num = scaled_numerator(n as nat, e as int);
    let ghost den = scaled_denominator(e as int);
    proof {
        if e < 0 {
            lemma_pow2_pos((-e) as nat);
        }
    }
    if n == 0 {
        proof {
            lemma_mul_basics(pow2(e as nat) as int);
            lemma_pow2_pos(53);
            lemma_mul_strictly_positive(den as int, pow2(53) as int);
            lemma_spacing_is(num, den, 0);
            lemma2_to64();
            lemma_half_even_exact(0, den);
        }
        return 0;
    }
    let length: u32 = bit_length(n);
    let top: i32 = length as i32 + e - 53;
    let k: i32 = if top > 0 {
        top
    } else {
        0
    };
    proof {
        lemma_scaled_spacing(n as nat, e as int, length as nat, k as nat);
        lemma_spacing_is(num, den, k as nat);
    }
    let drop: i32 = k - e;
    let significand: u64 = if drop <= 0 {
        let raise: u32 = (-drop) as u32;
        proof {
            let t = raise as nat;
            lemma_pow2_adds(length as nat, t);
            lemma_pow2_pos(t);
            lemma_mul_strict_inequality(n as int, pow2(length as nat) as int, pow2(t) as int);
            lemma_pow2_monotone(length as nat + t, 53);
            lemma2_to64_rest();
            lemma_pow2_adds(t, k as nat);
            lemma_mul_is_associative(n as int, pow2(t) as int, pow2(k as nat) as int);
            lemma_pow2_pos(k as nat);
            lemma_half_even_exact(n as nat * pow2(t), pow2(k as nat));
        }
        (n * power_of_two(raise)) as u64
    } else {
        proof {
            let t = drop as nat;
            lemma_pow2_pos(t);
            if e >= 0 {
                lemma_pow2_adds(t, e as nat);
                lemma_pow2_pos(e as nat);
                lemma_half_even_scaled(n as nat, pow2(t), pow2(e as nat));
            } else {
                lemma_pow2_adds((-e) as nat, k as nat);
            }
            assert(half_even(num, den * pow2(k as nat)) == half_even(n as nat, pow2(t)));
        }
        shift_down(n, drop as u32, length)
    };
    if k >= 2047 {
        return INFINITY_BITS;
    }
    let bits: u64 = k as u64 * EXPONENT_STEP + significand;
    if bits < INFINITY_BITS {
        bits
    } else {
        INFINITY_BITS
    }
}

/// `n / 2^drop` rounded to the nearest integer, ties to the even one.
fn shift_down(n: u128, drop: u32, length: u32) -> (m: u64)
    requires
        n < pow2(length as nat),
        0 < drop,
        length <= 127,
        length <= 53 + drop,
    ensures
        m == half_even(n as nat, pow2(drop as nat)),
        m <= 0x20_0000_0000_0000,
{
    let ghost t = drop as nat;
    proof {
        lemma_pow2_pos(t);
        lemma_pow2_unfold(t);
    }
    if drop > length {
        proof {
            lemma_pow2_monotone(length as nat, (t - 1) as nat);
            lemma_fundamental_div_mod_converse(n as int, pow2(t) as int, 0, n as int);
        }
        return 0;
    }
    let power: u128 = power_of_two(drop);
    let quotient: u128 = n / power;
    let rest: u128 = n % power;
    proof {
        lemma_pow2_adds(53, t);
        lemma_pow2_monotone(length as nat, 53 + t);
        lemma2_to64_rest();
        lemma_pow2_127();
        lemma_pow2_monotone(t, 127);
        lemma_multiply_divide_lt(n as int, power as int, pow2(53) as int);
        lemma_mul_is_commutative(pow2(53) as int, power as int);
    }
    let twice: u128 = rest * 2;
    if twice < power || (twice == power && quotient % 2 == 0) {
        quotient as u64
    } else {
        (quotient + 1) as u64
    }
}

} // verus!
