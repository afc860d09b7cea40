//! Small facts about products, quotients and sums of real numbers. Each is
//! small enough to be proved by itself; longer calculations are chains of them.
use vstd::prelude::*;

verus! {

/// A quotient is the number that gives back the dividend.
pub proof fn lemma_quotient(x: real, y: real, z: real)
    by (nonlinear_arith)
    requires
        y != 0real,
        x == z * y,
    ensures
        x / y == z,
{
}

/// A quotient gives back the dividend.
pub proof fn lemma_quotient_back(x: real, y: real)
    by (nonlinear_arith)
    requires
        y != 0real,
    ensures
        (x / y) * y == x,
{
}

/// Products of positive numbers are positive.
pub proof fn lemma_product_positive(x: real, y: real)
    by (nonlinear_arith)
    requires
        x > 0real,
        y > 0real,
    ensures
        x * y > 0real,
{
}

/// A factor of a positive product is positive where the other one is.
pub proof fn lemma_positive_factor(x: real, z: real)
    by (nonlinear_arith)
    requires
        x * z > 0real,
        z > 0real,
    ensures
        x > 0real,
{
}

/// Equal numbers have equal multiples.
pub proof fn lemma_multiple(a: real, x: real, y: real)
    requires
        x == y,
    ensures
        a * x == a * y,
        x * a == y * a,
{
}

/// Multiplication is associative.
pub proof fn lemma_associative(x: real, y: real, z: real)
    by (nonlinear_arith)
    ensures
        (x * y) * z == x * (y * z),
{
}

/// Products of larger numbers are larger.
pub proof fn lemma_product_monotone(w: real, x: real, y: real, z: real)
    by (nonlinear_arith)
    requires
        0real <= w <= x,
        0real <= y <= z,
    ensures
        w * y <= x * z,
{
}

/// A positive factor can be left out of an inequality.
pub proof fn lemma_cancel(x: real, y: real, z: real)
    by (nonlinear_arith)
    requires
        x * z <= y * z,
        z > 0real,
    ensures
        x <= y,
{
}

/// Squares are not negative.
pub proof fn lemma_square(x: real)
    by (nonlinear_arith)
    ensures
        x * x >= 0real,
{
}

/// A difference times a number.
pub proof fn lemma_minus(x: real, y: real, z: real)
    by (nonlinear_arith)
    ensures
        (x - y) * z == x * z - y * z,
        z * (x - y) == z * x - z * y,
{
}

/// A sum times a number.
pub proof fn lemma_plus(x: real, y: real, z: real)
    by (nonlinear_arith)
    ensures
        (x + y) * z == x * z + y * z,
        z * (x + y) == z * x + z * y,
{
}

pub proof fn identity_last(a: real, x: real, y: real)
    by (nonlinear_arith)
    ensures
        a * x * y == x * y * a,
{
}

pub proof fn identity_inverses(l: real, p: real, q: real, z: real)
    by (nonlinear_arith)
    ensures
        l * (p - q) * z == l * (p * z) - l * (q * z),
{
}

pub proof fn identity_middle(q: real, r: real, t: real)
    by (nonlinear_arith)
    ensures
        q * (r * t) == r * (q * t),
{
}

pub proof fn identity_end(l: real, k: real, a: real)
    by (nonlinear_arith)
    ensures
        l * (k * a) == k * a * l,
{
}

pub proof fn identity_moved(n: real, s: real, low: real, d: real)
    by (nonlinear_arith)
    ensures
        n * (s - low) * d == n * s * d - n * (low * d),
{
}

pub proof fn identity_swapped(n: real, s: real, j: real, u: real)
    by (nonlinear_arith)
    ensures
        n * s * (n + j * s * u) - n * (n * s) == n * s * s * j * u,
{
}

pub proof fn identity_scaled(w: real, d: real, b: real)
    by (nonlinear_arith)
    ensures
        w * (d * b) == (w * b) * d,
{
}

pub proof fn identity_gain(c: real, k: real, a: real, l: real)
    by (nonlinear_arith)
    ensures
        c * (k * a * l) == c * k * l * a,
{
}

pub proof fn identity_deep(n: real, g: real, u: real, v: real)
    by (nonlinear_arith)
    ensures
        (n + g * u) * v == n * v + g * (u * v),
{
}

pub proof fn identity_inner(r: real, l: real, ka: real, e: real)
    by (nonlinear_arith)
    ensures
        r * (r * l + ka) * e == r * (r * l) * e + r * ka * e,
{
}

pub proof fn identity_first(b: real, n: real, r: real, l: real, e: real)
    by (nonlinear_arith)
    ensures
        b * (n * (r * (r * l) * e)) == b * e * n * r * r * l,
{
}

pub proof fn identity_fold(n: real, r: real, x: real, e: real)
    by (nonlinear_arith)
    ensures
        n * (r * x * e) == (n * e * r) * x,
{
}

pub proof fn identity_unfold(b: real, z: real, k: real, a: real)
    by (nonlinear_arith)
    ensures
        b * (z * (k * a)) == b * k * z * a,
{
}

pub proof fn identity_second(b: real, n: real, r: real, k: real, a: real, e: real)
    ensures
        b * (n * (r * (k * a) * e)) == b * k * (n * e * r) * a,
{
    identity_fold(n, r, k * a, e);
    lemma_multiple(b, n * (r * (k * a) * e), (n * e * r) * (k * a));
    identity_unfold(b, n * e * r, k, a);
}

pub proof fn identity_third(b: real, g: real, k: real, a: real, l: real)
    by (nonlinear_arith)
    ensures
        b * (g * (k * a * l)) == b * k * (g * l) * a,
{
}

pub proof fn identity_denominator(
    b: real,
    e: real,
    n: real,
    r: real,
    l: real,
    k: real,
    a: real,
    g: real,
)
    ensures
        b * (n * (r * (r * l + k * a) * e) + g * (k * a * l)) == b * e * n * r * r * l + b * k * (n
            * e * r + g * l) * a,
{
    let x = r * (r * l) * e;
    let y = r * (k * a) * e;
    let z = g * (k * a * l);
    identity_inner(r, l, k * a, e);
    lemma_multiple(n, r * (r * l + k * a) * e, x + y);
    lemma_plus(x, y, n);
    lemma_plus(n * x + n * y, z, b);
    lemma_plus(n * x, n * y, b);
    lemma_multiple(b, n * (r * (r * l + k * a) * e) + z, n * x + n * y + z);
    identity_first(b, n, r, l, e);
    identity_second(b, n, r, k, a, e);
    identity_third(b, g, k, a, l);
    lemma_plus(n * e * r, g * l, b * k);
    lemma_plus(b * k * (n * e * r), b * k * (g * l), a);
    lemma_multiple(a, b * k * (n * e * r + g * l), b * k * (n * e * r) + b * k * (g * l));
}

pub proof fn identity_quarters(w: real, x: real, y: real)
    by (nonlinear_arith)
    ensures
        w * (x * x * y) == (w * x) * (x * y),
        w * (x * x * y) == (w * y) * (x * x),
{
}

pub proof fn identity_fifths(f: real, h: real, x: real, y: real)
    by (nonlinear_arith)
    ensures
        (f * h) * (x * x * y) == (f * (x * x)) * (h * y),
{
}

pub proof fn identity_gap(wx: real, wy: real, f: real, h: real, dx: real, dy: real)
    ensures
        (wx + f * h - wy) * (dx * dx * dy) == (wx * dx) * (dx * dy) + (f * (dx * dx)) * (h * dy) - (
        wy * dy) * (dx * dx),
{
    let e = dx * dx * dy;
    lemma_minus(wx + f * h, wy, e);
    lemma_plus(wx, f * h, e);
    identity_quarters(wx, dx, dy);
    identity_quarters(wy, dx, dy);
    identity_fifths(f, h, dx, dy);
}

pub proof fn identity_cross(q: real, c: real, x: real, y: real)
    by (nonlinear_arith)
    ensures
        x * (q + c * y) - y * (q + c * x) == q * (x - y),
        (q + c * y) - (q + c * x) == c * (y - x),
{
}

pub proof fn identity_swap(p: real, x: real, d: real, e: real)
    by (nonlinear_arith)
    ensures
        (p * x) * (d * e) == (p * d) * (x * e),
{
}

pub proof fn identity_turn(p: real, d: real, q: real, x: real, y: real)
    by (nonlinear_arith)
    ensures
        (p * d) * (q * (x - y)) == -((p * q) * ((y - x) * d)),
{
}

pub proof fn identity_square(p: real, q: real, c: real, h: real)
    by (nonlinear_arith)
    ensures
        (p * q) * (h * (c * h)) == p * q * c * (h * h),
{
}

pub proof fn identity_tangent(p: real, q: real, c: real, x: real, y: real)
    ensures
        p * x * ((q + c * x) * (q + c * y)) + p * q * ((y - x) * (q + c * y)) - p * y * ((q + c * x)
            * (q + c * x)) == p * q * c * ((y - x) * (y - x)),
{
    let dx = q + c * x;
    let dy = q + c * y;
    let h = y - x;
    identity_swap(p, x, dx, dy);
    identity_swap(p, y, dx, dx);
    lemma_minus(x * dy, y * dx, p * dx);
    identity_cross(q, c, x, y);
    lemma_multiple(p * dx, x * dy - y * dx, q * (x - y));
    identity_turn(p, dx, q, x, y);
    lemma_minus(h * dy, h * dx, p * q);
    lemma_minus(dy, dx, h);
    lemma_multiple(h, dy - dx, c * h);
    lemma_multiple(p * q, h * dy - h * dx, h * (c * h));
    identity_square(p, q, c, h);
}

pub proof fn identity_bound(bound: real, square: real, q: real)
    by (nonlinear_arith)
    ensures
        (bound * square) * (q * q * q) == (bound * (q * q)) * (square * q),
{
}

pub proof fn identity_reorder(p: real, c: real, q: real, square: real)
    by (nonlinear_arith)
    ensures
        (p * c) * (square * q) == p * q * c * square,
{
}

pub proof fn identity_regroup(f: real, k: real, e: real, h: real)
    by (nonlinear_arith)
    ensures
        ((f - k) * e) * h == (f * h) * e - (k * h) * e,
{
}

pub proof fn identity_profit(
    wx: real,
    wy: real,
    f: real,
    k: real,
    e: real,
    g: real,
    x: real,
    y: real,
)
    ensures
        ((wx - x * k) * e - g) + ((f - k) * e) * (y - x) - ((wy - y * k) * e - g) == (wx + f * (y
            - x) - wy) * e,
{
    let h = y - x;
    lemma_minus(wx, x * k, e);
    lemma_minus(wy, y * k, e);
    identity_regroup(f, k, e, h);
    lemma_minus(y, x, k);
    lemma_multiple(e, k * h, y * k - x * k);
    lemma_minus(y * k, x * k, e);
    lemma_minus(wx + f * h, wy, e);
    lemma_plus(wx, f * h, e);
}

pub proof fn identity_quadratic(bound: real, h: real, e: real)
    by (nonlinear_arith)
    ensures
        (bound * (h * h)) * e == e * bound * h * h,
{
}

pub proof fn identity_rotate(u: real, x: real, y: real, s: real)
    by (nonlinear_arith)
    ensures
        u * x * y * s == x * y * s * u,
{
}

pub proof fn identity_front(d: real, b: real, v: real)
    by (nonlinear_arith)
    ensures
        (d * b) * v == b * (d * v),
{
}

pub proof fn identity_chain(r: real, l: real, p: real, x: real)
    by (nonlinear_arith)
    ensures
        r * (l * (p * x)) == (p * r) * (l * x),
{
}

pub proof fn identity_exchange(x: real, y: real)
    by (nonlinear_arith)
    ensures
        x * y == y * x,
{
}

pub proof fn identity_lined_up(b: real, n: real, s: real)
    by (nonlinear_arith)
    ensures
        (n * s * s) * n * b == b * n * s * s * n,
{
}

pub proof fn identity_apart(x: real, b: real, d: real, e: real)
    by (nonlinear_arith)
    ensures
        (x * b) * (d * e) == (x * (e * b)) * d,
        (x * b) * (d * e) == (x * (d * b)) * e,
{
}

pub proof fn identity_common(x: real, y: real, b: real, d: real, e: real)
    ensures
        ((x - y) * b) * (d * e) == (x * (e * b)) * d - (y * (d * b)) * e,
{
    lemma_minus(x, y, b);
    lemma_multiple(d * e, (x - y) * b, x * b - y * b);
    lemma_minus(x * b, y * b, d * e);
    identity_apart(x, b, d, e);
    identity_apart(y, b, d, e);
}

pub proof fn identity_squares(n: real, s: real, j: real, h: real)
    by (nonlinear_arith)
    ensures
        (n * s * s * j) * (n * h) == (n * n) * (s * s * j * h),
{
}

pub proof fn identity_shared(x: real, y: real)
    ensures
        (x / 1_000_000_000_000_000_000real) * y == (x * y) / 1_000_000_000_000_000_000real,
{
    let b = 1_000_000_000_000_000_000real;
    let q = x / b;
    lemma_quotient_back(x, b);
    identity_scaled(q, y, b);
    lemma_multiple(y, q * b, x);
    lemma_associative(q, y, b);
    lemma_quotient(x * y, b, q * y);
}

pub proof fn identity_doubled(x: real, r: real, t: real)
    by (nonlinear_arith)
    ensures
        t * (2real * (x * r)) == 2real * (x * (r * t)),
{
}

pub proof fn identity_thrice(x: real, d: real, e: real)
    by (nonlinear_arith)
    ensures
        x * (3real * d - 2real * e) == x * d - 2real * (x * (e - d)),
{
}

pub proof fn identity_cubic(d: real, e: real)
    by (nonlinear_arith)
    ensures
        d * d * d - (3real * d - 2real * e) * (e * e) == ((d - e) * (d - e)) * (d + 2real * e),
{
}

pub proof fn identity_gathered(a: real, b: real, c: real, d: real)
    by (nonlinear_arith)
    ensures
        a * b * c * d == a * (b * c * d),
{
}

pub proof fn identity_pairs(a: real, b: real, c: real, d: real)
    by (nonlinear_arith)
    ensures
        (a * b) * (c * d) == (a * c) * (b * d),
{
}

} // verus!
