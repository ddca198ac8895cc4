//! Integer arithmetic shared by the geometry: rounded division and integer
//! square roots, with the facts about them that the geometry relies on.

use vstd::prelude::*;
use vstd::arithmetic::div_mod::lemma_fundamental_div_mod_converse;
use vstd::arithmetic::div_mod::lemma_fundamental_div_mod;
use vstd::arithmetic::div_mod::lemma_mod_bound;

verus! {

/// The quotient `n / d` rounded to the nearest integer, halves rounded up.
/// The sign of the divisor is normalised first, so that `n / d` and
/// `(-n) / (-d)` round alike.
pub open spec fn round_div(n: int, d: int) -> int {
    if d > 0 {
        (2 * n + d) / (2 * d)
    } else {
        (-2 * n - d) / (-2 * d)
    }
}

/// Products of bounded factors are bounded by the product of the bounds.
pub proof fn lemma_mul_range(a: int, b: int, m: int, n: int)
    by (nonlinear_arith)
    requires
        -m <= a <= m,
        -n <= b <= n,
    ensures
        -(m * n) <= a * b <= m * n,
{
}

/// A square is never negative and is bounded by the square of the bound.
pub proof fn lemma_square_range(a: int, m: int)
    by (nonlinear_arith)
    requires
        -m <= a <= m,
    ensures
        0 <= a * a <= m * m,
{
}

/// The factors of a product of two products may be paired anew.
pub proof fn lemma_mul_regroup(a: int, b: int, c: int, d: int)
    by (nonlinear_arith)
    ensures
        (a * b) * (c * d) == (a * c) * (b * d),
        (a * b) * (c * d) == (a * d) * (b * c),
{
}

/// Multiplication distributes over a sum and over a difference.
pub proof fn lemma_mul_distributes(a: int, b: int, c: int)
    by (nonlinear_arith)
    ensures
        a * (b + c) == a * b + a * c,
        a * (b - c) == a * b - a * c,
        (b + c) * a == b * a + c * a,
        (b - c) * a == b * a - c * a,
{
}

/// The quotient of a positive divisor is the unique `q` with
/// `q * d <= x < (q + 1) * d`.
pub proof fn lemma_div_unique(x: int, d: int, q: int)
    requires
        d > 0,
        q * d <= x < (q + 1) * d,
    ensures
        x / d == q,
{
    assert((q + 1) * d == q * d + d) by (nonlinear_arith);
    assert(d * q == q * d) by (nonlinear_arith);
    lemma_fundamental_div_mod_converse(x, d, q, x - q * d);
}

/// The quotient of a positive divisor brackets the dividend.
pub proof fn lemma_div_bracket(x: int, d: int)
    requires
        d > 0,
    ensures
        (x / d) * d <= x < (x / d + 1) * d,
{
    lemma_fundamental_div_mod(x, d);
    lemma_mod_bound(x, d);
    let q = x / d;
    assert((q + 1) * d == q * d + d) by (nonlinear_arith);
    assert(d * q == q * d) by (nonlinear_arith);
}

/// Rounding keeps a quotient between integer bounds of the exact quotient.
pub proof fn lemma_round_div_range(n: int, d: int, lo: int, hi: int)
    requires
        d > 0,
        lo * d <= n <= hi * d,
    ensures
        lo <= round_div(n, d) <= hi,
{
    let q = round_div(n, d);
    lemma_div_bracket(2 * n + d, 2 * d);
    // q * 2d <= 2n + d < (q + 1) * 2d
    if q < lo {
        assert((q + 1) * (2 * d) <= lo * (2 * d)) by (nonlinear_arith)
            requires q + 1 <= lo, d > 0;
        assert(lo * (2 * d) == 2 * (lo * d)) by (nonlinear_arith);
    }
    if q > hi {
        assert((hi + 1) * (2 * d) <= q * (2 * d)) by (nonlinear_arith)
            requires hi + 1 <= q, d > 0;
        assert((hi + 1) * (2 * d) == 2 * (hi * d) + 2 * d) by (nonlinear_arith);
    }
}

/// Rounding commutes with adding a whole multiple of the divisor.
pub proof fn lemma_round_div_shift(n: int, d: int, k: int)
    requires
        d != 0,
    ensures
        round_div(n + k * d, d) == k + round_div(n, d),
    decreases (if d > 0 { 0int } else { 1int }),
{
    if d > 0 {
        let q = round_div(n, d);
        lemma_div_bracket(2 * n + d, 2 * d);
        assert((q + k) * (2 * d) == q * (2 * d) + 2 * (k * d)) by (nonlinear_arith);
        assert((q + k + 1) * (2 * d) == (q + 1) * (2 * d) + 2 * (k * d)) by (nonlinear_arith);
        lemma_div_unique(2 * (n + k * d) + d, 2 * d, q + k);
    } else {
        assert(-(n + k * d) == -n + k * (-d)) by (nonlinear_arith);
        lemma_round_div_shift(-n, -d, k);
    }
}

/// Negating both the dividend and the divisor leaves the rounded quotient.
pub proof fn lemma_round_div_negate(n: int, d: int)
    requires
        d != 0,
    ensures
        round_div(-n, -d) == round_div(n, d),
{
}

/// The quotient `n / d` of a positive divisor, rounded to a whole number
/// away from `from`: up where the exact quotient is `from` or more, down
/// where it is less.
pub open spec fn div_away(n: int, d: int, from: int) -> int {
    if n >= from * d {
        -((-n) / d)
    } else {
        n / d
    }
}

/// Rounding away brackets the dividend on the side away from `from`.
pub proof fn lemma_div_away(n: int, d: int, from: int)
    requires
        d > 0,
    ensures
        n >= from * d ==> (div_away(n, d, from) - 1) * d < n <= div_away(n, d, from) * d,
        n < from * d ==> div_away(n, d, from) * d <= n < (div_away(n, d, from) + 1) * d,
{
    if n >= from * d {
        lemma_div_bracket(-n, d);
        let q = (-n) / d;
        assert((-q) * d == -(q * d)) by (nonlinear_arith);
        assert((-q - 1) * d == -((q + 1) * d)) by (nonlinear_arith);
    } else {
        lemma_div_bracket(n, d);
    }
}

/// Rounding away keeps a quotient between whole bounds of the exact
/// quotient.
pub proof fn lemma_div_away_range(n: int, d: int, from: int, lo: int, hi: int)
    requires
        d > 0,
        lo * d <= n <= hi * d,
    ensures
        lo <= div_away(n, d, from) <= hi,
{
    lemma_div_away(n, d, from);
    let q = div_away(n, d, from);
    if q < lo {
        assert((q + 1) * d <= lo * d) by (nonlinear_arith)
            requires q + 1 <= lo, d > 0;
        assert(q * d < (q + 1) * d) by (nonlinear_arith)
            requires d > 0;
    }
    if q > hi {
        assert(hi * d <= (q - 1) * d) by (nonlinear_arith)
            requires hi <= q - 1, d > 0;
        assert((q - 1) * d < q * d) by (nonlinear_arith)
            requires d > 0;
    }
}

/// Of two numbers on one side of zero the one farther from zero has the
/// greater square.
pub proof fn lemma_square_farther(x: int, y: int)
    by (nonlinear_arith)
    requires
        (0 <= y <= x) || (x <= y <= 0),
    ensures
        y * y <= x * x,
{
}

/// The quotient `n / d` of a positive divisor, rounded down, in machine
/// integers.
pub fn floor_div_i128(n: i128, d: i128) -> (q: i128)
    requires
        d > 0,
        -0x4000_0000_0000_0000_0000_0000_0000_0000 <= n <= 0x4000_0000_0000_0000_0000_0000_0000_0000,
    ensures
        q == n / d,
{
    proof {
        lemma_div_bracket(n as int, d as int);
        let q = (n as int) / (d as int);
        if q > n || q < -n - 1 {
            if n >= 0 {
                assert(q * d >= q) by (nonlinear_arith)
                    requires q >= 0, d >= 1;
            } else {
                assert((q + 1) * d <= q + 1) by (nonlinear_arith)
                    requires q + 1 <= 0, d >= 1;
            }
        }
    }
    match n.checked_div_euclid(d) {
        Some(q) => q,
        None => 0,
    }
}

/// Executable form of [`div_away`].
pub fn div_away_i128(n: i128, d: i128, from: i128) -> (q: i128)
    requires
        d > 0,
        d <= 0x8000_0000_0000_0000,
        -0x1_0000_0000 <= from <= 0x1_0000_0000,
        -0x4000_0000_0000_0000_0000_0000_0000_0000 <= n <= 0x4000_0000_0000_0000_0000_0000_0000_0000,
    ensures
        q == div_away(n as int, d as int, from as int),
{
    proof {
        lemma_mul_range(from as int, d as int, 0x1_0000_0000, 0x8000_0000_0000_0000);
    }
    if n >= from * d {
        let down: i128 = floor_div_i128(-n, d);
        proof {
            lemma_div_bracket(-n, d as int);
            if down < -0x4000_0000_0000_0000_0000_0000_0000_0001 {
                assert((down + 1) * d <= down + 1) by (nonlinear_arith)
                    requires down + 1 <= 0, d >= 1;
            }
        }
        -down
    } else {
        floor_div_i128(n, d)
    }
}

/// `round_div` for a positive divisor, in machine integers.
pub fn round_div_i128(n: i128, d: i128) -> (q: i128)
    requires
        d > 0,
        -0x2000_0000_0000_0000_0000_0000_0000_0000 <= n <= 0x2000_0000_0000_0000_0000_0000_0000_0000,
        d <= 0x2000_0000_0000_0000_0000_0000_0000_0000,
    ensures
        q == round_div(n as int, d as int),
{
    let num: i128 = 2 * n + d;
    let den: i128 = 2 * d;
    proof {
        lemma_div_bracket(num as int, den as int);
        let q = (num as int) / (den as int);
        if q > num || q < -num - 1 {
            if num >= 0 {
                assert(q * den >= q) by (nonlinear_arith) requires q >= 0, den >= 1;
            } else {
                assert((q + 1) * den <= q + 1) by (nonlinear_arith) requires q + 1 <= 0, den >= 1;
            }
        }
    }
    match num.checked_div_euclid(den) {
        Some(q) => q,
        None => 0,
    }
}

/// Whether `r` is the integer square root of `n`: the largest `r` with
/// `r * r <= n`.
pub open spec fn is_isqrt(n: int, r: int) -> bool {
    0 <= r && r * r <= n < (r + 1) * (r + 1)
}

/// There is only one integer square root.
pub proof fn lemma_isqrt_unique(n: int, r1: int, r2: int)
    by (nonlinear_arith)
    requires
        is_isqrt(n, r1),
        is_isqrt(n, r2),
    ensures
        r1 == r2,
{
}

/// The integer square root of `n`.
pub open spec fn int_sqrt(n: int) -> int {
    choose|r: int| is_isqrt(n, r)
}

/// Every number that is not negative has an integer square root.
pub proof fn lemma_isqrt_exists(n: int)
    requires
        n >= 0,
    ensures
        is_isqrt(n, int_sqrt(n)),
    decreases n,
{
    if n == 0 {
        assert(is_isqrt(0, 0));
    } else {
        lemma_isqrt_exists(n - 1);
        let r = int_sqrt(n - 1);
        if (r + 1) * (r + 1) <= n {
            assert((r + 1) * (r + 1) < (r + 2) * (r + 2)) by (nonlinear_arith)
                requires
                    r >= 0,
            ;
            assert(is_isqrt(n, r + 1));
        } else {
            assert(is_isqrt(n, r));
        }
    }
}

/// The integer square root of `n`, found by bisection.
pub fn isqrt(n: u128) -> (r: u128)
    ensures
        is_isqrt(n as int, r as int),
        r == int_sqrt(n as int),
        r <= 0xffff_ffff_ffff_ffff,
{
    let mut lo: u128 = 0;
    let mut hi: u128 = 0x1_0000_0000_0000_0000;
    assert(0x1_0000_0000_0000_0000int * 0x1_0000_0000_0000_0000int > n);
    while hi - lo > 1
        invariant
            lo < hi <= 0x1_0000_0000_0000_0000,
            lo * lo <= n,
            hi * hi > n,
        decreases hi - lo,
    {
        let mid: u128 = lo + (hi - lo) / 2;
        assert(mid * mid <= 0xffff_ffff_ffff_ffff * 0xffff_ffff_ffff_ffff) by (nonlinear_arith)
            requires
                0 <= mid <= 0xffff_ffff_ffff_ffff,
        ;
        if mid * mid <= n {
            lo = mid;
        } else {
            hi = mid;
        }
    }
    proof {
        assert(is_isqrt(n as int, lo as int));
        lemma_isqrt_unique(n as int, lo as int, int_sqrt(n as int));
    }
    lo
}

/// The length `|delta| * speed / sqrt(d2)`, rounded to the nearest whole
/// number, halves up: the share of one coordinate in a step of length
/// `speed` along a vector of squared length `d2`.
pub open spec fn step_size(delta: int, speed: int, d2: int) -> int {
    (int_sqrt((4 * ((delta * delta) * (speed * speed))) / d2) + 1) / 2
}

/// `step_size` with the sign of `delta`.
pub open spec fn step_toward(delta: int, speed: int, d2: int) -> int {
    if delta >= 0 {
        step_size(delta, speed, d2)
    } else {
        -step_size(delta, speed, d2)
    }
}

/// What makes `step_size` the nearest whole number: it lies within one
/// half of `|delta| * speed / sqrt(d2)`. Twice the one and twice the other
/// differ by one at most, which is stated here over their squares.
pub proof fn lemma_step_nearest(delta: int, speed: int, d2: int)
    requires
        d2 > 0,
    ensures
        step_size(delta, speed, d2) >= 0,
        step_size(delta, speed, d2) == 0 || (2 * step_size(delta, speed, d2) - 1) * (2 * step_size(
            delta,
            speed,
            d2,
        ) - 1) * d2 <= 4 * ((delta * delta) * (speed * speed)),
        4 * ((delta * delta) * (speed * speed)) < (2 * step_size(delta, speed, d2) + 1) * (2
            * step_size(delta, speed, d2) + 1) * d2,
{
    let n4 = 4 * ((delta * delta) * (speed * speed));
    assert(n4 >= 0) by (nonlinear_arith)
        requires
            n4 == 4 * ((delta * delta) * (speed * speed)),
    ;
    let f = n4 / d2;
    lemma_div_bracket(n4, d2);
    assert(f >= 0) by {
        if f < 0 {
            assert((f + 1) * d2 <= 0) by (nonlinear_arith)
                requires
                    f + 1 <= 0,
                    d2 > 0,
            ;
        }
    }
    lemma_isqrt_exists(f);
    let w = int_sqrt(f);
    let m = (w + 1) / 2;
    // 2m - 1 <= w <= 2m
    if m > 0 {
        lemma_square_farther(w, 2 * m - 1);
        assert((2 * m - 1) * (2 * m - 1) * d2 <= f * d2) by (nonlinear_arith)
            requires
                (2 * m - 1) * (2 * m - 1) <= f,
                d2 > 0,
        ;
    }
    lemma_square_farther(2 * m + 1, w + 1);
    assert((f + 1) * d2 <= (2 * m + 1) * (2 * m + 1) * d2) by (nonlinear_arith)
        requires
            f + 1 <= (2 * m + 1) * (2 * m + 1),
            d2 > 0,
    ;
}

/// A step has the length of the speed, to within one lattice step: the
/// two coordinates of a step of `speed` along `(dx, dy)`, each rounded to
/// a whole number, make a vector that is no longer than `speed + 1` and no
/// shorter than `speed - 1`.
pub proof fn lemma_step_length(dx: int, dy: int, speed: int)
    requires
        dx * dx + dy * dy > 0,
        speed >= 0,
    ensures
        step_toward(dx, speed, dx * dx + dy * dy) * step_toward(dx, speed, dx * dx + dy * dy)
            + step_toward(dy, speed, dx * dx + dy * dy) * step_toward(
            dy,
            speed,
            dx * dx + dy * dy,
        ) <= (speed + 1) * (speed + 1),
        speed >= 1 ==> (speed - 1) * (speed - 1) <= step_toward(dx, speed, dx * dx + dy * dy)
            * step_toward(dx, speed, dx * dx + dy * dy) + step_toward(dy, speed, dx * dx + dy * dy)
            * step_toward(dy, speed, dx * dx + dy * dy),
{
    let d2 = dx * dx + dy * dy;
    let mx = step_size(dx, speed, d2);
    let my = step_size(dy, speed, d2);
    lemma_step_nearest(dx, speed, d2);
    lemma_step_nearest(dy, speed, d2);
    let a = 2 * mx;
    let b = 2 * my;
    let s2 = 2 * speed;
    let nx = (dx * dx) * (speed * speed);
    let ny = (dy * dy) * (speed * speed);
    assert(nx >= 0 && ny >= 0) by (nonlinear_arith)
        requires
            nx == (dx * dx) * (speed * speed),
            ny == (dy * dy) * (speed * speed),
    ;
    // the two shares make up the whole step
    assert(4 * nx + 4 * ny == (s2 * s2) * d2) by (nonlinear_arith)
        requires
            nx == (dx * dx) * (speed * speed),
            ny == (dy * dy) * (speed * speed),
            d2 == dx * dx + dy * dy,
            s2 == 2 * speed,
    ;
    let sq = step_toward(dx, speed, d2) * step_toward(dx, speed, d2) + step_toward(dy, speed, d2)
        * step_toward(dy, speed, d2);
    assert((-mx) * (-mx) == mx * mx) by (nonlinear_arith);
    assert((-my) * (-my) == my * my) by (nonlinear_arith);
    assert(a * a + b * b == 4 * sq) by (nonlinear_arith)
        requires
            a == 2 * mx,
            b == 2 * my,
            sq == mx * mx + my * my,
    ;
    // no longer than speed + 1
    let cx = if mx == 0 { 0 } else { a - 1 };
    let cy = if my == 0 { 0 } else { b - 1 };
    assert((cx * cx) * d2 <= 4 * nx) by {
        if mx != 0 {
            assert((a - 1) * (a - 1) * d2 == (cx * cx) * d2);
        } else {
            assert((cx * cx) * d2 == 0) by (nonlinear_arith)
                requires
                    cx == 0,
            ;
        }
    }
    assert((cy * cy) * d2 <= 4 * ny) by {
        if my != 0 {
            assert((b - 1) * (b - 1) * d2 == (cy * cy) * d2);
        } else {
            assert((cy * cy) * d2 == 0) by (nonlinear_arith)
                requires
                    cy == 0,
            ;
        }
    }
    assert(cx * cx + cy * cy <= s2 * s2) by (nonlinear_arith)
        requires
            (cx * cx) * d2 + (cy * cy) * d2 <= (s2 * s2) * d2,
            d2 > 0,
    ;
    assert(cx <= s2 && cy <= s2) by (nonlinear_arith)
        requires
            cx * cx + cy * cy <= s2 * s2,
            cx >= 0,
            cy >= 0,
            s2 >= 0,
    ;
    assert(a * a <= cx * cx + 2 * cx + 1 && b * b <= cy * cy + 2 * cy + 1) by (nonlinear_arith)
        requires
            0 <= a <= cx + 1,
            0 <= b <= cy + 1,
    ;
    assert((s2 + 2) * (s2 + 2) == s2 * s2 + 4 * s2 + 4) by (nonlinear_arith);
    assert((s2 + 2) * (s2 + 2) == 4 * ((speed + 1) * (speed + 1))) by (nonlinear_arith)
        requires
            s2 == 2 * speed,
    ;
    // no shorter than speed - 1
    if speed >= 1 {
        let t = s2 - 2;
        let m = a * a + b * b;
        assert((s2 * s2) * d2 < ((a + 1) * (a + 1) + (b + 1) * (b + 1)) * d2) by (nonlinear_arith)
            requires
                4 * nx < (a + 1) * (a + 1) * d2,
                4 * ny < (b + 1) * (b + 1) * d2,
                4 * nx + 4 * ny == (s2 * s2) * d2,
        ;
        assert(s2 * s2 < (a + 1) * (a + 1) + (b + 1) * (b + 1)) by (nonlinear_arith)
            requires
                (s2 * s2) * d2 < ((a + 1) * (a + 1) + (b + 1) * (b + 1)) * d2,
                d2 > 0,
        ;
        assert((a + 1) * (a + 1) + (b + 1) * (b + 1) == m + 2 * (a + b) + 2) by (nonlinear_arith)
            requires
                m == a * a + b * b,
        ;
        assert(t * t == 4 * ((speed - 1) * (speed - 1))) by (nonlinear_arith)
            requires
                t == 2 * speed - 2,
        ;
        if m < t * t {
            assert((a + b) * (a + b) <= 2 * m) by (nonlinear_arith)
                requires
                    m == a * a + b * b,
            ;
            assert(2 * (a + b) <= 3 * t) by (nonlinear_arith)
                requires
                    (a + b) * (a + b) <= 2 * m,
                    m < t * t,
                    a + b >= 0,
                    t >= 0,
            ;
            assert(s2 * s2 == t * t + 4 * t + 4) by (nonlinear_arith)
                requires
                    t == s2 - 2,
            ;
            assert(false);
        }
    }
}

/// Executable form of [`step_toward`], for a coordinate `delta` of a
/// vector of squared length `d2`.
pub fn step_toward_of(delta: i64, speed: u32, d2: u128) -> (s: i128)
    requires
        -0x8000_0000 <= delta <= 0x8000_0000,
        0 < d2 <= 0x8000_0000_0000_0000,
    ensures
        s == step_toward(delta as int, speed as int, d2 as int),
        -0x1_0000_0000_0000_0000 <= s <= 0x1_0000_0000_0000_0000,
{
    let a: u128 = if delta >= 0 { delta as u128 } else { (-delta) as u128 };
    proof {
        lemma_square_range(a as int, 0x8000_0000);
        lemma_square_range(speed as int, 0xffff_ffff);
        lemma_mul_range(
            a * a,
            speed * speed,
            0x4000_0000_0000_0000,
            0xffff_fffe_0000_0001,
        );
        assert(a * a == delta * delta) by (nonlinear_arith)
            requires
                a == delta || a == -delta,
        ;
    }
    let sp: u128 = speed as u128;
    let n: u128 = (a * a) * (sp * sp);
    let q: u128 = n / d2;
    let rem: u128 = n % d2;
    let part: u128 = (4 * rem) / d2;
    proof {
        // 4 * n == (4 * q + part) * d2 + (4 * rem) % d2
        lemma_fundamental_div_mod(n as int, d2 as int);
        lemma_fundamental_div_mod(4 * rem, d2 as int);
        lemma_mod_bound(4 * rem, d2 as int);
        assert(d2 * q == q * d2) by (nonlinear_arith);
        assert(d2 * part == part * d2) by (nonlinear_arith);
        assert((4 * q + part) * d2 == 4 * (q * d2) + part * d2) by (nonlinear_arith);
        assert((4 * q + part + 1) * d2 == 4 * (q * d2) + part * d2 + d2) by (nonlinear_arith);
        lemma_div_unique(4 * n, d2 as int, 4 * q + part);
        lemma_div_bracket(n as int, d2 as int);
        assert(q <= n) by (nonlinear_arith)
            requires
                q * d2 <= n,
                d2 >= 1,
                q >= 0,
        ;
    }
    let f: u128 = 4 * q + part;
    let w: u128 = isqrt(f);
    let m: u128 = (w + 1) / 2;
    if delta >= 0 {
        m as i128
    } else {
        -(m as i128)
    }
}

} // verus!
