//! Fixed-point helpers: scale, rounding divisions, angle folding, square root.
use vstd::prelude::*;

verus! {

/// One whole unit (a degree, a knot, a metre per second) in micro-units.
pub const MICRO: i64 = 1_000_000;

/// A full turn, in micro-degrees.
pub const FULL_TURN: i64 = 360_000_000;

/// Half a turn, in micro-degrees.
pub const HALF_TURN: i64 = 180_000_000;

/// `n / d` rounded towards negative infinity (`d > 0`).
pub open spec fn floor_div(n: int, d: int) -> int {
    n / d
}

/// Bound on the wide numerators that the divisions below accept.
pub const WIDE_LIMIT: i128 = 1_000_000_000_000_000_000_000_000_000_000_000_000;

/// `n / d` rounded to the nearest integer, halves away from zero (`d > 0`).
pub open spec fn round_div(n: int, d: int) -> int {
    if n >= 0 {
        (2 * n + d) / (2 * d)
    } else {
        -((-2 * n + d) / (2 * d))
    }
}

/// Floor division of a wide integer by a positive divisor.
pub fn floor_div_i128(n: i128, d: i128) -> (r: i128)
    requires
        0 < d <= WIDE_LIMIT,
        -WIDE_LIMIT <= n <= WIDE_LIMIT,
    ensures
        r == floor_div(n as int, d as int),
{
    let du = d as u128;
    if n >= 0 {
        let q = (n as u128) / du;
        proof {
            vstd::arithmetic::div_mod::lemma_div_is_ordered_by_denominator(n as int, 1, d as int);
        }
        q as i128
    } else {
        let m = (-n) as u128;
        let q = (m + du - 1) / du;
        proof {
            lemma_floor_div_negative(n as int, d as int);
            vstd::arithmetic::div_mod::lemma_div_is_ordered_by_denominator(m + d - 1, 1, d as int);
        }
        -(q as i128)
    }
}

/// `n / d` rounded half away from zero.
pub fn round_div_i64(n: i64, d: i64) -> (r: i64)
    requires
        d > 0,
        n > i64::MIN,
    ensures
        r == round_div(n as int, d as int),
{
    let dw = d as u128;
    if n >= 0 {
        let m = n as u128;
        let q = (2 * m + dw) / (2 * dw);
        proof {
            lemma_round_div_bound(m as int, d as int);
        }
        q as i64
    } else {
        let m = (-n) as u128;
        let q = (2 * m + dw) / (2 * dw);
        proof {
            lemma_round_div_bound(m as int, d as int);
        }
        -(q as i64)
    }
}

proof fn lemma_round_div_bound(m: int, d: int)
    requires
        d > 0,
        m >= 0,
    ensures
        0 <= (2 * m + d) / (2 * d) <= m,
{
    assert(2 * m + d < (2 * d) * (m + 1)) by (nonlinear_arith)
        requires d > 0, m >= 0;
    vstd::arithmetic::div_mod::lemma_div_pos_is_pos(2 * m + d, 2 * d);
    vstd::arithmetic::div_mod::lemma_fundamental_div_mod(2 * m + d, 2 * d);
    let q = (2 * m + d) / (2 * d);
    let r = (2 * m + d) % (2 * d);
    assert(q <= m) by (nonlinear_arith)
        requires
            2 * m + d == (2 * d) * q + r,
            r >= 0,
            2 * m + d < (2 * d) * (m + 1),
            d > 0;
}

proof fn lemma_floor_div_negative(n: int, d: int)
    requires
        n < 0,
        d > 0,
    ensures
        n / d == -((-n + d - 1) / d),
{
    let q = (-n + d - 1) / d;
    let r = (-n + d - 1) % d;
    vstd::arithmetic::div_mod::lemma_fundamental_div_mod(-n + d - 1, d);
    vstd::arithmetic::div_mod::lemma_fundamental_div_mod(n, d);
    assert(n == d * (-q) + (d - 1 - r)) by (nonlinear_arith)
        requires -n + d - 1 == d * q + r;
    vstd::arithmetic::div_mod::lemma_fundamental_div_mod_converse_div(n, d, -q, d - 1 - r);
}

/// Clamps an integer into `[lo, hi]`.
pub open spec fn clamp(v: int, lo: int, hi: int) -> int {
    if v < lo {
        lo
    } else if v > hi {
        hi
    } else {
        v
    }
}

/// An angle brought into `[0°, 360°)`.
pub open spec fn turn_of(a: int) -> int {
    a % (FULL_TURN as int)
}

/// An angle folded into `(-180°, 180°]`.
pub open spec fn fold_half(a: int) -> int {
    if turn_of(a) > HALF_TURN {
        turn_of(a) - FULL_TURN
    } else {
        turn_of(a)
    }
}

/// The absolute value of an integer.
pub open spec fn abs(a: int) -> int {
    if a < 0 {
        -a
    } else {
        a
    }
}

/// Brings an angle into `[0°, 360°)`.
pub fn normalize_turn(a: i64) -> (r: i64)
    ensures
        r == turn_of(a as int),
        0 <= r < FULL_TURN,
{
    let full = FULL_TURN as u64;
    if a >= 0 {
        let m = (a as u64) % full;
        m as i64
    } else {
        let w = (-(a as i128)) as u128;
        let m = (w % (full as u128)) as u64;
        proof {
            lemma_mod_of_negative(a as int, FULL_TURN as int);
        }
        if m == 0 {
            0
        } else {
            (full - m) as i64
        }
    }
}

proof fn lemma_mod_of_negative(a: int, d: int)
    requires
        a < 0,
        d > 0,
    ensures
        (-a) % d == 0 ==> a % d == 0,
        (-a) % d != 0 ==> a % d == d - (-a) % d,
{
    let q = (-a) / d;
    let r = (-a) % d;
    vstd::arithmetic::div_mod::lemma_fundamental_div_mod(-a, d);
    if r == 0 {
        assert(a == (-q) * d + 0) by (nonlinear_arith)
            requires -a == d * q + r, r == 0;
        vstd::arithmetic::div_mod::lemma_fundamental_div_mod_converse_mod(a, d, -q, 0);
    } else {
        assert(a == (-q - 1) * d + (d - r)) by (nonlinear_arith)
            requires -a == d * q + r;
        vstd::arithmetic::div_mod::lemma_fundamental_div_mod_converse_mod(a, d, -q - 1, d - r);
    }
}

/// Folds an angle into `(-180°, 180°]`.
pub fn fold_half_turn(a: i64) -> (r: i64)
    ensures
        r == fold_half(a as int),
        -HALF_TURN < r <= HALF_TURN,
{
    let t = normalize_turn(a);
    if t > HALF_TURN {
        t - FULL_TURN
    } else {
        t
    }
}

/// The integer square root: the largest `r` with `r * r <= n`.
pub open spec fn is_isqrt(n: int, r: int) -> bool {
    r >= 0 && r * r <= n && n < (r + 1) * (r + 1)
}

/// The integer square root of `n`, rounded down.
pub fn isqrt(n: u128) -> (r: u64)
    ensures
        is_isqrt(n as int, r as int),
{
    let mut lo: u128 = 0;
    let mut hi: u128 = 0x1_0000_0000_0000_0000;
    assert(hi * hi > u128::MAX) by (nonlinear_arith)
        requires hi == 0x1_0000_0000_0000_0000u128;
    while hi - lo > 1
        invariant
            lo < hi <= 0x1_0000_0000_0000_0000,
            lo * lo <= n,
            n < hi * hi,
        decreases hi - lo,
    {
        let mid = lo + (hi - lo) / 2;
        assert(mid * mid <= u128::MAX) by (nonlinear_arith)
            requires mid < 0x1_0000_0000_0000_0000;
        if mid * mid <= n {
            lo = mid;
        } else {
            hi = mid;
        }
    }
    assert(hi == lo + 1);
    lo as u64
}

} // verus!
