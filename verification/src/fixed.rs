//! Saturating fixed-point arithmetic.
//!
//! A quantity is an `i64` that counts millionths of its unit (metres, seconds,
//! metres per second, radians). Every operation computes the exact result,
//! rounds it toward zero and clamps it to `[-LIMIT, LIMIT]`, so none of them
//! can overflow and none needs a precondition.

use vstd::prelude::*;

verus! {

/// The fixed-point representation of `1`.
pub const ONE: i64 = 1_000_000;

/// The largest magnitude a quantity can take; results beyond it saturate.
pub const LIMIT: i64 = 0x7fff_ffff_ffff_ffff;

/// `v` clamped to the representable range.
pub open spec fn clamp(v: int) -> i64 {
    if v > LIMIT {
        LIMIT
    } else if v < -LIMIT {
        (-LIMIT) as i64
    } else {
        v as i64
    }
}

/// The quotient of `a` by `b`, rounded toward zero (`0` where `b` is `0`).
pub open spec fn trunc_div(a: int, b: int) -> int {
    if b == 0 {
        0
    } else if a >= 0 && b > 0 {
        a / b
    } else if a >= 0 {
        -(a / (-b))
    } else if b > 0 {
        -((-a) / b)
    } else {
        (-a) / (-b)
    }
}

/// `r` is the integer square root of `n`, rounded down.
pub open spec fn is_floor_sqrt(n: int, r: int) -> bool {
    0 <= r && r * r <= n < (r + 1) * (r + 1)
}

/// The integer square root of `n`, rounded down (`0` for a negative `n`).
pub open spec fn floor_sqrt(n: int) -> int {
    if n <= 0 {
        0
    } else {
        choose|r: int| is_floor_sqrt(n, r)
    }
}

pub open spec fn add_spec(a: i64, b: i64) -> i64 {
    clamp(a + b)
}

pub open spec fn sub_spec(a: i64, b: i64) -> i64 {
    clamp(a - b)
}

pub open spec fn neg_spec(a: i64) -> i64 {
    clamp(-a)
}

pub open spec fn abs_spec(a: i64) -> i64 {
    if a < 0 {
        clamp(-a)
    } else {
        a
    }
}

pub open spec fn min_spec(a: i64, b: i64) -> i64 {
    if a <= b {
        a
    } else {
        b
    }
}

pub open spec fn max_spec(a: i64, b: i64) -> i64 {
    if a >= b {
        a
    } else {
        b
    }
}

/// The product of two quantities: `a * b / ONE`.
#[verifier::opaque]
pub open spec fn mul_spec(a: i64, b: i64) -> i64 {
    clamp(trunc_div(a * b, ONE as int))
}

/// The quotient of two quantities: `a * ONE / b`. Dividing by zero saturates
/// in the direction of `a`'s sign, and `0 / 0` is `0`.
#[verifier::opaque]
pub open spec fn div_spec(a: i64, b: i64) -> i64 {
    if b == 0 {
        if a > 0 {
            LIMIT
        } else if a < 0 {
            (-LIMIT) as i64
        } else {
            0
        }
    } else {
        clamp(trunc_div(a * ONE, b as int))
    }
}

/// The square root of a quantity; `0` for a negative one.
#[verifier::opaque]
pub open spec fn sqrt_spec(a: i64) -> i64 {
    floor_sqrt(a * ONE) as i64
}

/// `n` whole units.
pub open spec fn from_int_spec(n: i64) -> i64 {
    clamp(n * ONE)
}

/// The quantity `n / d` for integers `n` and `d`.
#[verifier::opaque]
pub open spec fn from_ratio_spec(n: i64, d: i64) -> i64 {
    if d == 0 {
        div_spec(from_int_spec(n), 0)
    } else {
        clamp(trunc_div(n * ONE, d as int))
    }
}

/// `a + (b - a) * t`.
pub open spec fn lerp_spec(a: i64, b: i64, t: i64) -> i64 {
    add_spec(a, mul_spec(sub_spec(b, a), t))
}

/// A floor square root is unique.
pub proof fn lemma_floor_sqrt_unique(n: int, r: int, s: int)
    requires
        is_floor_sqrt(n, r),
        is_floor_sqrt(n, s),
    ensures
        r == s,
{
    if r < s {
        assert((r + 1) * (r + 1) <= s * s) by (nonlinear_arith)
            requires
                0 <= r,
                r + 1 <= s,
        ;
    } else if s < r {
        assert((s + 1) * (s + 1) <= r * r) by (nonlinear_arith)
            requires
                0 <= s,
                s + 1 <= r,
        ;
    }
}

/// Whatever satisfies `is_floor_sqrt` is the value of `floor_sqrt`.
pub proof fn lemma_floor_sqrt_is(n: int, r: int)
    requires
        n > 0,
        is_floor_sqrt(n, r),
    ensures
        floor_sqrt(n) == r,
{
    let c = choose|c: int| is_floor_sqrt(n, c);
    lemma_floor_sqrt_unique(n, r, c);
}

/// The product of two quantities that are not negative is not negative.
pub proof fn lemma_mul_nonnegative(a: i64, b: i64)
    requires
        a >= 0,
        b >= 0,
    ensures
        mul_spec(a, b) >= 0,
{
    reveal(mul_spec);
    assert(a * b >= 0) by (nonlinear_arith)
        requires
            a >= 0,
            b >= 0,
    ;
    assert((a * b) / (ONE as int) >= 0) by (nonlinear_arith)
        requires
            a * b >= 0,
            ONE == 1_000_000,
    ;
}

/// The quotient of a quantity that is not negative by a positive one is not
/// negative, and not more than one where the first is not more than the
/// second.
pub proof fn lemma_div_bounds(a: i64, b: i64)
    requires
        a >= 0,
        b > 0,
    ensures
        div_spec(a, b) >= 0,
        a <= b ==> div_spec(a, b) <= ONE,
{
    reveal(div_spec);
    let wide = a * ONE;
    assert(wide >= 0) by (nonlinear_arith)
        requires
            a >= 0,
            wide == a * ONE,
            ONE == 1_000_000,
    ;
    assert(wide / (b as int) >= 0) by (nonlinear_arith)
        requires
            wide >= 0,
            b > 0,
    ;
    if a <= b {
        assert(wide / (b as int) <= ONE) by (nonlinear_arith)
            requires
                wide == a * ONE,
                0 <= a <= b,
                b > 0,
                ONE == 1_000_000,
        ;
    }
}

fn saturate(v: i128) -> (r: i64)
    ensures
        r == clamp(v as int),
{
    if v > LIMIT as i128 {
        LIMIT
    } else if v < -(LIMIT as i128) {
        -LIMIT
    } else {
        v as i64
    }
}

fn wide_trunc_div(a: i128, b: i128) -> (r: i128)
    requires
        b != 0,
        -0x4000_0000_0000_0000_0000_0000_0000_0000 <= a <= 0x4000_0000_0000_0000_0000_0000_0000_0000,
        -0x4000_0000_0000_0000_0000_0000_0000_0000 <= b <= 0x4000_0000_0000_0000_0000_0000_0000_0000,
    ensures
        r == trunc_div(a as int, b as int),
{
    if a >= 0 && b > 0 {
        a / b
    } else if a >= 0 {
        let nb: i128 = -b;
        let q: i128 = a / nb;
        assert(0 <= q <= a) by (nonlinear_arith)
            requires
                a >= 0,
                nb > 0,
                q == a / nb,
        ;
        -q
    } else if b > 0 {
        let na: i128 = -a;
        let q: i128 = na / b;
        assert(0 <= q <= na) by (nonlinear_arith)
            requires
                na >= 0,
                b > 0,
                q == na / b,
        ;
        -q
    } else {
        let na: i128 = -a;
        let nb: i128 = -b;
        na / nb
    }
}

/// `a` multiplied by the scale, in a width that holds the exact product.
fn scale_up(a: i64) -> (r: i128)
    ensures
        r == a * ONE,
{
    (a as i128) * 1_000_000
}

/// The floor of the square root of `n`, by bisection.
fn isqrt(n: u128) -> (r: u128)
    requires
        n < 0x1_0000_0000_0000_0000_0000_0000,
    ensures
        is_floor_sqrt(n as int, r as int),
        r < 0x1_0000_0000_0000,
{
    let mut lo: u128 = 0;
    let mut hi: u128 = 0x1_0000_0000_0000;
    assert(0x1_0000_0000_0000u128 * 0x1_0000_0000_0000u128
        == 0x1_0000_0000_0000_0000_0000_0000u128) by (nonlinear_arith);
    while hi - lo > 1
        invariant
            lo < hi <= 0x1_0000_0000_0000,
            lo * lo <= n < hi * hi,
        decreases hi - lo,
    {
        let mid: u128 = lo + (hi - lo) / 2;
        assert(mid * mid < 0x1_0000_0000_0000 * 0x1_0000_0000_0000) by (nonlinear_arith)
            requires
                0 <= mid < 0x1_0000_0000_0000,
        ;
        if mid * mid <= n {
            lo = mid;
        } else {
            hi = mid;
        }
    }
    lo
}

pub fn fx_add(a: i64, b: i64) -> (r: i64)
    ensures
        r == add_spec(a, b),
{
    saturate(a as i128 + b as i128)
}

pub fn fx_sub(a: i64, b: i64) -> (r: i64)
    ensures
        r == sub_spec(a, b),
{
    saturate(a as i128 - b as i128)
}

pub fn fx_neg(a: i64) -> (r: i64)
    ensures
        r == neg_spec(a),
{
    saturate(-(a as i128))
}

pub fn fx_abs(a: i64) -> (r: i64)
    ensures
        r == abs_spec(a),
{
    if a < 0 {
        saturate(-(a as i128))
    } else {
        a
    }
}

pub fn fx_min(a: i64, b: i64) -> (r: i64)
    ensures
        r == min_spec(a, b),
{
    if a <= b {
        a
    } else {
        b
    }
}

pub fn fx_max(a: i64, b: i64) -> (r: i64)
    ensures
        r == max_spec(a, b),
{
    if a >= b {
        a
    } else {
        b
    }
}

pub fn fx_mul(a: i64, b: i64) -> (r: i64)
    ensures
        r == mul_spec(a, b),
{
    reveal(mul_spec);
    assert(-0x4000_0000_0000_0000_0000_0000_0000_0000 <= a * b
        <= 0x4000_0000_0000_0000_0000_0000_0000_0000) by (nonlinear_arith)
        requires
            -0x8000_0000_0000_0000 <= a <= 0x8000_0000_0000_0000,
            -0x8000_0000_0000_0000 <= b <= 0x8000_0000_0000_0000,
    ;
    let wide: i128 = (a as i128) * (b as i128);
    saturate(wide_trunc_div(wide, ONE as i128))
}

pub fn fx_div(a: i64, b: i64) -> (r: i64)
    ensures
        r == div_spec(a, b),
{
    reveal(div_spec);
    if b == 0 {
        if a > 0 {
            LIMIT
        } else if a < 0 {
            -LIMIT
        } else {
            0
        }
    } else {
        let wide: i128 = scale_up(a);
        saturate(wide_trunc_div(wide, b as i128))
    }
}

pub fn fx_sqrt(a: i64) -> (r: i64)
    ensures
        r == sqrt_spec(a),
        r >= 0,
{
    reveal(sqrt_spec);
    if a <= 0 {
        0
    } else {
        let wide: u128 = scale_up(a) as u128;
        let root = isqrt(wide);
        proof {
            lemma_floor_sqrt_is(wide as int, root as int);
        }
        root as i64
    }
}

pub fn from_int(n: i64) -> (r: i64)
    ensures
        r == from_int_spec(n),
{
    saturate(scale_up(n))
}

pub fn from_ratio(n: i64, d: i64) -> (r: i64)
    ensures
        r == from_ratio_spec(n, d),
{
    reveal(from_ratio_spec);
    if d == 0 {
        fx_div(from_int(n), 0)
    } else {
        let wide: i128 = scale_up(n);
        saturate(wide_trunc_div(wide, d as i128))
    }
}

pub fn lerp(a: i64, b: i64, t: i64) -> (r: i64)
    ensures
        r == lerp_spec(a, b, t),
{
    fx_add(a, fx_mul(fx_sub(b, a), t))
}

} // verus!
