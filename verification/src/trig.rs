//! Angles of fixed-point vectors and the sine and cosine of fixed-point angles.
//!
//! The three functions are defined by the polynomials written out here: an
//! argument is first reduced to an octant, where a short series is accurate
//! to about a millionth of a radian. Angles are in radians.

use crate::fixed::{
    abs_spec, add_spec, div_spec, fx_abs, fx_add, fx_div, fx_max, fx_min, fx_mul, fx_neg,
    fx_sub, max_spec, min_spec, mul_spec, neg_spec, sub_spec, ONE,
};
use vstd::prelude::*;

verus! {

/// π.
pub const PI: i64 = 3_141_593;

/// 2π.
pub const TAU: i64 = 6_283_186;

/// π/2.
pub const HALF_PI: i64 = 1_570_796;

/// π/4.
pub const QUARTER_PI: i64 = 785_398;

/// tan(π/8): below it the arctangent series is used as it stands.
pub const TAN_EIGHTH: i64 = 414_214;

/// The arctangent series `u - u³/3 + u⁵/5 - … + u¹³/13`, for a small `u`.
pub open spec fn atan_series_spec(u: i64) -> i64 {
    let u2 = mul_spec(u, u);
    let term6 = sub_spec(90_909, mul_spec(u2, 76_923));
    let term5 = sub_spec(111_111, mul_spec(u2, term6));
    let term4 = sub_spec(142_857, mul_spec(u2, term5));
    let term3 = sub_spec(200_000, mul_spec(u2, term4));
    let term2 = sub_spec(333_333, mul_spec(u2, term3));
    let term1 = sub_spec(ONE, mul_spec(u2, term2));
    mul_spec(u, term1)
}

/// The arctangent of a ratio `q` in `[0, 1]`, a value in `[0, π/4]`.
pub open spec fn atan_unit_spec(q: i64) -> i64 {
    let raw = if q > TAN_EIGHTH {
        sub_spec(QUARTER_PI, atan_series_spec(div_spec(sub_spec(ONE, q), add_spec(ONE, q))))
    } else {
        atan_series_spec(q)
    };
    min_spec(max_spec(raw, 0), QUARTER_PI)
}

/// The angle of `(x, y)` in the first quadrant, for magnitudes `ax`, `ay`.
pub open spec fn base_angle_spec(ay: i64, ax: i64) -> i64 {
    if ay <= ax {
        atan_unit_spec(div_spec(ay, ax))
    } else {
        sub_spec(HALF_PI, atan_unit_spec(div_spec(ax, ay)))
    }
}

/// The angle of the vector `(x, y)`, counter-clockwise from the positive `x`
/// axis, in `[-π, π]`; `0` for the zero vector.
#[verifier::opaque]
pub open spec fn atan2_spec(y: i64, x: i64) -> i64 {
    if x == 0 && y == 0 {
        0
    } else {
        let base = base_angle_spec(abs_spec(y), abs_spec(x));
        let upper = if x >= 0 {
            base
        } else {
            sub_spec(PI, base)
        };
        if y < 0 {
            neg_spec(upper)
        } else {
            upper
        }
    }
}

/// `a` brought into `[-π, π]` by whole turns.
pub open spec fn wrap_angle_spec(a: i64) -> i64 {
    let m: int = if a >= 0 {
        (a as int) % (TAU as int)
    } else {
        -((-(a as int)) % (TAU as int))
    };
    if m > PI {
        (m - TAU) as i64
    } else if m < -PI {
        (m + TAU) as i64
    } else {
        m as i64
    }
}

/// The sine series `u - u³/6 + u⁵/120 - u⁷/5040`, for `u` in `[0, π/4]`.
pub open spec fn sin_series_spec(u: i64) -> i64 {
    let u2 = mul_spec(u, u);
    let term3 = sub_spec(ONE, div_spec(u2, 42_000_000));
    let term2 = sub_spec(ONE, mul_spec(div_spec(u2, 20_000_000), term3));
    let term1 = sub_spec(ONE, mul_spec(div_spec(u2, 6_000_000), term2));
    min_spec(max_spec(mul_spec(u, term1), 0), ONE)
}

/// The cosine series `1 - u²/2 + u⁴/24 - u⁶/720 + u⁸/40320`, for `u` in `[0, π/4]`.
pub open spec fn cos_series_spec(u: i64) -> i64 {
    let u2 = mul_spec(u, u);
    let term4 = sub_spec(ONE, div_spec(u2, 56_000_000));
    let term3 = sub_spec(ONE, mul_spec(div_spec(u2, 30_000_000), term4));
    let term2 = sub_spec(ONE, mul_spec(div_spec(u2, 12_000_000), term3));
    let term1 = sub_spec(ONE, mul_spec(div_spec(u2, 2_000_000), term2));
    min_spec(max_spec(term1, 0), ONE)
}

/// Sine and cosine of an angle in `[0, π/2]`.
pub open spec fn sin_cos_quadrant_spec(m: i64) -> (i64, i64) {
    if m > QUARTER_PI {
        let u = sub_spec(HALF_PI, m);
        (cos_series_spec(u), sin_series_spec(u))
    } else {
        (sin_series_spec(m), cos_series_spec(m))
    }
}

/// The sine and the cosine of `a`, each in `[-1, 1]`.
#[verifier::opaque]
pub open spec fn sin_cos_spec(a: i64) -> (i64, i64) {
    let w = wrap_angle_spec(a);
    let m = abs_spec(w);
    let (s, c) = if m > HALF_PI {
        let (s, c) = sin_cos_quadrant_spec(sub_spec(PI, m));
        (s, neg_spec(c))
    } else {
        sin_cos_quadrant_spec(m)
    };
    if w < 0 {
        (neg_spec(s), c)
    } else {
        (s, c)
    }
}

fn atan_series(u: i64) -> (r: i64)
    ensures
        r == atan_series_spec(u),
{
    let u2 = fx_mul(u, u);
    let term6 = fx_sub(90_909, fx_mul(u2, 76_923));
    let term5 = fx_sub(111_111, fx_mul(u2, term6));
    let term4 = fx_sub(142_857, fx_mul(u2, term5));
    let term3 = fx_sub(200_000, fx_mul(u2, term4));
    let term2 = fx_sub(333_333, fx_mul(u2, term3));
    let term1 = fx_sub(ONE, fx_mul(u2, term2));
    fx_mul(u, term1)
}

fn atan_unit(q: i64) -> (r: i64)
    ensures
        r == atan_unit_spec(q),
        0 <= r <= QUARTER_PI,
{
    let raw = if q > TAN_EIGHTH {
        fx_sub(QUARTER_PI, atan_series(fx_div(fx_sub(ONE, q), fx_add(ONE, q))))
    } else {
        atan_series(q)
    };
    fx_min(fx_max(raw, 0), QUARTER_PI)
}

fn base_angle(ay: i64, ax: i64) -> (r: i64)
    ensures
        r == base_angle_spec(ay, ax),
        0 <= r <= HALF_PI,
{
    if ay <= ax {
        atan_unit(fx_div(ay, ax))
    } else {
        fx_sub(HALF_PI, atan_unit(fx_div(ax, ay)))
    }
}

/// The angle of the vector `(x, y)`. On the axes and on the diagonal of the
/// first quadrant it is exact.
pub fn atan2(y: i64, x: i64) -> (r: i64)
    ensures
        r == atan2_spec(y, x),
        -PI <= r <= PI,
        y == 0 && x > 0 ==> r == 0,
        x == 0 && y > 0 ==> r == HALF_PI,
        y == 0 && -crate::fixed::LIMIT <= x < 0 ==> r == PI,
        x == 0 && -crate::fixed::LIMIT <= y < 0 ==> r == -HALF_PI,
        x == y && x > 0 ==> r == QUARTER_PI,
{
    proof {
        if x > 0 {
            lemma_atan2_axes(x);
        }
        if y > 0 {
            lemma_atan2_axes(y);
        }
        if -crate::fixed::LIMIT <= x < 0 {
            lemma_atan2_axes((-x) as i64);
        }
        if -crate::fixed::LIMIT <= y < 0 {
            lemma_atan2_axes((-y) as i64);
        }
    }
    reveal(atan2_spec);
    if x == 0 && y == 0 {
        0
    } else {
        let base = base_angle(fx_abs(y), fx_abs(x));
        let upper = if x >= 0 {
            base
        } else {
            fx_sub(PI, base)
        };
        if y < 0 {
            fx_neg(upper)
        } else {
            upper
        }
    }
}

/// `a` brought into `[-π, π]` by whole turns.
pub fn wrap_angle(a: i64) -> (r: i64)
    ensures
        r == wrap_angle_spec(a),
        -PI <= r <= PI,
{
    let m: i128 = if a >= 0 {
        (a as i128) % 6_283_186
    } else {
        -((-(a as i128)) % 6_283_186)
    };
    if m > 3_141_593 {
        (m - 6_283_186) as i64
    } else if m < -3_141_593 {
        (m + 6_283_186) as i64
    } else {
        m as i64
    }
}

fn sin_series(u: i64) -> (r: i64)
    ensures
        r == sin_series_spec(u),
        0 <= r <= ONE,
{
    let u2 = fx_mul(u, u);
    let term3 = fx_sub(ONE, fx_div(u2, 42_000_000));
    let term2 = fx_sub(ONE, fx_mul(fx_div(u2, 20_000_000), term3));
    let term1 = fx_sub(ONE, fx_mul(fx_div(u2, 6_000_000), term2));
    fx_min(fx_max(fx_mul(u, term1), 0), ONE)
}

fn cos_series(u: i64) -> (r: i64)
    ensures
        r == cos_series_spec(u),
        0 <= r <= ONE,
{
    let u2 = fx_mul(u, u);
    let term4 = fx_sub(ONE, fx_div(u2, 56_000_000));
    let term3 = fx_sub(ONE, fx_mul(fx_div(u2, 30_000_000), term4));
    let term2 = fx_sub(ONE, fx_mul(fx_div(u2, 12_000_000), term3));
    let term1 = fx_sub(ONE, fx_mul(fx_div(u2, 2_000_000), term2));
    fx_min(fx_max(term1, 0), ONE)
}

fn sin_cos_quadrant(m: i64) -> (r: (i64, i64))
    ensures
        r == sin_cos_quadrant_spec(m),
        0 <= r.0 <= ONE,
        0 <= r.1 <= ONE,
{
    if m > QUARTER_PI {
        let u = fx_sub(HALF_PI, m);
        (cos_series(u), sin_series(u))
    } else {
        (sin_series(m), cos_series(m))
    }
}

/// The sine and the cosine of `a`.
pub fn sin_cos(a: i64) -> (r: (i64, i64))
    ensures
        r == sin_cos_spec(a),
        -ONE <= r.0 <= ONE,
        -ONE <= r.1 <= ONE,
{
    reveal(sin_cos_spec);
    let w = wrap_angle(a);
    let m = fx_abs(w);
    let (s, c) = if m > HALF_PI {
        let (s, c) = sin_cos_quadrant(fx_sub(PI, m));
        (s, fx_neg(c))
    } else {
        sin_cos_quadrant(m)
    };
    if w < 0 {
        (fx_neg(s), c)
    } else {
        (s, c)
    }
}

/// The angle of a vector lies in `[-π, π]`.
pub proof fn lemma_atan2_bounds(y: i64, x: i64)
    ensures
        -PI <= atan2_spec(y, x) <= PI,
{
    reveal(atan2_spec);
    if !(x == 0 && y == 0) {
        let ay = abs_spec(y);
        let ax = abs_spec(x);
        let base = base_angle_spec(ay, ax);
        assert(0 <= atan_unit_spec(div_spec(ay, ax)) <= QUARTER_PI);
        assert(0 <= atan_unit_spec(div_spec(ax, ay)) <= QUARTER_PI);
        assert(0 <= base <= HALF_PI);
    }
}

/// On the axes and the diagonals the angle is exact.
pub proof fn lemma_atan2_axes(d: i64)
    requires
        0 < d <= crate::fixed::LIMIT,
    ensures
        atan2_spec(0, d) == 0,
        atan2_spec(d, 0) == HALF_PI,
        atan2_spec(0, (-d) as i64) == PI,
        atan2_spec((-d) as i64, 0) == -HALF_PI,
        atan2_spec(d, d) == QUARTER_PI,
{
    reveal(mul_spec);
    reveal(div_spec);
    reveal(atan2_spec);
    assert(crate::fixed::trunc_div(0, d as int) == 0);
    assert(div_spec(0, d) == 0);
    assert(mul_spec(0, 0) == 0);
    assert(atan_series_spec(0) == 0);
    assert(atan_unit_spec(0) == 0);
    assert(abs_spec((-d) as i64) == d);
    assert(div_spec(d, d) == ONE) by {
        assert(d * ONE / (d as int) == ONE) by (nonlinear_arith)
            requires
                d > 0,
        ;
    }
    assert(sub_spec(ONE, ONE) == 0);
    assert(div_spec(0, add_spec(ONE, ONE)) == 0);
    assert(atan_unit_spec(ONE) == QUARTER_PI);
}

} // verus!
