//! Fixed-point scalar arithmetic.
//!
//! Every scalar of the library is an `i64` in fixed-point form: the value
//! `1.0` is stored as [`ONE`]. Angles use [`QUARTER`] units per quarter turn,
//! so that counting quarter-circle pieces of an arc is exact integer
//! arithmetic. Linear interpolation is defined with a rational parameter
//! `num / den` and truncating division, which makes both endpoints exact.

use vstd::prelude::*;
use vstd::arithmetic::div_mod::lemma_div_multiples_vanish;
use vstd::arithmetic::div_mod::lemma_div_is_ordered;
use vstd::arithmetic::div_mod::lemma_div_pos_is_pos;
use vstd::arithmetic::div_mod::lemma_div_nonincreasing;
use vstd::arithmetic::mul::lemma_mul_inequality;
use vstd::arithmetic::mul::lemma_mul_nonnegative;
use vstd::arithmetic::mul::lemma_mul_unary_negation;
use vstd::arithmetic::mul::lemma_mul_upper_bound;

verus! {

/// The fixed-point unit: the real value 1.0.
pub const ONE: i64 = 1_000_000;

/// The mid-blend parameter: the real value 0.5.
pub const HALF: i64 = 500_000;

/// One quarter turn of angle (a right angle) in angle units.
pub const QUARTER: i64 = 1_000_000;

/// One full turn of angle in angle units.
pub const FULL_TURN: i64 = 4_000_000;

/// Bound on the magnitude of loaded coordinates, radii and stroke widths.
pub const COORD_LIMIT: i64 = 1_000_000_000;

/// Bound on the magnitude of coordinates of derived curves. Curves produced
/// from loaded geometry stay inside this bound, and interpolation keeps it.
pub const CURVE_LIMIT: i64 = 1_000_000_000_000;

/// Bound on the magnitude of loaded angles.
pub const ANGLE_LIMIT: i64 = 100_000_000;

/// Division that truncates toward zero, the semantics shared by every
/// scaling operation of the library.
pub open spec fn tdiv(x: int, d: int) -> int
    recommends
        d > 0,
{
    if x >= 0 {
        x / d
    } else {
        -((-x) / d)
    }
}

/// Scaling a difference by the fraction `num / den`, truncated toward zero.
pub open spec fn scale_spec(x: int, num: int, den: int) -> int
    recommends
        den > 0,
        0 <= num <= den,
{
    tdiv(x * num, den)
}

/// Linear interpolation from `a` to `b` at the rational parameter `num / den`.
pub open spec fn lerp_spec(a: int, b: int, num: int, den: int) -> int
    recommends
        den > 0,
        0 <= num <= den,
{
    a + scale_spec(b - a, num, den)
}

/// Truncating division stays between zero and its argument.
pub proof fn lemma_tdiv_bounds(x: int, d: int)
    requires
        d > 0,
    ensures
        x >= 0 ==> 0 <= tdiv(x, d) <= x,
        x < 0 ==> x <= tdiv(x, d) <= 0,
{
    if x >= 0 {
        lemma_div_pos_is_pos(x, d);
        lemma_div_nonincreasing(x, d);
    } else {
        lemma_div_pos_is_pos(-x, d);
        lemma_div_nonincreasing(-x, d);
    }
}

/// Dividing an exact multiple undoes the multiplication.
pub proof fn lemma_tdiv_multiple(x: int, d: int)
    requires
        d > 0,
    ensures
        tdiv(x * d, d) == x,
{
    if x >= 0 {
        assert(x * d >= 0) by {
            lemma_mul_nonnegative(x, d);
        }
        assert((d * x) / d == x) by {
            lemma_div_multiples_vanish(x, d);
        }
        assert(x * d == d * x);
    } else {
        assert((-x) * d >= 0) by {
            lemma_mul_nonnegative(-x, d);
        }
        assert((d * (-x)) / d == -x) by {
            lemma_div_multiples_vanish(-x, d);
        }
        assert(-(x * d) == (-x) * d) by {
            lemma_mul_unary_negation(x, d);
        }
        assert((-x) * d == d * (-x));
    }
}

/// Scaling by a fraction of at most one keeps a value between zero and itself.
pub proof fn lemma_scale_bounds(x: int, num: int, den: int)
    requires
        den > 0,
        0 <= num <= den,
    ensures
        x >= 0 ==> 0 <= scale_spec(x, num, den) <= x,
        x < 0 ==> x <= scale_spec(x, num, den) <= 0,
{
    if x >= 0 {
        assert(0 <= x * num <= x * den) by {
            lemma_mul_nonnegative(x, num);
            lemma_mul_inequality(num, den, x);
        }
        lemma_tdiv_bounds(x * num, den);
        assert((x * num) / den <= (x * den) / den) by {
            lemma_div_is_ordered(x * num, x * den, den);
        }
        lemma_tdiv_multiple(x, den);
    } else {
        assert(0 <= (-x) * num <= (-x) * den) by {
            lemma_mul_nonnegative(-x, num);
            lemma_mul_inequality(num, den, -x);
        }
        lemma_tdiv_bounds((-x) * num, den);
        assert(((-x) * num) / den <= ((-x) * den) / den) by {
            lemma_div_is_ordered((-x) * num, (-x) * den, den);
        }
        lemma_tdiv_multiple(-x, den);
        assert(x * num == -((-x) * num)) by {
            lemma_mul_unary_negation(x, num);
        }
    }
}

/// At `num == 0` a scaled difference vanishes; at `num == den` it is whole.
pub proof fn lemma_scale_endpoints(x: int, den: int)
    requires
        den > 0,
    ensures
        scale_spec(x, 0, den) == 0,
        scale_spec(x, den, den) == x,
{
    assert(x * 0 == 0);
    lemma_tdiv_multiple(x, den);
}

/// Interpolation stays between its endpoints.
pub proof fn lemma_lerp_bounds(a: int, b: int, num: int, den: int)
    requires
        den > 0,
        0 <= num <= den,
    ensures
        a <= b ==> a <= lerp_spec(a, b, num, den) <= b,
        b <= a ==> b <= lerp_spec(a, b, num, den) <= a,
{
    lemma_scale_bounds(b - a, num, den);
}

/// Interpolation is exact at both endpoints: `lerp(a, b, 0) == a` and
/// `lerp(a, b, 1) == b`.
pub proof fn lemma_lerp_endpoints(a: int, b: int, den: int)
    requires
        den > 0,
    ensures
        lerp_spec(a, b, 0, den) == a,
        lerp_spec(a, b, den, den) == b,
{
    lemma_scale_endpoints(b - a, den);
}

/// A magnitude bound divides through: `|x| <= m * d` gives
/// `|tdiv(x, d)| <= m`.
pub proof fn lemma_tdiv_upper(x: int, d: int, m: int)
    requires
        d > 0,
        m >= 0,
        -(m * d) <= x <= m * d,
    ensures
        -m <= tdiv(x, d) <= m,
{
    lemma_tdiv_bounds(x, d);
    lemma_tdiv_multiple(m, d);
    if x >= 0 {
        lemma_div_is_ordered(x, m * d, d);
    } else {
        lemma_div_is_ordered(-x, m * d, d);
    }
}

/// The absolute value of an integer.
pub open spec fn abs_spec(x: int) -> int {
    if x >= 0 {
        x
    } else {
        -x
    }
}

/// Division rounding up, for nonnegative `a` and positive `d`.
pub open spec fn ceil_div(a: int, d: int) -> int
    recommends
        a >= 0,
        d > 0,
{
    (a + d - 1) / d
}

/// `ceil_div` is the least integer at or above the exact quotient: the
/// result covers `a` in multiples of `d`, one multiple fewer does not, and
/// only `a == 0` yields zero.
pub proof fn lemma_ceil_div_props(a: int, d: int)
    requires
        a >= 0,
        d > 0,
    ensures
        ceil_div(a, d) * d >= a,
        a > 0 ==> (ceil_div(a, d) - 1) * d < a,
        a == 0 ==> ceil_div(a, d) == 0,
        a > 0 ==> ceil_div(a, d) >= 1,
        ceil_div(a, d) * d < a + d,
{
    let q = ceil_div(a, d);
    let r = (a + d - 1) % d;
    assert(a + d - 1 == d * q + r) by {
        vstd::arithmetic::div_mod::lemma_fundamental_div_mod(a + d - 1, d);
    }
    assert(0 <= r < d) by {
        vstd::arithmetic::div_mod::lemma_mod_bound(a + d - 1, d);
    }
    assert(q * d == d * q) by {
        vstd::arithmetic::mul::lemma_mul_is_commutative(q, d);
    }
    assert((q - 1) * d == q * d - 1 * d) by {
        vstd::arithmetic::mul::lemma_mul_is_distributive_sub_other_way(d, q, 1);
    }
    if a == 0 {
        assert((d - 1) / d == 0) by {
            vstd::arithmetic::div_mod::lemma_basic_div(d - 1, d);
        }
    } else {
        assert(q >= 1) by {
            lemma_div_is_ordered(d, a + d - 1, d);
            vstd::arithmetic::div_mod::lemma_div_by_self(d);
        }
    }
}

/// Truncating division of `x` by `d > 0`, on machine integers.
pub fn div_trunc(x: i64, d: i64) -> (r: i64)
    requires
        d > 0,
        x > i64::MIN,
    ensures
        r == tdiv(x as int, d as int),
{
    proof {
        lemma_tdiv_bounds(x as int, d as int);
    }
    if x >= 0 {
        let q: u64 = (x as u64) / (d as u64);
        q as i64
    } else {
        let q: u64 = ((-x) as u64) / (d as u64);
        -(q as i64)
    }
}

/// Scale `x` by the fraction `num / den`, truncating toward zero.
pub fn scale(x: i64, num: i64, den: i64) -> (r: i64)
    requires
        den > 0,
        0 <= num <= den,
        -4 * CURVE_LIMIT <= x <= 4 * CURVE_LIMIT,
        den <= ONE,
    ensures
        r == scale_spec(x as int, num as int, den as int),
        x >= 0 ==> 0 <= r <= x,
        x < 0 ==> x <= r <= 0,
{
    proof {
        lemma_scale_bounds(x as int, num as int, den as int);
        if x >= 0 {
            lemma_mul_nonnegative(x as int, num as int);
            lemma_mul_upper_bound(x as int, 4 * CURVE_LIMIT as int, num as int, ONE as int);
        } else {
            lemma_mul_nonnegative(-(x as int), num as int);
            lemma_mul_upper_bound(-(x as int), 4 * CURVE_LIMIT as int, num as int, ONE as int);
            lemma_mul_unary_negation(x as int, num as int);
        }
    }
    let p: i64 = x * num;
    div_trunc(p, den)
}

/// Linear interpolation from `a` to `b` at the parameter `num / den`.
pub fn lerp_i64(a: i64, b: i64, num: i64, den: i64) -> (r: i64)
    requires
        den > 0,
        0 <= num <= den,
        den <= ONE,
        -2 * CURVE_LIMIT <= a <= 2 * CURVE_LIMIT,
        -2 * CURVE_LIMIT <= b <= 2 * CURVE_LIMIT,
    ensures
        r == lerp_spec(a as int, b as int, num as int, den as int),
        a <= b ==> a <= r <= b,
        b <= a ==> b <= r <= a,
{
    proof {
        lemma_lerp_bounds(a as int, b as int, num as int, den as int);
    }
    let d: i64 = b - a;
    let s: i64 = scale(d, num, den);
    a + s
}

} // verus!
