//! Fixed-point sine and cosine on angle units.
//!
//! An angle is an `i64` holding [`QUARTER`] units per quarter turn. The sine
//! is reduced to the first quadrant and approximated there by a cubic
//! polynomial that is exact at both ends of the quadrant, so points placed on
//! a circle at axis-aligned angles land exactly on the axes.

use vstd::prelude::*;
use vstd::arithmetic::div_mod::lemma_mod_multiples_vanish;
use vstd::arithmetic::div_mod::lemma_mod_bound;
use vstd::arithmetic::div_mod::lemma_div_is_ordered;
use vstd::arithmetic::div_mod::lemma_div_multiples_vanish;
use vstd::arithmetic::div_mod::lemma_div_pos_is_pos;
use vstd::arithmetic::mul::lemma_mul_nonnegative;
use vstd::arithmetic::mul::lemma_mul_upper_bound;
use crate::fixed::ONE;
use crate::fixed::QUARTER;
use crate::fixed::FULL_TURN;
use crate::fixed::div_trunc;

verus! {

/// Largest angle magnitude the trigonometric functions accept.
pub const TRIG_LIMIT: i64 = 202_000_000;

/// A multiple of a full turn at least as large as `TRIG_LIMIT`, used to move
/// an angle into nonnegative range before reduction.
pub const TRIG_SHIFT: i64 = 204_000_000;

/// First-quadrant cubic coefficients: `sin((pi/2)(u/Q))` is approximated by
/// `u (A - B u^2 / Q^2) / Q` in fixed point, with `A - B == ONE` so the
/// quarter-turn value is exactly `ONE`.
pub const SIN_A: i64 = 1_570_796;

/// See [`SIN_A`].
pub const SIN_B: i64 = 570_796;

/// An angle reduced to one turn: the Euclidean remainder in `[0, FULL_TURN)`.
pub open spec fn angle_norm(a: int) -> int {
    a % (FULL_TURN as int)
}

/// The first-quadrant sine polynomial, clamped to `ONE`.
pub open spec fn sin_core_spec(u: int) -> int
    recommends
        0 <= u <= QUARTER,
{
    let v = (u * u) / (QUARTER as int);
    let w = ((SIN_B as int) * v) / (QUARTER as int);
    let c = (SIN_A as int) - w;
    let s = (u * c) / (QUARTER as int);
    if s > ONE {
        ONE as int
    } else {
        s
    }
}

/// The fixed-point sine of an angle in quarter-turn units.
pub open spec fn sin_spec(a: int) -> int {
    let m = angle_norm(a);
    if m <= QUARTER {
        sin_core_spec(m)
    } else if m <= 2 * QUARTER {
        sin_core_spec(2 * QUARTER - m)
    } else if m <= 3 * QUARTER {
        -sin_core_spec(m - 2 * QUARTER)
    } else {
        -sin_core_spec(4 * (QUARTER as int) - m)
    }
}

/// The fixed-point cosine: the sine advanced by a quarter turn.
pub open spec fn cos_spec(a: int) -> int {
    sin_spec(a + QUARTER)
}

/// The first-quadrant polynomial stays within `[0, ONE]` and hits both ends
/// of the quadrant exactly.
pub proof fn lemma_sin_core_range(u: int)
    requires
        0 <= u <= QUARTER,
    ensures
        0 <= sin_core_spec(u) <= ONE,
        u == 0 ==> sin_core_spec(u) == 0,
        u == QUARTER ==> sin_core_spec(u) == ONE,
{
    let q = QUARTER as int;
    let v = (u * u) / q;
    assert(0 <= u * u) by {
        lemma_mul_nonnegative(u, u);
    }
    assert(0 <= v) by {
        lemma_div_pos_is_pos(u * u, q);
    }
    assert(u * u <= q * q) by {
        lemma_mul_upper_bound(u, q, u, q);
    }
    assert(v <= q) by {
        lemma_div_is_ordered(u * u, q * q, q);
        lemma_div_multiples_vanish(q, q);
    }
    let w = ((SIN_B as int) * v) / q;
    assert(0 <= (SIN_B as int) * v) by {
        lemma_mul_nonnegative(SIN_B as int, v);
    }
    assert(0 <= w) by {
        lemma_div_pos_is_pos((SIN_B as int) * v, q);
    }
    assert((SIN_B as int) * v <= (SIN_B as int) * q) by {
        lemma_mul_upper_bound(SIN_B as int, SIN_B as int, v, q);
    }
    assert(w <= SIN_B) by {
        lemma_div_is_ordered((SIN_B as int) * v, (SIN_B as int) * q, q);
        lemma_div_multiples_vanish(SIN_B as int, q);
    }
    let c = (SIN_A as int) - w;
    let s = (u * c) / q;
    assert(0 <= u * c) by {
        lemma_mul_nonnegative(u, c);
    }
    assert(0 <= s) by {
        lemma_div_pos_is_pos(u * c, q);
    }
    if u == 0 {
        assert(u * c == 0);
        assert(s == 0) by {
            vstd::arithmetic::div_mod::lemma_div_of0(q);
        }
    }
    if u == QUARTER {
        assert(u * u == q * q);
        assert(v == q) by {
            lemma_div_multiples_vanish(q, q);
        }
        assert(w == SIN_B) by {
            lemma_div_multiples_vanish(SIN_B as int, q);
        }
        assert(c == ONE);
        assert(u * c == (ONE as int) * q);
        assert(s == ONE) by {
            lemma_div_multiples_vanish(ONE as int, q);
        }
    }
}

/// The sine lies in `[-ONE, ONE]` for every angle.
pub proof fn lemma_sin_range(a: int)
    ensures
        -ONE <= sin_spec(a) <= ONE,
{
    let m = angle_norm(a);
    assert(0 <= m < FULL_TURN) by {
        lemma_mod_bound(a, FULL_TURN as int);
    }
    if m <= QUARTER {
        lemma_sin_core_range(m);
    } else if m <= 2 * QUARTER {
        lemma_sin_core_range(2 * QUARTER - m);
    } else if m <= 3 * QUARTER {
        lemma_sin_core_range(m - 2 * QUARTER);
    } else {
        lemma_sin_core_range(4 * (QUARTER as int) - m);
    }
}

/// The sine repeats after a full turn.
pub proof fn lemma_sin_periodic(a: int)
    ensures
        sin_spec(a + FULL_TURN) == sin_spec(a),
{
    assert((FULL_TURN as int) * 1 + a == a + FULL_TURN);
    assert(angle_norm(a + FULL_TURN) == angle_norm(a)) by {
        lemma_mod_multiples_vanish(1, a, FULL_TURN as int);
    }
}

/// Exact values at the four axis angles: the sine of `0`, a quarter turn, a
/// half turn and three quarter turns are `0`, `ONE`, `0` and `-ONE`.
pub proof fn lemma_sin_axes()
    ensures
        sin_spec(0) == 0,
        sin_spec(QUARTER as int) == ONE,
        sin_spec(2 * (QUARTER as int)) == 0,
        sin_spec(3 * (QUARTER as int)) == -ONE,
        cos_spec(0) == ONE,
        cos_spec(QUARTER as int) == 0,
{
    let f = FULL_TURN as int;
    assert(angle_norm(0) == 0) by {
        lemma_mod_multiples_vanish(0, 0, f);
    }
    assert(angle_norm(QUARTER as int) == QUARTER) by {
        lemma_mod_multiples_vanish(0, QUARTER as int, f);
    }
    assert(angle_norm(2 * (QUARTER as int)) == 2 * (QUARTER as int)) by {
        lemma_mod_multiples_vanish(0, 2 * (QUARTER as int), f);
    }
    assert(angle_norm(3 * (QUARTER as int)) == 3 * (QUARTER as int)) by {
        lemma_mod_multiples_vanish(0, 3 * (QUARTER as int), f);
    }
    lemma_sin_core_range(0);
    lemma_sin_core_range(QUARTER as int);
}

/// The first-quadrant polynomial on machine integers.
fn sin_core_fp(u: i64) -> (r: i64)
    requires
        0 <= u <= QUARTER,
    ensures
        r == sin_core_spec(u as int),
        0 <= r <= ONE,
{
    proof {
        lemma_sin_core_range(u as int);
        lemma_mul_nonnegative(u as int, u as int);
        lemma_mul_upper_bound(u as int, QUARTER as int, u as int, QUARTER as int);
    }
    let v: i64 = div_trunc(u * u, QUARTER);
    proof {
        assert(v == (u as int) * (u as int) / (QUARTER as int));
        assert(0 <= v) by {
            lemma_div_pos_is_pos((u as int) * (u as int), QUARTER as int);
        }
        assert(v <= QUARTER) by {
            lemma_div_is_ordered(
                (u as int) * (u as int),
                (QUARTER as int) * (QUARTER as int),
                QUARTER as int,
            );
            lemma_div_multiples_vanish(QUARTER as int, QUARTER as int);
        }
        lemma_mul_nonnegative(SIN_B as int, v as int);
        lemma_mul_upper_bound(SIN_B as int, SIN_B as int, v as int, QUARTER as int);
    }
    let w: i64 = div_trunc(SIN_B * v, QUARTER);
    proof {
        assert(0 <= w) by {
            lemma_div_pos_is_pos((SIN_B as int) * (v as int), QUARTER as int);
        }
        assert(w <= SIN_B) by {
            lemma_div_is_ordered(
                (SIN_B as int) * (v as int),
                (SIN_B as int) * (QUARTER as int),
                QUARTER as int,
            );
            lemma_div_multiples_vanish(SIN_B as int, QUARTER as int);
        }
    }
    let c: i64 = SIN_A - w;
    proof {
        lemma_mul_nonnegative(u as int, c as int);
        lemma_mul_upper_bound(u as int, QUARTER as int, c as int, SIN_A as int);
    }
    let s: i64 = div_trunc(u * c, QUARTER);
    if s > ONE {
        ONE
    } else {
        s
    }
}

/// The fixed-point sine of an angle in quarter-turn units.
pub fn sin_fp(a: i64) -> (r: i64)
    requires
        -TRIG_LIMIT <= a <= TRIG_LIMIT,
    ensures
        r == sin_spec(a as int),
        -ONE <= r <= ONE,
{
    proof {
        lemma_sin_range(a as int);
    }
    let shifted: i64 = a + TRIG_SHIFT;
    let m: i64 = ((shifted as u64) % (FULL_TURN as u64)) as i64;
    proof {
        assert((FULL_TURN as int) * 51 + a == shifted as int);
        assert((shifted as int) % (FULL_TURN as int) == angle_norm(a as int)) by {
            lemma_mod_multiples_vanish(51, a as int, FULL_TURN as int);
        }
        assert(0 <= m < FULL_TURN) by {
            lemma_mod_bound(shifted as int, FULL_TURN as int);
        }
    }
    if m <= QUARTER {
        sin_core_fp(m)
    } else if m <= 2 * QUARTER {
        sin_core_fp(2 * QUARTER - m)
    } else if m <= 3 * QUARTER {
        -sin_core_fp(m - 2 * QUARTER)
    } else {
        -sin_core_fp(FULL_TURN - m)
    }
}

/// The fixed-point cosine of an angle in quarter-turn units.
pub fn cos_fp(a: i64) -> (r: i64)
    requires
        -TRIG_LIMIT + QUARTER <= a <= TRIG_LIMIT - QUARTER,
    ensures
        r == cos_spec(a as int),
        -ONE <= r <= ONE,
{
    sin_fp(a + QUARTER)
}

} // verus!
