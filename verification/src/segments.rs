//! Geometry primitives: points, lines, arcs, oval arcs and cubic Bezier
//! curves, and the decomposition of any of them into cubic pieces.
//!
//! Coordinates are fixed-point `i64` with [`ONE`] as the unit `1.0`; angles
//! hold [`QUARTER`] units per quarter turn. Loaded geometry is bounded by
//! [`COORD_LIMIT`] and [`ANGLE_LIMIT`]; every curve derived from it stays
//! inside [`CURVE_LIMIT`], which keeps all later interpolation free of
//! overflow.

use vstd::prelude::*;
use crate::draw::Canvas;
use crate::draw::DrawCmd;
use crate::fixed::ONE;
use crate::fixed::QUARTER;
use crate::fixed::FULL_TURN;
use crate::fixed::COORD_LIMIT;
use crate::fixed::CURVE_LIMIT;
use crate::fixed::ANGLE_LIMIT;
use crate::fixed::tdiv;
use crate::fixed::abs_spec;
use crate::fixed::scale_spec;
use crate::fixed::scale;
use crate::fixed::lerp_spec;
use crate::fixed::lemma_lerp_bounds;
use crate::fixed::lemma_lerp_endpoints;
use crate::fixed::lemma_tdiv_bounds;
use crate::fixed::div_trunc;
use crate::fixed::lerp_i64;
use crate::trig::sin_spec;
use crate::trig::cos_spec;
use crate::trig::sin_fp;
use crate::trig::cos_fp;
use crate::trig::TRIG_LIMIT;
use vstd::arithmetic::mul::lemma_mul_upper_bound;
use vstd::arithmetic::mul::lemma_mul_nonnegative;
use vstd::arithmetic::mul::lemma_mul_unary_negation;

verus! {

/// A point of the plane, in fixed-point coordinates.
#[derive(Clone, Copy, PartialEq, Eq, Structural, Debug)]
pub struct Point {
    /// Horizontal coordinate.
    pub x: i64,
    /// Vertical coordinate.
    pub y: i64,
}

/// Whether both coordinates of a point lie within `limit` in magnitude.
pub open spec fn point_bounded(p: Point, limit: int) -> bool {
    -limit <= p.x <= limit && -limit <= p.y <= limit
}

/// A point built in specifications from integer coordinate expressions.
pub open spec fn pt(x: int, y: int) -> Point {
    Point { x: x as i64, y: y as i64 }
}

/// Interpolation between two points at the rational parameter `num / den`,
/// coordinate by coordinate.
pub open spec fn lerp_point_spec(a: Point, b: Point, num: int, den: int) -> Point {
    pt(
        lerp_spec(a.x as int, b.x as int, num, den),
        lerp_spec(a.y as int, b.y as int, num, den),
    )
}

/// The point at `angle` on the circle of `radius` around `p`: the horizontal
/// offset is `radius * cos(angle)`, the vertical `radius * sin(angle)`.
pub open spec fn on_circle_spec(p: Point, radius: int, angle: int) -> Point {
    pt(
        p.x + tdiv(radius * cos_spec(angle), ONE as int),
        p.y + tdiv(radius * sin_spec(angle), ONE as int),
    )
}

/// The point at `angle` on the axis-aligned oval with radii `rx`, `ry`
/// around `p`.
pub open spec fn on_oval_spec(p: Point, rx: int, ry: int, angle: int) -> Point {
    pt(
        p.x + tdiv(rx * cos_spec(angle), ONE as int),
        p.y + tdiv(ry * sin_spec(angle), ONE as int),
    )
}

impl Point {
    /// A point from its two coordinates.
    pub fn new(x: i64, y: i64) -> (r: Point)
        ensures
            r == (Point { x, y }),
    {
        Point { x, y }
    }

    /// Interpolation toward `target` at the rational parameter `num / den`.
    /// Exact at both ends, and each coordinate stays between the endpoints.
    pub fn lerp_frac(self, target: Point, num: i64, den: i64) -> (r: Point)
        requires
            den > 0,
            0 <= num <= den,
            den <= ONE,
            point_bounded(self, 2 * CURVE_LIMIT),
            point_bounded(target, 2 * CURVE_LIMIT),
        ensures
            r == lerp_point_spec(self, target, num as int, den as int),
            point_bounded(r, 2 * CURVE_LIMIT),
    {
        let x = lerp_i64(self.x, target.x, num, den);
        let y = lerp_i64(self.y, target.y, num, den);
        Point { x, y }
    }

    /// Interpolation toward `target` at blend parameter `t` (fixed-point,
    /// `ONE` is `1.0`).
    pub fn lerp(self, target: Point, t: i64) -> (r: Point)
        requires
            0 <= t <= ONE,
            point_bounded(self, 2 * CURVE_LIMIT),
            point_bounded(target, 2 * CURVE_LIMIT),
        ensures
            r == lerp_point_spec(self, target, t as int, ONE as int),
            point_bounded(r, 2 * CURVE_LIMIT),
    {
        self.lerp_frac(target, t, ONE)
    }

    /// The point at `angle` on the circle of `radius` around `self`.
    /// The offset from `self` never exceeds the radius in magnitude.
    pub fn on_circle(&self, radius: i64, angle: i64) -> (r: Point)
        requires
            point_bounded(*self, CURVE_LIMIT as int),
            -CURVE_LIMIT <= radius <= CURVE_LIMIT,
            -TRIG_LIMIT + QUARTER <= angle <= TRIG_LIMIT - QUARTER,
        ensures
            r == on_circle_spec(*self, radius as int, angle as int),
            -abs_spec(radius as int) <= r.x - self.x <= abs_spec(radius as int),
            -abs_spec(radius as int) <= r.y - self.y <= abs_spec(radius as int),
    {
        let c = cos_fp(angle);
        let s = sin_fp(angle);
        let dx = scaled_trig(radius, c);
        let dy = scaled_trig(radius, s);
        Point { x: self.x + dx, y: self.y + dy }
    }

    /// The point at `angle` on the axis-aligned oval with radii `radiusx`
    /// and `radiusy` around `self`.
    pub fn on_oval(&self, radiusx: i64, radiusy: i64, angle: i64) -> (r: Point)
        requires
            point_bounded(*self, CURVE_LIMIT as int),
            -CURVE_LIMIT <= radiusx <= CURVE_LIMIT,
            -CURVE_LIMIT <= radiusy <= CURVE_LIMIT,
            -TRIG_LIMIT + QUARTER <= angle <= TRIG_LIMIT - QUARTER,
        ensures
            r == on_oval_spec(*self, radiusx as int, radiusy as int, angle as int),
            -abs_spec(radiusx as int) <= r.x - self.x <= abs_spec(radiusx as int),
            -abs_spec(radiusy as int) <= r.y - self.y <= abs_spec(radiusy as int),
    {
        let c = cos_fp(angle);
        let s = sin_fp(angle);
        let dx = scaled_trig(radiusx, c);
        let dy = scaled_trig(radiusy, s);
        Point { x: self.x + dx, y: self.y + dy }
    }
}

impl Default for Point {
    /// The origin.
    fn default() -> (r: Point)
        ensures
            r == (Point { x: 0, y: 0 }),
    {
        Point { x: 0, y: 0 }
    }
}

/// A radius scaled by a trigonometric value: `radius * t / ONE`, truncated
/// toward zero. The result never exceeds the radius in magnitude.
fn scaled_trig(radius: i64, t: i64) -> (r: i64)
    requires
        -CURVE_LIMIT <= radius <= CURVE_LIMIT,
        -ONE <= t <= ONE,
    ensures
        r == tdiv(radius as int * t as int, ONE as int),
        -CURVE_LIMIT <= r <= CURVE_LIMIT,
        radius >= 0 ==> -radius <= r <= radius,
        radius < 0 ==> radius <= r <= -radius,
{
    let p: i64 = mul_bounded(radius, t);
    proof {
        let m = if radius >= 0 { radius as int } else { -(radius as int) };
        assert(-(m * (ONE as int)) <= p as int <= m * (ONE as int)) by {
            lemma_abs_mul_bound(radius as int, t as int, m, ONE as int);
        }
        assert(m * (ONE as int) <= CURVE_LIMIT * (ONE as int)) by {
            vstd::arithmetic::mul::lemma_mul_inequality(m, CURVE_LIMIT as int, ONE as int);
        }
    }
    let r = div_trunc(p, ONE);
    proof {
        lemma_tdiv_bounds(p as int, ONE as int);
        let m = if radius >= 0 { radius as int } else { -(radius as int) };
        assert(-(m * (ONE as int)) <= p as int <= m * (ONE as int)) by {
            lemma_abs_mul_bound(radius as int, t as int, m, ONE as int);
        }
        assert(tdiv(m * (ONE as int), ONE as int) == m) by {
            crate::fixed::lemma_tdiv_multiple(m, ONE as int);
        }
        assert((p as int) >= 0 ==> r <= m) by {
            if p as int >= 0 {
                vstd::arithmetic::div_mod::lemma_div_is_ordered(
                    p as int,
                    m * (ONE as int),
                    ONE as int,
                );
            }
        }
        assert((p as int) < 0 ==> -m <= r) by {
            if (p as int) < 0 {
                vstd::arithmetic::div_mod::lemma_div_is_ordered(
                    -(p as int),
                    m * (ONE as int),
                    ONE as int,
                );
            }
        }
    }
    r
}

/// Multiplication of a coordinate-sized value by a trig-sized value, shown
/// free of overflow.
fn mul_bounded(a: i64, b: i64) -> (r: i64)
    requires
        -CURVE_LIMIT <= a <= CURVE_LIMIT,
        -2 * ONE <= b <= 2 * ONE,
    ensures
        r == a as int * b as int,
{
    proof {
        let aa = if a >= 0 { a as int } else { -(a as int) };
        lemma_abs_mul_bound(a as int, b as int, aa, 2 * ONE as int);
        assert(aa * (2 * ONE as int) <= CURVE_LIMIT * (2 * ONE as int)) by {
            vstd::arithmetic::mul::lemma_mul_inequality(aa, CURVE_LIMIT as int, 2 * ONE as int);
        }
    }
    a * b
}

/// The tangent-offset constant of the standard circular-arc Bezier
/// approximation, `0.551915024494` in fixed point.
pub const KAPPA: i64 = 551_915;

/// A straight line between two points.
#[derive(Clone, Copy, PartialEq, Eq, Structural, Debug)]
pub struct Line {
    /// First endpoint.
    pub start: Point,
    /// Second endpoint.
    pub end: Point,
}

/// A circular arc: swept from `start` to `end` angle (in quarter-turn
/// units) on the circle of `radius` around `center`.
#[derive(Clone, Copy, PartialEq, Eq, Structural, Debug)]
pub struct Arc {
    /// Centre of the circle.
    pub center: Point,
    /// Radius of the circle.
    pub radius: i64,
    /// Angle where the sweep begins.
    pub start: i64,
    /// Angle where the sweep ends.
    pub end: i64,
}

/// An elliptical arc on the axis-aligned oval with radii `radiusx` and
/// `radiusy` around `center`.
#[derive(Clone, Copy, PartialEq, Eq, Structural, Debug)]
pub struct OvalArc {
    /// Centre of the oval.
    pub center: Point,
    /// Horizontal radius.
    pub radiusx: i64,
    /// Vertical radius.
    pub radiusy: i64,
    /// Angle where the sweep begins.
    pub start: i64,
    /// Angle where the sweep ends.
    pub end: i64,
}

/// A cubic Bezier curve.
#[derive(Clone, Copy, PartialEq, Eq, Structural, Debug)]
pub struct BezierCurve {
    /// First endpoint.
    pub start: Point,
    /// Control point leaving `start`.
    pub control1: Point,
    /// Control point entering `end`.
    pub control2: Point,
    /// Second endpoint.
    pub end: Point,
}

/// Whether all four control points lie within `limit` in magnitude.
pub open spec fn curve_bounded(b: BezierCurve, limit: int) -> bool {
    &&& point_bounded(b.start, limit)
    &&& point_bounded(b.control1, limit)
    &&& point_bounded(b.control2, limit)
    &&& point_bounded(b.end, limit)
}

impl Line {
    /// Well-formed loaded geometry: endpoints within [`COORD_LIMIT`].
    pub open spec fn wf(self) -> bool {
        point_bounded(self.start, COORD_LIMIT as int) && point_bounded(
            self.end,
            COORD_LIMIT as int,
        )
    }

    /// A line between two points.
    pub fn new(start: Point, end: Point) -> (r: Line)
        ensures
            r == (Line { start, end }),
    {
        Line { start, end }
    }
}

impl Arc {
    /// Well-formed loaded geometry: centre and radius within
    /// [`COORD_LIMIT`], angles within [`ANGLE_LIMIT`].
    pub open spec fn wf(self) -> bool {
        &&& point_bounded(self.center, COORD_LIMIT as int)
        &&& -COORD_LIMIT <= self.radius <= COORD_LIMIT
        &&& -ANGLE_LIMIT <= self.start <= ANGLE_LIMIT
        &&& -ANGLE_LIMIT <= self.end <= ANGLE_LIMIT
    }

    /// An arc from its centre, radius and sweep angles.
    pub fn new(center: Point, radius: i64, start: i64, end: i64) -> (r: Arc)
        ensures
            r == (Arc { center, radius, start, end }),
    {
        Arc { center, radius, start, end }
    }
}

impl Default for Arc {
    /// The unit full circle around the origin.
    fn default() -> (r: Arc)
        ensures
            r == (Arc { center: Point { x: 0, y: 0 }, radius: ONE, start: 0, end: FULL_TURN }),
    {
        Arc { center: Point { x: 0, y: 0 }, radius: ONE, start: 0, end: FULL_TURN }
    }
}

impl OvalArc {
    /// Well-formed loaded geometry: centre and radii within
    /// [`COORD_LIMIT`], angles within [`ANGLE_LIMIT`].
    pub open spec fn wf(self) -> bool {
        &&& point_bounded(self.center, COORD_LIMIT as int)
        &&& -COORD_LIMIT <= self.radiusx <= COORD_LIMIT
        &&& -COORD_LIMIT <= self.radiusy <= COORD_LIMIT
        &&& -ANGLE_LIMIT <= self.start <= ANGLE_LIMIT
        &&& -ANGLE_LIMIT <= self.end <= ANGLE_LIMIT
    }

    /// An oval arc from its centre, radii and sweep angles.
    pub fn new(center: Point, radiusx: i64, radiusy: i64, start: i64, end: i64) -> (r: OvalArc)
        ensures
            r == (OvalArc { center, radiusx, radiusy, start, end }),
    {
        OvalArc { center, radiusx, radiusy, start, end }
    }
}

impl Default for OvalArc {
    /// The unit full circle around the origin.
    fn default() -> (r: OvalArc)
        ensures
            r == (OvalArc {
                center: Point { x: 0, y: 0 },
                radiusx: ONE,
                radiusy: ONE,
                start: 0,
                end: FULL_TURN,
            }),
    {
        OvalArc { center: Point { x: 0, y: 0 }, radiusx: ONE, radiusy: ONE, start: 0, end: FULL_TURN }
    }
}

/// The cubic equivalent of a straight line: control points a third of the
/// way in from either end.
pub open spec fn bezier_of_line_spec(l: Line) -> BezierCurve {
    let dx = tdiv(l.end.x - l.start.x, 3);
    let dy = tdiv(l.end.y - l.start.y, 3);
    BezierCurve {
        start: l.start,
        control1: pt(l.start.x + dx, l.start.y + dy),
        control2: pt(l.end.x - dx, l.end.y - dy),
        end: l.end,
    }
}

/// The signed tangent offset of the circular-arc approximation:
/// `(start - end) / quarter * radius * KAPPA` in fixed point.
pub open spec fn arc_fraction_spec(delta: int, radius: int) -> int {
    scale_spec(tdiv(delta * radius, QUARTER as int), KAPPA as int, ONE as int)
}

/// The approximating cubic of a circular arc: endpoints on the circle,
/// control points offset along the tangents at either end.
pub open spec fn bezier_of_arc_spec(a: Arc) -> BezierCurve {
    let f = arc_fraction_spec(a.start - a.end, a.radius as int);
    let s = on_circle_spec(a.center, a.radius as int, a.start as int);
    let e = on_circle_spec(a.center, a.radius as int, a.end as int);
    BezierCurve {
        start: s,
        control1: on_circle_spec(s, f, a.start - (QUARTER as int)),
        control2: on_circle_spec(e, f, a.end + (QUARTER as int)),
        end: e,
    }
}

/// The approximating cubic of an elliptical arc, with the tangent offset
/// scaled per axis.
pub open spec fn bezier_of_oval_spec(a: OvalArc) -> BezierCurve {
    let dx = arc_fraction_spec(a.start - a.end, a.radiusx as int);
    let dy = arc_fraction_spec(a.start - a.end, a.radiusy as int);
    let s = on_oval_spec(a.center, a.radiusx as int, a.radiusy as int, a.start as int);
    let e = on_oval_spec(a.center, a.radiusx as int, a.radiusy as int, a.end as int);
    BezierCurve {
        start: s,
        control1: on_oval_spec(s, dx, dy, a.start - (QUARTER as int)),
        control2: on_oval_spec(e, dx, dy, a.end + (QUARTER as int)),
        end: e,
    }
}

/// The tangent offset of an arc with angles and radius in loaded range
/// stays within a fifth of [`CURVE_LIMIT`].
proof fn lemma_arc_fraction_bounded(delta: int, radius: int)
    requires
        -2 * ANGLE_LIMIT <= delta <= 2 * ANGLE_LIMIT,
        -COORD_LIMIT <= radius <= COORD_LIMIT,
    ensures
        -200_000_000_000 <= arc_fraction_spec(delta, radius) <= 200_000_000_000,
{
    let m = 200_000_000_000int;
    lemma_abs_mul_bound(delta, radius, 2 * ANGLE_LIMIT as int, COORD_LIMIT as int);
    assert(m * (QUARTER as int) == 2 * (ANGLE_LIMIT as int) * (COORD_LIMIT as int));
    crate::fixed::lemma_tdiv_upper(delta * radius, QUARTER as int, m);
    crate::fixed::lemma_scale_bounds(
        tdiv(delta * radius, QUARTER as int),
        KAPPA as int,
        ONE as int,
    );
}

impl BezierCurve {
    /// Well-formed loaded geometry: control points within [`COORD_LIMIT`].
    pub open spec fn wf(self) -> bool {
        curve_bounded(self, COORD_LIMIT as int)
    }

    /// A cubic curve from its four control points.
    pub fn new(start: Point, control1: Point, control2: Point, end: Point) -> (r: BezierCurve)
        ensures
            r == (BezierCurve { start, control1, control2, end }),
    {
        BezierCurve { start, control1, control2, end }
    }

    /// The cubic equivalent of a straight line.
    pub fn from_line(l: Line) -> (r: BezierCurve)
        requires
            point_bounded(l.start, CURVE_LIMIT as int),
            point_bounded(l.end, CURVE_LIMIT as int),
        ensures
            r == bezier_of_line_spec(l),
            curve_bounded(r, CURVE_LIMIT as int),
    {
        proof {
            lemma_tdiv_bounds((l.end.x - l.start.x) as int, 3);
            lemma_tdiv_bounds((l.end.y - l.start.y) as int, 3);
        }
        let dx = div_trunc(l.end.x - l.start.x, 3);
        let dy = div_trunc(l.end.y - l.start.y, 3);
        BezierCurve {
            start: l.start,
            control1: Point { x: l.start.x + dx, y: l.start.y + dy },
            control2: Point { x: l.end.x - dx, y: l.end.y - dy },
            end: l.end,
        }
    }

    /// The approximating cubic of a circular arc.
    pub fn from_arc(a: Arc) -> (r: BezierCurve)
        requires
            a.wf(),
        ensures
            r == bezier_of_arc_spec(a),
            curve_bounded(r, CURVE_LIMIT as int),
    {
        let delta: i64 = a.start - a.end;
        proof {
            lemma_abs_mul_bound(
                delta as int,
                a.radius as int,
                2 * ANGLE_LIMIT as int,
                COORD_LIMIT as int,
            );
            crate::fixed::lemma_tdiv_upper(
                delta as int * a.radius as int,
                QUARTER as int,
                200_000_000_000int,
            );
            lemma_arc_fraction_bounded(delta as int, a.radius as int);
        }
        let scaled: i64 = div_trunc(delta * a.radius, QUARTER);
        let fraction: i64 = scale(scaled, KAPPA, ONE);
        let s = a.center.on_circle(a.radius, a.start);
        let e = a.center.on_circle(a.radius, a.end);
        let c1 = s.on_circle(fraction, a.start - QUARTER);
        let c2 = e.on_circle(fraction, a.end + QUARTER);
        BezierCurve { start: s, control1: c1, control2: c2, end: e }
    }

    /// The approximating cubic of an elliptical arc.
    pub fn from_oval(a: OvalArc) -> (r: BezierCurve)
        requires
            a.wf(),
        ensures
            r == bezier_of_oval_spec(a),
            curve_bounded(r, CURVE_LIMIT as int),
    {
        let delta: i64 = a.start - a.end;
        proof {
            lemma_abs_mul_bound(
                delta as int,
                a.radiusx as int,
                2 * ANGLE_LIMIT as int,
                COORD_LIMIT as int,
            );
            crate::fixed::lemma_tdiv_upper(
                delta as int * a.radiusx as int,
                QUARTER as int,
                200_000_000_000int,
            );
            lemma_arc_fraction_bounded(delta as int, a.radiusx as int);
            lemma_abs_mul_bound(
                delta as int,
                a.radiusy as int,
                2 * ANGLE_LIMIT as int,
                COORD_LIMIT as int,
            );
            crate::fixed::lemma_tdiv_upper(
                delta as int * a.radiusy as int,
                QUARTER as int,
                200_000_000_000int,
            );
            lemma_arc_fraction_bounded(delta as int, a.radiusy as int);
        }
        let dx: i64 = scale(div_trunc(delta * a.radiusx, QUARTER), KAPPA, ONE);
        let dy: i64 = scale(div_trunc(delta * a.radiusy, QUARTER), KAPPA, ONE);
        let s = a.center.on_oval(a.radiusx, a.radiusy, a.start);
        let e = a.center.on_oval(a.radiusx, a.radiusy, a.end);
        let c1 = s.on_oval(dx, dy, a.start - QUARTER);
        let c2 = e.on_oval(dx, dy, a.end + QUARTER);
        BezierCurve { start: s, control1: c1, control2: c2, end: e }
    }
}

/// Interpolation between two points bounded by `lim` stays bounded by `lim`.
pub proof fn lemma_lerp_point_bounds(a: Point, b: Point, num: int, den: int, lim: int)
    requires
        den > 0,
        0 <= num <= den,
        0 <= lim <= i64::MAX,
        point_bounded(a, lim),
        point_bounded(b, lim),
    ensures
        point_bounded(lerp_point_spec(a, b, num, den), lim),
{
    lemma_lerp_bounds(a.x as int, b.x as int, num, den);
    lemma_lerp_bounds(a.y as int, b.y as int, num, den);
}

impl BezierCurve {
    /// The ten de Casteljau hull points of the curve at `num / den`: the
    /// four control points, three first-level interpolants, two second-level
    /// interpolants, and the point on the curve.
    pub fn hull(&self, num: i64, den: i64) -> (r: Vec<Point>)
        requires
            den > 0,
            0 <= num <= den,
            den <= ONE,
            curve_bounded(*self, CURVE_LIMIT as int),
        ensures
            r@.len() == 10,
            r@[0] == self.start,
            r@[1] == self.control1,
            r@[2] == self.control2,
            r@[3] == self.end,
            r@[4] == lerp_point_spec(self.start, self.control1, num as int, den as int),
            r@[5] == lerp_point_spec(self.control1, self.control2, num as int, den as int),
            r@[6] == lerp_point_spec(self.control2, self.end, num as int, den as int),
            r@[7] == lerp_point_spec(r@[4], r@[5], num as int, den as int),
            r@[8] == lerp_point_spec(r@[5], r@[6], num as int, den as int),
            r@[9] == lerp_point_spec(r@[7], r@[8], num as int, den as int),
            forall|i: int| 0 <= i < 10 ==> point_bounded(#[trigger] r@[i], CURVE_LIMIT as int),
    {
        let l10 = self.start.lerp_frac(self.control1, num, den);
        let l11 = self.control1.lerp_frac(self.control2, num, den);
        let l12 = self.control2.lerp_frac(self.end, num, den);
        proof {
            lemma_lerp_point_bounds(
                self.start,
                self.control1,
                num as int,
                den as int,
                CURVE_LIMIT as int,
            );
            lemma_lerp_point_bounds(
                self.control1,
                self.control2,
                num as int,
                den as int,
                CURVE_LIMIT as int,
            );
            lemma_lerp_point_bounds(
                self.control2,
                self.end,
                num as int,
                den as int,
                CURVE_LIMIT as int,
            );
        }
        let l20 = l10.lerp_frac(l11, num, den);
        let l21 = l11.lerp_frac(l12, num, den);
        proof {
            lemma_lerp_point_bounds(l10, l11, num as int, den as int, CURVE_LIMIT as int);
            lemma_lerp_point_bounds(l11, l12, num as int, den as int, CURVE_LIMIT as int);
        }
        let l30 = l20.lerp_frac(l21, num, den);
        proof {
            lemma_lerp_point_bounds(l20, l21, num as int, den as int, CURVE_LIMIT as int);
        }
        let mut r: Vec<Point> = Vec::new();
        r.push(self.start);
        r.push(self.control1);
        r.push(self.control2);
        r.push(self.end);
        r.push(l10);
        r.push(l11);
        r.push(l12);
        r.push(l20);
        r.push(l21);
        r.push(l30);
        r
    }
}

/// The sub-curve of `b` from parameter `0` to `num / den`, by the de
/// Casteljau construction.
pub open spec fn subdiv_first(b: BezierCurve, num: int, den: int) -> BezierCurve {
    let l10 = lerp_point_spec(b.start, b.control1, num, den);
    let l11 = lerp_point_spec(b.control1, b.control2, num, den);
    let l12 = lerp_point_spec(b.control2, b.end, num, den);
    let l20 = lerp_point_spec(l10, l11, num, den);
    let l21 = lerp_point_spec(l11, l12, num, den);
    let l30 = lerp_point_spec(l20, l21, num, den);
    BezierCurve { start: b.start, control1: l10, control2: l20, end: l30 }
}

/// The sub-curve of `b` from parameter `num / den` to `1`, by the de
/// Casteljau construction. Its start is exactly the end of
/// [`subdiv_first`], so consecutive pieces meet without a gap.
pub open spec fn subdiv_rest(b: BezierCurve, num: int, den: int) -> BezierCurve {
    let l10 = lerp_point_spec(b.start, b.control1, num, den);
    let l11 = lerp_point_spec(b.control1, b.control2, num, den);
    let l12 = lerp_point_spec(b.control2, b.end, num, den);
    let l20 = lerp_point_spec(l10, l11, num, den);
    let l21 = lerp_point_spec(l11, l12, num, den);
    let l30 = lerp_point_spec(l20, l21, num, den);
    BezierCurve { start: l30, control1: l21, control2: l12, end: b.end }
}

/// Iterated subdivision into `count` pieces: at step `i` the remaining
/// curve is cut at parameter `1 / (count - i)` and the first piece emitted.
pub open spec fn subdiv_seq(b: BezierCurve, count: nat) -> Seq<BezierCurve>
    decreases count,
{
    if count == 0 {
        Seq::<BezierCurve>::empty()
    } else {
        seq![subdiv_first(b, 1, count as int)] + subdiv_seq(
            subdiv_rest(b, 1, count as int),
            (count - 1) as nat,
        )
    }
}

/// Iterated subdivision yields exactly `count` pieces.
pub proof fn lemma_subdiv_seq_len(b: BezierCurve, count: nat)
    ensures
        subdiv_seq(b, count).len() == count,
    decreases count,
{
    if count > 0 {
        lemma_subdiv_seq_len(subdiv_rest(b, 1, count as int), (count - 1) as nat);
    }
}

/// The `i`-th of `count` chord pieces of a line, as a cubic curve.
pub open spec fn line_piece_spec(l: Line, i: int, count: int) -> BezierCurve {
    bezier_of_line_spec(
        Line {
            start: lerp_point_spec(l.start, l.end, i, count),
            end: lerp_point_spec(l.start, l.end, i + 1, count),
        },
    )
}

/// The `i`-th of `count` uniform angular pieces of a circular arc, as a
/// cubic curve.
pub open spec fn arc_piece_spec(a: Arc, i: int, count: int) -> BezierCurve {
    bezier_of_arc_spec(
        Arc {
            center: a.center,
            radius: a.radius,
            start: lerp_spec(a.start as int, a.end as int, i, count) as i64,
            end: lerp_spec(a.start as int, a.end as int, i + 1, count) as i64,
        },
    )
}

/// The `i`-th of `count` uniform angular pieces of an elliptical arc, as a
/// cubic curve.
pub open spec fn oval_piece_spec(a: OvalArc, i: int, count: int) -> BezierCurve {
    bezier_of_oval_spec(
        OvalArc {
            center: a.center,
            radiusx: a.radiusx,
            radiusy: a.radiusy,
            start: lerp_spec(a.start as int, a.end as int, i, count) as i64,
            end: lerp_spec(a.start as int, a.end as int, i + 1, count) as i64,
        },
    )
}

/// One typed sub-path primitive: a line, a circular arc, an elliptical arc
/// or a cubic Bezier curve.
#[derive(Clone, Copy, PartialEq, Eq, Structural, Debug)]
pub enum Segment {
    /// A straight line.
    Line(Line),
    /// A circular arc.
    Arc(Arc),
    /// An elliptical arc.
    OvalArc(OvalArc),
    /// A cubic Bezier curve.
    BezierCurve(BezierCurve),
}

/// The decomposition of a segment into `count` ordered cubic pieces: chord
/// pieces for a line, uniform angular pieces for an arc, iterated de
/// Casteljau subdivision for a curve.
pub open spec fn to_beziers_spec(s: Segment, count: int) -> Seq<BezierCurve> {
    match s {
        Segment::Line(l) => Seq::new(count as nat, |i: int| line_piece_spec(l, i, count)),
        Segment::Arc(a) => Seq::new(count as nat, |i: int| arc_piece_spec(a, i, count)),
        Segment::OvalArc(a) => Seq::new(count as nat, |i: int| oval_piece_spec(a, i, count)),
        Segment::BezierCurve(b) => subdiv_seq(b, count as nat),
    }
}

impl Segment {
    /// Well-formed loaded geometry.
    pub open spec fn wf(self) -> bool {
        match self {
            Segment::Line(l) => l.wf(),
            Segment::Arc(a) => a.wf(),
            Segment::OvalArc(a) => a.wf(),
            Segment::BezierCurve(b) => b.wf(),
        }
    }

    /// The native number of cubic pieces: one for a line or a curve, one
    /// per quarter turn of swept angle (rounded up) for an arc.
    pub open spec fn count_spec(self) -> int {
        match self {
            Segment::Line(_) => 1,
            Segment::BezierCurve(_) => 1,
            Segment::Arc(a) => crate::fixed::ceil_div(
                abs_spec(a.end - a.start),
                QUARTER as int,
            ),
            Segment::OvalArc(a) => crate::fixed::ceil_div(
                abs_spec(a.end - a.start),
                QUARTER as int,
            ),
        }
    }

    /// Decide well-formedness of loaded geometry at run time.
    pub fn is_wf(&self) -> (b: bool)
        ensures
            b == self.wf(),
    {
        match *self {
            Segment::Line(l) => point_in_coord_range(l.start) && point_in_coord_range(l.end),
            Segment::Arc(a) => point_in_coord_range(a.center) && -COORD_LIMIT <= a.radius
                && a.radius <= COORD_LIMIT && -ANGLE_LIMIT <= a.start && a.start <= ANGLE_LIMIT
                && -ANGLE_LIMIT <= a.end && a.end <= ANGLE_LIMIT,
            Segment::OvalArc(a) => point_in_coord_range(a.center) && -COORD_LIMIT <= a.radiusx
                && a.radiusx <= COORD_LIMIT && -COORD_LIMIT <= a.radiusy && a.radiusy
                <= COORD_LIMIT && -ANGLE_LIMIT <= a.start && a.start <= ANGLE_LIMIT
                && -ANGLE_LIMIT <= a.end && a.end <= ANGLE_LIMIT,
            Segment::BezierCurve(b) => point_in_coord_range(b.start) && point_in_coord_range(
                b.control1,
            ) && point_in_coord_range(b.control2) && point_in_coord_range(b.end),
        }
    }

    /// The minimum number of cubic pieces for an accurate representation of
    /// this segment.
    pub fn count_beziers(&self) -> (r: usize)
        requires
            self.wf(),
        ensures
            r == self.count_spec(),
            r <= 200,
    {
        match *self {
            Segment::Line(_) => 1,
            Segment::BezierCurve(_) => 1,
            Segment::Arc(a) => arc_piece_count(a.start, a.end),
            Segment::OvalArc(a) => arc_piece_count(a.start, a.end),
        }
    }

    /// Decompose this segment into exactly `count` ordered cubic pieces.
    pub fn to_beziers(&self, count: usize) -> (r: Vec<BezierCurve>)
        requires
            self.wf(),
            1 <= count <= 1_000_000,
        ensures
            r@.len() == count,
            r@ == to_beziers_spec(*self, count as int),
            forall|i: int|
                0 <= i < r@.len() ==> curve_bounded(#[trigger] r@[i], CURVE_LIMIT as int),
    {
        match *self {
            Segment::Line(l) => line_to_beziers(l, count),
            Segment::Arc(a) => arc_to_beziers(a, count),
            Segment::OvalArc(a) => oval_to_beziers(a, count),
            Segment::BezierCurve(b) => curve_to_beziers(b, count),
        }
    }
}

/// Whether both coordinates lie within the loaded-geometry bound.
fn point_in_coord_range(p: Point) -> (b: bool)
    ensures
        b == point_bounded(p, COORD_LIMIT as int),
{
    -COORD_LIMIT <= p.x && p.x <= COORD_LIMIT && -COORD_LIMIT <= p.y && p.y <= COORD_LIMIT
}

/// The quarter-turn piece count of the swept angle from `start` to `end`.
fn arc_piece_count(start: i64, end: i64) -> (r: usize)
    requires
        -ANGLE_LIMIT <= start <= ANGLE_LIMIT,
        -ANGLE_LIMIT <= end <= ANGLE_LIMIT,
    ensures
        r == crate::fixed::ceil_div(abs_spec(end - start), QUARTER as int),
        r <= 200,
{
    let delta: i64 = end - start;
    let a: i64 = if delta >= 0 {
        delta
    } else {
        -delta
    };
    let q: u64 = ((a + QUARTER - 1) as u64) / (QUARTER as u64);
    proof {
        crate::fixed::lemma_ceil_div_props(a as int, QUARTER as int);
    }
    q as usize
}

/// Chord decomposition of a line into `count` cubic pieces.
fn line_to_beziers(l: Line, count: usize) -> (r: Vec<BezierCurve>)
    requires
        l.wf(),
        1 <= count <= 1_000_000,
    ensures
        r@.len() == count,
        r@ == to_beziers_spec(Segment::Line(l), count as int),
        forall|i: int| 0 <= i < r@.len() ==> curve_bounded(#[trigger] r@[i], CURVE_LIMIT as int),
{
    let mut r: Vec<BezierCurve> = Vec::new();
    let den: i64 = count as i64;
    let mut i: usize = 0;
    while i < count
        invariant
            0 <= i <= count,
            1 <= count <= 1_000_000,
            den == count as i64,
            l.wf(),
            r@.len() == i,
            forall|j: int| 0 <= j < i ==> r@[j] == line_piece_spec(l, j, count as int),
            forall|j: int| 0 <= j < i ==> curve_bounded(#[trigger] r@[j], CURVE_LIMIT as int),
        decreases count - i,
    {
        let num: i64 = i as i64;
        let p0 = l.start.lerp_frac(l.end, num, den);
        let p1 = l.start.lerp_frac(l.end, num + 1, den);
        proof {
            lemma_lerp_point_bounds(l.start, l.end, num as int, den as int, CURVE_LIMIT as int);
            lemma_lerp_point_bounds(
                l.start,
                l.end,
                num as int + 1,
                den as int,
                CURVE_LIMIT as int,
            );
        }
        r.push(BezierCurve::from_line(Line { start: p0, end: p1 }));
        i = i + 1;
    }
    proof {
        assert(r@ =~= to_beziers_spec(Segment::Line(l), count as int));
    }
    r
}

/// Uniform angular decomposition of a circular arc into `count` cubic
/// pieces.
fn arc_to_beziers(a: Arc, count: usize) -> (r: Vec<BezierCurve>)
    requires
        a.wf(),
        1 <= count <= 1_000_000,
    ensures
        r@.len() == count,
        r@ == to_beziers_spec(Segment::Arc(a), count as int),
        forall|i: int| 0 <= i < r@.len() ==> curve_bounded(#[trigger] r@[i], CURVE_LIMIT as int),
{
    let mut r: Vec<BezierCurve> = Vec::new();
    let den: i64 = count as i64;
    let mut i: usize = 0;
    while i < count
        invariant
            0 <= i <= count,
            1 <= count <= 1_000_000,
            den == count as i64,
            a.wf(),
            r@.len() == i,
            forall|j: int| 0 <= j < i ==> r@[j] == arc_piece_spec(a, j, count as int),
            forall|j: int| 0 <= j < i ==> curve_bounded(#[trigger] r@[j], CURVE_LIMIT as int),
        decreases count - i,
    {
        let num: i64 = i as i64;
        let sa = lerp_i64(a.start, a.end, num, den);
        let ea = lerp_i64(a.start, a.end, num + 1, den);
        r.push(BezierCurve::from_arc(Arc { center: a.center, radius: a.radius, start: sa, end: ea }));
        i = i + 1;
    }
    proof {
        assert(r@ =~= to_beziers_spec(Segment::Arc(a), count as int));
    }
    r
}

/// Uniform angular decomposition of an elliptical arc into `count` cubic
/// pieces.
fn oval_to_beziers(a: OvalArc, count: usize) -> (r: Vec<BezierCurve>)
    requires
        a.wf(),
        1 <= count <= 1_000_000,
    ensures
        r@.len() == count,
        r@ == to_beziers_spec(Segment::OvalArc(a), count as int),
        forall|i: int| 0 <= i < r@.len() ==> curve_bounded(#[trigger] r@[i], CURVE_LIMIT as int),
{
    let mut r: Vec<BezierCurve> = Vec::new();
    let den: i64 = count as i64;
    let mut i: usize = 0;
    while i < count
        invariant
            0 <= i <= count,
            1 <= count <= 1_000_000,
            den == count as i64,
            a.wf(),
            r@.len() == i,
            forall|j: int| 0 <= j < i ==> r@[j] == oval_piece_spec(a, j, count as int),
            forall|j: int| 0 <= j < i ==> curve_bounded(#[trigger] r@[j], CURVE_LIMIT as int),
        decreases count - i,
    {
        let num: i64 = i as i64;
        let sa = lerp_i64(a.start, a.end, num, den);
        let ea = lerp_i64(a.start, a.end, num + 1, den);
        r.push(
            BezierCurve::from_oval(
                OvalArc {
                    center: a.center,
                    radiusx: a.radiusx,
                    radiusy: a.radiusy,
                    start: sa,
                    end: ea,
                },
            ),
        );
        i = i + 1;
    }
    proof {
        assert(r@ =~= to_beziers_spec(Segment::OvalArc(a), count as int));
    }
    r
}

/// Iterated de Casteljau subdivision of a cubic curve into `count` pieces:
/// at step `i` the remaining curve is cut at parameter `1 / (count - i)`
/// through the ten-point hull, the first sub-curve emitted and the second
/// kept.
fn curve_to_beziers(b: BezierCurve, count: usize) -> (r: Vec<BezierCurve>)
    requires
        b.wf(),
        1 <= count <= 1_000_000,
    ensures
        r@.len() == count,
        r@ == to_beziers_spec(Segment::BezierCurve(b), count as int),
        forall|i: int| 0 <= i < r@.len() ==> curve_bounded(#[trigger] r@[i], CURVE_LIMIT as int),
{
    let mut r: Vec<BezierCurve> = Vec::new();
    let mut rem: BezierCurve = b;
    let mut i: usize = 0;
    proof {
        lemma_subdiv_seq_len(b, count as nat);
        assert(r@ + subdiv_seq(rem, count as nat) =~= subdiv_seq(b, count as nat));
    }
    while i < count
        invariant
            0 <= i <= count,
            count <= 1_000_000,
            curve_bounded(rem, CURVE_LIMIT as int),
            r@.len() == i,
            r@ + subdiv_seq(rem, (count - i) as nat) == subdiv_seq(b, count as nat),
            forall|j: int| 0 <= j < i ==> curve_bounded(#[trigger] r@[j], CURVE_LIMIT as int),
        decreases count - i,
    {
        let den: i64 = (count - i) as i64;
        let h = rem.hull(1, den);
        let piece = BezierCurve { start: h[0], control1: h[4], control2: h[7], end: h[9] };
        let next = BezierCurve { start: h[9], control1: h[8], control2: h[6], end: h[3] };
        proof {
            assert(piece == subdiv_first(rem, 1, den as int));
            assert(next == subdiv_rest(rem, 1, den as int));
            assert(subdiv_seq(rem, (count - i) as nat) == seq![piece] + subdiv_seq(
                next,
                (count - i - 1) as nat,
            ));
            assert(r@.push(piece) + subdiv_seq(next, (count - i - 1) as nat) =~= r@ + subdiv_seq(
                rem,
                (count - i) as nat,
            ));
        }
        r.push(piece);
        rem = next;
        i = i + 1;
    }
    proof {
        assert(subdiv_seq(rem, 0) =~= Seq::<BezierCurve>::empty());
        assert(r@ =~= subdiv_seq(b, count as nat));
        lemma_subdiv_seq_len(b, count as nat);
    }
    r
}

/// The commands of one cubic curve as part of a path: reach its start
/// (moving if the path begins here, drawing a line otherwise), then curve
/// to its end.
pub open spec fn curve_cmds(b: BezierCurve, begin: bool) -> Seq<DrawCmd> {
    seq![
        if begin {
            DrawCmd::MoveTo { x: b.start.x, y: b.start.y }
        } else {
            DrawCmd::LineTo { x: b.start.x, y: b.start.y }
        },
        DrawCmd::CurveTo {
            x1: b.control1.x,
            y1: b.control1.y,
            x2: b.control2.x,
            y2: b.control2.y,
            x: b.end.x,
            y: b.end.y,
        },
    ]
}

/// The commands of one straight line as part of a path.
pub open spec fn line_cmds(l: Line, begin: bool) -> Seq<DrawCmd> {
    seq![
        if begin {
            DrawCmd::MoveTo { x: l.start.x, y: l.start.y }
        } else {
            DrawCmd::LineTo { x: l.start.x, y: l.start.y }
        },
        DrawCmd::LineTo { x: l.end.x, y: l.end.y },
    ]
}

/// The commands of an ordered run of cubic curves: the first begins the
/// path if `begin` holds, the rest continue it.
pub open spec fn path_cmds(cs: Seq<BezierCurve>, begin: bool) -> Seq<DrawCmd>
    decreases cs.len(),
{
    if cs.len() == 0 {
        Seq::<DrawCmd>::empty()
    } else {
        curve_cmds(cs[0], begin) + path_cmds(cs.drop_first(), false)
    }
}

/// Appending one curve to a run appends its commands, continuing the path
/// unless the run was empty.
pub proof fn lemma_path_cmds_push(cs: Seq<BezierCurve>, c: BezierCurve, begin: bool)
    ensures
        path_cmds(cs.push(c), begin) == path_cmds(cs, begin) + curve_cmds(
            c,
            if cs.len() == 0 {
                begin
            } else {
                false
            },
        ),
    decreases cs.len(),
{
    if cs.len() == 0 {
        assert(cs.push(c)[0] == c);
        assert(cs.push(c).drop_first() =~= Seq::<BezierCurve>::empty());
        assert(path_cmds(Seq::<BezierCurve>::empty(), false) == Seq::<DrawCmd>::empty());
        assert(path_cmds(cs.push(c), begin) =~= curve_cmds(c, begin) + Seq::<DrawCmd>::empty());
        assert(path_cmds(cs.push(c), begin) =~= curve_cmds(c, begin));
        assert(path_cmds(cs, begin) + curve_cmds(c, begin) =~= curve_cmds(c, begin));
    } else {
        assert(cs.push(c)[0] == cs[0]);
        assert(cs.push(c).drop_first() =~= cs.drop_first().push(c));
        lemma_path_cmds_push(cs.drop_first(), c, false);
        assert(path_cmds(cs.push(c), begin) =~= path_cmds(cs, begin) + curve_cmds(c, false));
    }
}

/// The drawing commands a segment issues: its native representation as a
/// path fragment. An arc with no swept angle issues nothing.
pub open spec fn segment_cmds(s: Segment, begin: bool) -> Seq<DrawCmd> {
    match s {
        Segment::Line(l) => line_cmds(l, begin),
        Segment::BezierCurve(b) => curve_cmds(b, begin),
        Segment::Arc(_) => path_cmds(to_beziers_spec(s, s.count_spec()), begin),
        Segment::OvalArc(_) => path_cmds(to_beziers_spec(s, s.count_spec()), begin),
    }
}

impl BezierCurve {
    /// Interpolation toward `other` at blend parameter `t`, control point
    /// by control point.
    pub fn lerp(&self, other: &BezierCurve, t: i64) -> (r: BezierCurve)
        requires
            0 <= t <= ONE,
            curve_bounded(*self, CURVE_LIMIT as int),
            curve_bounded(*other, CURVE_LIMIT as int),
        ensures
            r == curve_lerp_spec(*self, *other, t as int),
            curve_bounded(r, CURVE_LIMIT as int),
    {
        proof {
            lemma_lerp_point_bounds(
                self.start,
                other.start,
                t as int,
                ONE as int,
                CURVE_LIMIT as int,
            );
            lemma_lerp_point_bounds(
                self.control1,
                other.control1,
                t as int,
                ONE as int,
                CURVE_LIMIT as int,
            );
            lemma_lerp_point_bounds(
                self.control2,
                other.control2,
                t as int,
                ONE as int,
                CURVE_LIMIT as int,
            );
            lemma_lerp_point_bounds(self.end, other.end, t as int, ONE as int, CURVE_LIMIT as int);
        }
        BezierCurve {
            start: self.start.lerp(other.start, t),
            control1: self.control1.lerp(other.control1, t),
            control2: self.control2.lerp(other.control2, t),
            end: self.end.lerp(other.end, t),
        }
    }

    /// Issue this curve as a path fragment.
    pub fn draw(&self, ctx: &mut Canvas, begin: bool)
        ensures
            final(ctx)@ == old(ctx)@ + curve_cmds(*self, begin),
    {
        if begin {
            ctx.move_to(self.start.x, self.start.y);
        } else {
            ctx.line_to(self.start.x, self.start.y);
        }
        ctx.curve_to(
            self.control1.x,
            self.control1.y,
            self.control2.x,
            self.control2.y,
            self.end.x,
            self.end.y,
        );
        proof {
            assert(final(ctx)@ =~= old(ctx)@ + curve_cmds(*self, begin));
        }
    }
}

/// Interpolation between two curves at blend parameter `t` (denominator
/// [`ONE`]), control point by control point.
pub open spec fn curve_lerp_spec(a: BezierCurve, b: BezierCurve, t: int) -> BezierCurve {
    BezierCurve {
        start: lerp_point_spec(a.start, b.start, t, ONE as int),
        control1: lerp_point_spec(a.control1, b.control1, t, ONE as int),
        control2: lerp_point_spec(a.control2, b.control2, t, ONE as int),
        end: lerp_point_spec(a.end, b.end, t, ONE as int),
    }
}

impl Segment {
    /// Issue this segment as a path fragment: two commands for a line or a
    /// curve, the native quarter-turn pieces for an arc.
    pub fn draw(&self, ctx: &mut Canvas, begin: bool)
        requires
            self.wf(),
        ensures
            final(ctx)@ == old(ctx)@ + segment_cmds(*self, begin),
    {
        match *self {
            Segment::Line(l) => {
                if begin {
                    ctx.move_to(l.start.x, l.start.y);
                } else {
                    ctx.line_to(l.start.x, l.start.y);
                }
                ctx.line_to(l.end.x, l.end.y);
                proof {
                    assert(final(ctx)@ =~= old(ctx)@ + segment_cmds(*self, begin));
                }
            },
            Segment::BezierCurve(b) => {
                b.draw(ctx, begin);
            },
            Segment::Arc(_) | Segment::OvalArc(_) => {
                let n = self.count_beziers();
                if n == 0 {
                    proof {
                        assert(segment_cmds(*self, begin) =~= Seq::<DrawCmd>::empty());
                        assert(final(ctx)@ =~= old(ctx)@ + segment_cmds(*self, begin));
                    }
                } else {
                    let pieces = self.to_beziers(n);
                    draw_path(&pieces, ctx, begin);
                    proof {
                        assert(pieces@.take(pieces@.len() as int) =~= pieces@);
                    }
                }
            },
        }
    }
}

/// Issue an ordered run of cubic curves as one path.
pub fn draw_path(pieces: &Vec<BezierCurve>, ctx: &mut Canvas, begin: bool)
    ensures
        final(ctx)@ == old(ctx)@ + path_cmds(pieces@, begin),
{
    let mut i: usize = 0;
    proof {
        assert(old(ctx)@ + path_cmds(pieces@.take(0), begin) =~= old(ctx)@);
    }
    while i < pieces.len()
        invariant
            0 <= i <= pieces@.len(),
            ctx@ == old(ctx)@ + path_cmds(pieces@.take(i as int), begin),
        decreases pieces@.len() - i,
    {
        let first = begin && i == 0;
        pieces[i].draw(ctx, first);
        proof {
            assert(pieces@.take(i as int).push(pieces@[i as int]) =~= pieces@.take(i as int + 1));
            lemma_path_cmds_push(pieces@.take(i as int), pieces@[i as int], begin);
            assert(ctx@ =~= old(ctx)@ + path_cmds(pieces@.take(i as int + 1), begin));
        }
        i = i + 1;
    }
    proof {
        assert(pieces@.take(pieces@.len() as int) =~= pieces@);
    }
}

/// The native piece count is exactly one for a line or a cubic curve, and
/// for an arc the least number of quarter-turn pieces covering its swept
/// angle: the count covers the angle, one piece fewer does not, and only a
/// sweep of zero yields zero, whichever direction the arc runs.
pub proof fn lemma_count_beziers_is_ceil(s: Segment)
    ensures
        s matches Segment::Line(_) ==> s.count_spec() == 1,
        s matches Segment::BezierCurve(_) ==> s.count_spec() == 1,
        s matches Segment::Arc(a) ==> {
            let d = abs_spec(a.end - a.start);
            &&& s.count_spec() * QUARTER >= d
            &&& d == 0 ==> s.count_spec() == 0
            &&& d > 0 ==> ((s.count_spec() - 1) * QUARTER < d && s.count_spec() >= 1)
        },
        s matches Segment::OvalArc(a) ==> {
            let d = abs_spec(a.end - a.start);
            &&& s.count_spec() * QUARTER >= d
            &&& d == 0 ==> s.count_spec() == 0
            &&& d > 0 ==> ((s.count_spec() - 1) * QUARTER < d && s.count_spec() >= 1)
        },
{
    match s {
        Segment::Line(_) => {
        },
        Segment::BezierCurve(_) => {
        },
        Segment::Arc(a) => {
            crate::fixed::lemma_ceil_div_props(abs_spec(a.end - a.start), QUARTER as int);
        },
        Segment::OvalArc(a) => {
            crate::fixed::lemma_ceil_div_props(abs_spec(a.end - a.start), QUARTER as int);
        },
    }
}

/// Interpolation between two points is exact at both endpoints:
/// `lerp(a, b, 0) == a` and `lerp(a, b, 1) == b`.
pub proof fn lemma_point_lerp_endpoints(a: Point, b: Point)
    ensures
        lerp_point_spec(a, b, 0, ONE as int) == a,
        lerp_point_spec(a, b, ONE as int, ONE as int) == b,
{
    lemma_lerp_endpoints(a.x as int, b.x as int, ONE as int);
    lemma_lerp_endpoints(a.y as int, b.y as int, ONE as int);
}

/// Interpolation between two cubic curves is exact at both endpoints.
pub proof fn lemma_curve_lerp_endpoints(a: BezierCurve, b: BezierCurve)
    ensures
        curve_lerp_spec(a, b, 0) == a,
        curve_lerp_spec(a, b, ONE as int) == b,
{
    lemma_point_lerp_endpoints(a.start, b.start);
    lemma_point_lerp_endpoints(a.control1, b.control1);
    lemma_point_lerp_endpoints(a.control2, b.control2);
    lemma_point_lerp_endpoints(a.end, b.end);
}

/// `|x| <= m` and `|y| <= n` bound the product: `|x * y| <= m * n`.
proof fn lemma_abs_mul_bound(x: int, y: int, m: int, n: int)
    requires
        -m <= x <= m,
        -n <= y <= n,
        0 <= m,
        0 <= n,
    ensures
        -(m * n) <= x * y <= m * n,
{
    let ax = if x >= 0 { x } else { -x };
    let ay = if y >= 0 { y } else { -y };
    assert(ax * ay <= m * n) by {
        lemma_mul_upper_bound(ax, m, ay, n);
    }
    assert(x * y == ax * ay || x * y == -(ax * ay)) by {
        lemma_mul_unary_negation(x, ay);
        lemma_mul_unary_negation(ax, y);
        lemma_mul_unary_negation(x, y);
        lemma_mul_unary_negation(-x, y);
    }
    assert(0 <= ax * ay) by {
        lemma_mul_nonnegative(ax, ay);
    }
}

} // verus!
