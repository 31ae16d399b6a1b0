use phint::draw::{Canvas, DrawCmd};
use phint::segments::{Arc, BezierCurve, Line, OvalArc, Point, Segment};
use phint::{FULL_TURN, HALF, ONE, QUARTER};

fn pt(x: i64, y: i64) -> Point {
    Point::new(x, y)
}

#[test]
fn lerp_point_is_exact_at_both_endpoints() {
    let a = pt(123_456, -789_000);
    let b = pt(-42, 999_999);
    assert_eq!(a.lerp(b, 0), a);
    assert_eq!(a.lerp(b, ONE), b);
}

#[test]
fn lerp_point_midway() {
    let a = pt(0, 0);
    let b = pt(ONE, -ONE);
    let m = a.lerp(b, HALF);
    assert_eq!(m, pt(500_000, -500_000));
}

#[test]
fn count_beziers_line_and_curve_are_one() {
    let line = Segment::Line(Line::new(pt(0, 0), pt(ONE, ONE)));
    assert_eq!(line.count_beziers(), 1);
    let curve = Segment::BezierCurve(BezierCurve::new(
        pt(0, 0),
        pt(1, 1),
        pt(2, 2),
        pt(3, 3),
    ));
    assert_eq!(curve.count_beziers(), 1);
}

#[test]
fn count_beziers_arc_rounds_quarter_turns_up() {
    let quarter = Segment::Arc(Arc::new(pt(0, 0), ONE, 0, QUARTER));
    assert_eq!(quarter.count_beziers(), 1);
    let just_over = Segment::Arc(Arc::new(pt(0, 0), ONE, 0, QUARTER + 1));
    assert_eq!(just_over.count_beziers(), 2);
    let half_turn = Segment::Arc(Arc::new(pt(0, 0), ONE, 0, 2 * QUARTER));
    assert_eq!(half_turn.count_beziers(), 2);
    let full = Segment::Arc(Arc::new(pt(0, 0), ONE, 0, FULL_TURN));
    assert_eq!(full.count_beziers(), 4);
    let empty = Segment::Arc(Arc::new(pt(0, 0), ONE, QUARTER, QUARTER));
    assert_eq!(empty.count_beziers(), 0);
}

#[test]
fn count_beziers_negative_direction_arc() {
    let reversed = Segment::Arc(Arc::new(pt(0, 0), ONE, QUARTER, -QUARTER));
    assert_eq!(reversed.count_beziers(), 2);
    let oval = Segment::OvalArc(OvalArc::new(pt(0, 0), ONE, 2 * ONE, 0, -FULL_TURN));
    assert_eq!(oval.count_beziers(), 4);
}

#[test]
fn to_beziers_yields_exactly_count_pieces() {
    let line = Segment::Line(Line::new(pt(0, 0), pt(ONE, 0)));
    for count in [1usize, 2, 3, 7] {
        assert_eq!(line.to_beziers(count).len(), count);
    }
    let arc = Segment::Arc(Arc::new(pt(0, 0), ONE, 0, FULL_TURN));
    for count in [1usize, 4, 9] {
        assert_eq!(arc.to_beziers(count).len(), count);
    }
    let curve = Segment::BezierCurve(BezierCurve::new(
        pt(0, 0),
        pt(ONE, 0),
        pt(ONE, ONE),
        pt(0, ONE),
    ));
    for count in [1usize, 2, 5] {
        assert_eq!(curve.to_beziers(count).len(), count);
    }
}

#[test]
fn line_pieces_tile_the_chord_exactly() {
    let start = pt(0, 0);
    let end = pt(ONE, -2 * ONE);
    let line = Segment::Line(Line::new(start, end));
    let pieces = line.to_beziers(3);
    assert_eq!(pieces[0].start, start);
    assert_eq!(pieces[2].end, end);
    for i in 0..2 {
        assert_eq!(pieces[i].end, pieces[i + 1].start);
    }
}

#[test]
fn curve_subdivision_is_contiguous_and_keeps_endpoints() {
    let b = BezierCurve::new(pt(0, 0), pt(ONE, 0), pt(ONE, ONE), pt(0, ONE));
    let seg = Segment::BezierCurve(b);
    let pieces = seg.to_beziers(4);
    assert_eq!(pieces.len(), 4);
    assert_eq!(pieces[0].start, b.start);
    assert_eq!(pieces[3].end, b.end);
    for i in 0..3 {
        assert_eq!(pieces[i].end, pieces[i + 1].start);
    }
}

#[test]
fn curve_split_in_two_matches_de_casteljau_midpoints() {
    // Cutting at 1/2: the first sub-curve's control points are the
    // left edge of the de Casteljau triangle at the midpoint.
    let b = BezierCurve::new(pt(0, 0), pt(ONE, 0), pt(ONE, ONE), pt(0, ONE));
    let pieces = Segment::BezierCurve(b).to_beziers(2);
    // l10 = midpoint of (start, control1) and so on down the triangle.
    assert_eq!(pieces[0].start, pt(0, 0));
    assert_eq!(pieces[0].control1, pt(500_000, 0));
    assert_eq!(pieces[0].control2, pt(750_000, 250_000));
    assert_eq!(pieces[0].end, pt(750_000, 500_000));
    assert_eq!(pieces[1].end, pt(0, ONE));
}

#[test]
fn quarter_arc_endpoints_lie_on_the_axes() {
    let arc = Arc::new(pt(0, 0), ONE, 0, QUARTER);
    let pieces = Segment::Arc(arc).to_beziers(1);
    assert_eq!(pieces[0].start, pt(ONE, 0));
    assert_eq!(pieces[0].end, pt(0, ONE));
}

#[test]
fn trig_is_exact_on_the_axes() {
    assert_eq!(phint::trig::sin_fp(0), 0);
    assert_eq!(phint::trig::sin_fp(QUARTER), ONE);
    assert_eq!(phint::trig::sin_fp(2 * QUARTER), 0);
    assert_eq!(phint::trig::sin_fp(3 * QUARTER), -ONE);
    assert_eq!(phint::trig::cos_fp(0), ONE);
    assert_eq!(phint::trig::cos_fp(QUARTER), 0);
    assert_eq!(phint::trig::sin_fp(-QUARTER), -ONE);
    assert_eq!(phint::trig::sin_fp(FULL_TURN + QUARTER), ONE);
}

#[test]
fn canvas_records_a_line_path() {
    let mut ctx = Canvas::new();
    let line = Segment::Line(Line::new(pt(1, 2), pt(3, 4)));
    line.draw(&mut ctx, true);
    assert_eq!(
        ctx.commands().as_slice(),
        &[DrawCmd::MoveTo { x: 1, y: 2 }, DrawCmd::LineTo { x: 3, y: 4 }]
    );
    let mut ctx2 = Canvas::new();
    line.draw(&mut ctx2, false);
    assert_eq!(
        ctx2.commands().as_slice(),
        &[DrawCmd::LineTo { x: 1, y: 2 }, DrawCmd::LineTo { x: 3, y: 4 }]
    );
}

#[test]
fn canvas_records_a_curve() {
    let mut ctx = Canvas::new();
    let b = BezierCurve::new(pt(0, 0), pt(1, 0), pt(2, 0), pt(3, 0));
    b.draw(&mut ctx, true);
    assert_eq!(
        ctx.commands().as_slice(),
        &[
            DrawCmd::MoveTo { x: 0, y: 0 },
            DrawCmd::CurveTo { x1: 1, y1: 0, x2: 2, y2: 0, x: 3, y: 0 },
        ]
    );
}
