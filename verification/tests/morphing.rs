use phint::draw::{Canvas, DrawCmd};
use phint::morph::MorphGraphic;
use phint::segments::{Arc, Line, Point, Segment};
use phint::single::{lerp_color, Color, Graphic, Group, Style};
use phint::{FULL_TURN, HALF, ONE, QUARTER};

fn pt(x: i64, y: i64) -> Point {
    Point::new(x, y)
}

fn group(segments: Vec<Segment>) -> Group {
    Group { segments, style: Style::new(ONE, 0), line_width: 100_000, close: false }
}

fn graphic(groups: Vec<Group>) -> Graphic {
    Graphic { color: Color { red: ONE, green: 0, blue: 0 }, groups }
}

#[test]
fn style_lerp_is_exact_at_both_endpoints() {
    let a = Style::new(ONE, 0);
    let b = Style::new(250_000, 750_000);
    assert_eq!(a.lerp(b, 0), a);
    assert_eq!(a.lerp(b, ONE), b);
}

#[test]
fn color_lerp_is_exact_at_both_endpoints() {
    let a = Color { red: ONE, green: 0, blue: 500_000 };
    let b = Color { red: 0, green: ONE, blue: 250_000 };
    assert_eq!(lerp_color(a, b, 0), a);
    assert_eq!(lerp_color(a, b, ONE), b);
    assert_eq!(
        lerp_color(a, b, HALF),
        Color { red: 500_000, green: 500_000, blue: 375_000 }
    );
}

#[test]
fn graphic_counts_native_pieces() {
    let x = graphic(vec![group(vec![
        Segment::Line(Line::new(pt(0, 0), pt(ONE, 0))),
        Segment::Line(Line::new(pt(ONE, 0), pt(ONE, ONE))),
        Segment::Line(Line::new(pt(ONE, ONE), pt(0, 0))),
    ])]);
    assert!(x.is_wf());
    assert_eq!(x.count_beziers(), 3);
    let y = graphic(vec![group(vec![Segment::Arc(Arc::new(
        pt(0, 0),
        ONE,
        0,
        FULL_TURN,
    ))])]);
    assert!(y.is_wf());
    assert_eq!(y.count_beziers(), 4);
}

#[test]
fn scenario_one_arc_to_one_line() {
    // One quarter arc against one line: both count one native piece, so
    // the shared total is one and there is exactly one pair.
    let x = graphic(vec![group(vec![Segment::Arc(Arc::new(pt(0, 0), ONE, 0, QUARTER))])]);
    let y = graphic(vec![group(vec![Segment::Line(Line::new(pt(0, 0), pt(ONE, ONE)))])]);
    assert!(x.is_wf());
    assert!(y.is_wf());
    assert_eq!(x.count_beziers(), 1);
    assert_eq!(y.count_beziers(), 1);
    let (mg, raws) = MorphGraphic::new(x, y);
    assert_eq!(mg.beziers.len(), 2);
    assert_eq!(raws.0.len(), 2);
    assert_eq!(raws.0[0].pos, 1);
    assert_eq!(raws.0[1].pos, 1);
    let linked = raws.link(&mg);
    assert_eq!(linked.start.len(), 1);
    assert_eq!(linked.target.len(), 1);
    assert_eq!(linked.start[0].segments.len(), 1);
    assert_eq!(linked.target[0].segments.len(), 1);
}

#[test]
fn scenario_three_lines_to_full_circle() {
    // Three lines (three native pieces) against a full circle (four): the
    // shared total is four, and the lines split as [2, 1, 1].
    let lines = vec![
        Segment::Line(Line::new(pt(0, 0), pt(ONE, 0))),
        Segment::Line(Line::new(pt(ONE, 0), pt(ONE, ONE))),
        Segment::Line(Line::new(pt(ONE, ONE), pt(0, 0))),
    ];
    let x = graphic(vec![group(lines.clone())]);
    let y = graphic(vec![group(vec![Segment::Arc(Arc::new(
        pt(0, 0),
        ONE,
        0,
        FULL_TURN,
    ))])]);
    assert_eq!(x.count_beziers(), 3);
    assert_eq!(y.count_beziers(), 4);
    let (mg, raws) = MorphGraphic::new(x, y);
    // Four curves per side.
    assert_eq!(mg.beziers.len(), 8);
    assert_eq!(raws.0.len(), 8);

    // The first half carries start positions 1..=4, each exactly once.
    let mut seen = [false; 4];
    for k in 0..4 {
        let p = raws.0[k].pos;
        assert!(p >= 1 && p <= 4);
        assert!(!seen[p - 1]);
        seen[p - 1] = true;
    }

    // Linking restores the start group's draw order: the first line was
    // split in two, so the group's curves are the two chord pieces of the
    // first line, then the second and third lines.
    let linked = raws.link(&mg);
    assert_eq!(linked.start.len(), 1);
    let segs = &linked.start[0].segments;
    assert_eq!(segs.len(), 4);
    let first_line_pieces = lines[0].to_beziers(2);
    let second = lines[1].to_beziers(1);
    let third = lines[2].to_beziers(1);
    assert_eq!(segs[0].start, first_line_pieces[0]);
    assert_eq!(segs[1].start, first_line_pieces[1]);
    assert_eq!(segs[2].start, second[0]);
    assert_eq!(segs[3].start, third[0]);
}

#[test]
fn pairing_positions_form_a_bijection() {
    // A larger randomized pairing: every position id on each side appears
    // exactly once in that side's half of the pool.
    let mut segs_x = Vec::new();
    for i in 0..10 {
        segs_x.push(Segment::Line(Line::new(pt(i * 1000, 0), pt(i * 1000 + 500, ONE))));
    }
    let x = graphic(vec![group(segs_x)]);
    let mut segs_y = Vec::new();
    segs_y.push(Segment::Arc(Arc::new(pt(0, 0), ONE, 0, FULL_TURN)));
    for i in 0..5 {
        segs_y.push(Segment::Line(Line::new(pt(0, i * 2000), pt(ONE, i * 2000))));
    }
    let y = graphic(vec![group(segs_y)]);
    assert_eq!(x.count_beziers(), 10);
    assert_eq!(y.count_beziers(), 9);
    let (mg, raws) = MorphGraphic::new(x, y);
    assert_eq!(mg.beziers.len(), 20);
    let c = 10;
    for half in 0..2 {
        let mut seen = vec![false; c];
        for k in 0..c {
            let p = raws.0[half * c + k].pos;
            assert!(p >= 1 && p <= c);
            assert!(!seen[p - 1], "position {} paired twice", p);
            seen[p - 1] = true;
        }
    }
}

#[test]
fn balancing_sums_to_shared_total() {
    // Five lines against a thirteen-piece side: splits are
    // [3, 3, 3, 2, 2], summing to exactly thirteen.
    let mut segs_x = Vec::new();
    for i in 0..5 {
        segs_x.push(Segment::Line(Line::new(pt(0, i * 1000), pt(ONE, i * 1000))));
    }
    let x = graphic(vec![group(segs_x)]);
    let mut segs_y = Vec::new();
    for i in 0..13 {
        segs_y.push(Segment::Line(Line::new(pt(i * 1000, 0), pt(i * 1000, ONE))));
    }
    let y = graphic(vec![group(segs_y)]);
    assert_eq!(x.count_beziers(), 5);
    assert_eq!(y.count_beziers(), 13);
    let (mg, raws) = MorphGraphic::new(x, y);
    assert_eq!(mg.beziers.len(), 26);
    assert_eq!(raws.0.len(), 26);
}

#[test]
fn link_restores_target_side_order_too() {
    // The same scenario as the three-lines-to-circle case, checked from
    // the circle's side: its four quarter pieces come back in sweep order.
    let x = graphic(vec![group(vec![
        Segment::Line(Line::new(pt(0, 0), pt(ONE, 0))),
        Segment::Line(Line::new(pt(ONE, 0), pt(ONE, ONE))),
        Segment::Line(Line::new(pt(ONE, ONE), pt(0, 0))),
    ])]);
    let circle = Segment::Arc(Arc::new(pt(0, 0), ONE, 0, FULL_TURN));
    let y = graphic(vec![group(vec![circle])]);
    let (mg, raws) = MorphGraphic::new(x, y);
    let linked = raws.link(&mg);
    let segs = &linked.target[0].segments;
    assert_eq!(segs.len(), 4);
    let pieces = circle.to_beziers(4);
    for i in 0..4 {
        assert_eq!(segs[i].target, pieces[i]);
    }
}

#[test]
fn zero_sweep_arc_is_legal_and_receives_extras() {
    // A zero-sweep arc counts no native piece and draws nothing, but it
    // is legal geometry, and balancing hands it extra pieces like any
    // other segment: [empty arc, line] has native count 1; against five
    // lines the four extras spread as [2, 2], so splits are [0+2, 1+2].
    let x = graphic(vec![group(vec![
        Segment::Arc(Arc::new(pt(0, 0), ONE, QUARTER, QUARTER)),
        Segment::Line(Line::new(pt(0, 0), pt(ONE, 0))),
    ])]);
    assert!(x.is_wf());
    assert_eq!(x.count_beziers(), 1);
    let mut segs_y = Vec::new();
    for i in 0..5 {
        segs_y.push(Segment::Line(Line::new(pt(0, i * 1000), pt(ONE, i * 1000))));
    }
    let y = graphic(vec![group(segs_y)]);
    assert_eq!(y.count_beziers(), 5);
    let (mg, raws) = MorphGraphic::new(x, y);
    assert_eq!(mg.beziers.len(), 10);
    assert_eq!(raws.0.len(), 10);
}

#[test]
fn uneven_side_still_balances_exactly() {
    // One full circle (four native pieces, one segment) against six
    // lines: the circle absorbs both extra pieces, both sides reach six
    // curves, and a mid-blend frame is a blended frame — it opens with
    // the blended colour, not either graphic's own.
    let x = graphic(vec![group(vec![Segment::Arc(Arc::new(pt(0, 0), ONE, 0, FULL_TURN))])]);
    let mut segs_y = Vec::new();
    for i in 0..6 {
        segs_y.push(Segment::Line(Line::new(pt(0, i * 1000), pt(ONE, i * 1000))));
    }
    let mut y = graphic(vec![group(segs_y)]);
    y.color = Color { red: 0, green: 0, blue: ONE };
    assert_eq!(x.count_beziers(), 4);
    assert_eq!(y.count_beziers(), 6);
    let (mg, raws) = MorphGraphic::new(x, y);
    assert_eq!(mg.beziers.len(), 12);
    assert_eq!(raws.0.len(), 12);
    let linked = raws.link(&mg);
    let mut ctx = Canvas::new();
    mg.draw(&mut ctx, &linked, 250_000);
    assert_eq!(
        ctx.commands()[0],
        DrawCmd::SetColor { red: 750_000, green: 0, blue: 250_000 }
    );
    assert_eq!(ctx.commands()[1], DrawCmd::SetAlpha { alpha: ONE });
}

#[test]
fn out_of_range_geometry_is_rejected() {
    let far = 2_000_000_000_000i64;
    let g = graphic(vec![group(vec![Segment::Line(Line::new(pt(far, 0), pt(0, 0)))])]);
    assert!(!g.is_wf());
    let mut bad_width = graphic(vec![group(vec![Segment::Line(Line::new(pt(0, 0), pt(ONE, 0)))])]);
    bad_width.groups[0].line_width = 0;
    assert!(!bad_width.is_wf());
}

#[test]
fn draw_at_zero_matches_start_alone() {
    let x = graphic(vec![group(vec![Segment::Line(Line::new(pt(0, 0), pt(ONE, 0)))])]);
    let y = graphic(vec![group(vec![Segment::Arc(Arc::new(pt(0, 0), ONE, 0, QUARTER))])]);
    let (mg, raws) = MorphGraphic::new(x.clone(), y.clone());
    let linked = raws.link(&mg);

    let mut expected = Canvas::new();
    x.draw(&mut expected);
    let mut got = Canvas::new();
    mg.draw(&mut got, &linked, 0);
    assert_eq!(got.commands(), expected.commands());

    let mut expected_t = Canvas::new();
    y.draw(&mut expected_t);
    let mut got_t = Canvas::new();
    mg.draw(&mut got_t, &linked, ONE);
    assert_eq!(got_t.commands(), expected_t.commands());
}

#[test]
fn midblend_overlay_has_zero_alpha_and_width() {
    let x = graphic(vec![group(vec![Segment::Line(Line::new(pt(0, 0), pt(ONE, 0)))])]);
    let y = graphic(vec![group(vec![Segment::Line(Line::new(pt(0, ONE), pt(ONE, ONE)))])]);
    let (mg, raws) = MorphGraphic::new(x, y);
    let linked = raws.link(&mg);
    let mut ctx = Canvas::new();
    mg.draw(&mut ctx, &linked, HALF);
    let cmds = ctx.commands();
    // The overlay pass announces itself with a zero alpha, and its paint
    // strokes at width zero.
    assert!(cmds.contains(&DrawCmd::SetAlpha { alpha: 0 }));
    assert!(cmds.contains(&DrawCmd::SetLineWidth { width: 0 }));
}

#[test]
fn blended_frame_uses_blended_color() {
    let x = graphic(vec![group(vec![Segment::Line(Line::new(pt(0, 0), pt(ONE, 0)))])]);
    let mut yg = graphic(vec![group(vec![Segment::Line(Line::new(pt(0, ONE), pt(ONE, ONE)))])]);
    yg.color = Color { red: 0, green: 0, blue: ONE };
    let (mg, raws) = MorphGraphic::new(x, yg);
    let linked = raws.link(&mg);
    let mut ctx = Canvas::new();
    mg.draw(&mut ctx, &linked, 250_000);
    assert_eq!(
        ctx.commands()[0],
        DrawCmd::SetColor { red: 750_000, green: 0, blue: 250_000 }
    );
    assert_eq!(ctx.commands()[1], DrawCmd::SetAlpha { alpha: ONE });
}

#[test]
fn degenerate_side_falls_back_to_the_other() {
    let empty = graphic(vec![]);
    let y = graphic(vec![group(vec![Segment::Line(Line::new(pt(0, 0), pt(ONE, 0)))])]);
    assert!(empty.is_wf());
    assert_eq!(empty.count_beziers(), 0);
    let (mg, raws) = MorphGraphic::new(empty, y.clone());
    assert_eq!(mg.beziers.len(), 0);
    let linked = raws.link(&mg);
    let mut expected = Canvas::new();
    y.draw(&mut expected);
    // The viable side is drawn for every t, the endpoints included.
    for t in [0, 1, 250_000, HALF, 999_999, ONE] {
        let mut got = Canvas::new();
        mg.draw(&mut got, &linked, t);
        assert_eq!(got.commands(), expected.commands());
    }
}

#[test]
fn overlay_redraws_the_native_path() {
    // Start: a line along the x axis; target: the same line shifted up.
    // At t = 0.25 the silhouette pass strokes the interpolated line, but
    // the identity overlay re-draws the start group's own path: it must
    // begin at the native (0, 0), not at the blended height.
    let x = graphic(vec![group(vec![Segment::Line(Line::new(pt(0, 0), pt(ONE, 0)))])]);
    let y = graphic(vec![group(vec![Segment::Line(Line::new(pt(0, ONE), pt(ONE, ONE)))])]);
    let (mg, raws) = MorphGraphic::new(x, y);
    let linked = raws.link(&mg);
    let mut ctx = Canvas::new();
    let t = 250_000;
    mg.draw(&mut ctx, &linked, t);
    let cmds = ctx.commands();
    // The overlay pass begins right after its alpha command |1 - 2t|.
    let fade = ONE - 2 * t;
    let at = cmds
        .iter()
        .position(|c| *c == DrawCmd::SetAlpha { alpha: fade })
        .expect("overlay alpha");
    assert_eq!(cmds[at + 1], DrawCmd::MoveTo { x: 0, y: 0 });
    // The silhouette pass drew the interpolated line, a quarter way up.
    assert!(cmds[..at].contains(&DrawCmd::LineTo { x: 0, y: 250_000 }));

    // From the target side (t past the middle) the overlay re-draws the
    // target group's own path at its native height.
    let mut ctx2 = Canvas::new();
    let t2 = 750_000;
    mg.draw(&mut ctx2, &linked, t2);
    let cmds2 = ctx2.commands();
    let fade2 = 2 * t2 - ONE;
    let at2 = cmds2
        .iter()
        .position(|c| *c == DrawCmd::SetAlpha { alpha: fade2 })
        .expect("overlay alpha");
    assert_eq!(cmds2[at2 + 1], DrawCmd::MoveTo { x: 0, y: ONE });
}

#[test]
fn paint_styles_emit_their_passes() {
    let mut ctx = Canvas::new();
    Style::new(ONE, 0).paint(&mut ctx, 300_000);
    assert_eq!(
        ctx.commands().as_slice(),
        &[DrawCmd::SetLineWidth { width: 300_000 }, DrawCmd::Stroke]
    );

    let mut ctx2 = Canvas::new();
    Style::new(0, ONE).paint(&mut ctx2, 300_000);
    assert_eq!(ctx2.commands().as_slice(), &[DrawCmd::Fill]);

    let mut ctx3 = Canvas::new();
    Style::new(HALF, 250_000).paint(&mut ctx3, 300_000);
    assert_eq!(
        ctx3.commands().as_slice(),
        &[
            DrawCmd::SetLineWidth { width: 150_000 },
            DrawCmd::Stroke,
            DrawCmd::SetAlpha { alpha: 250_000 },
            DrawCmd::Fill,
        ]
    );
}

#[test]
fn group_draw_closes_and_paints() {
    let mut g = group(vec![
        Segment::Line(Line::new(pt(0, 0), pt(ONE, 0))),
        Segment::Line(Line::new(pt(ONE, 0), pt(0, ONE))),
    ]);
    g.close = true;
    let mut ctx = Canvas::new();
    g.draw(&mut ctx);
    assert_eq!(
        ctx.commands().as_slice(),
        &[
            DrawCmd::MoveTo { x: 0, y: 0 },
            DrawCmd::LineTo { x: ONE, y: 0 },
            DrawCmd::LineTo { x: ONE, y: 0 },
            DrawCmd::LineTo { x: 0, y: ONE },
            DrawCmd::ClosePath,
            DrawCmd::SetLineWidth { width: 100_000 },
            DrawCmd::Stroke,
        ]
    );
}
