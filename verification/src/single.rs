//! Static illustrations: paint style, groups and graphics.
//!
//! A [`Graphic`] is a stroke colour plus ordered [`Group`]s; a group is an
//! ordered run of [`Segment`]s drawn as one sub-path with a style, a stroke
//! width and a closed flag. Paint style is a continuous pair of stroke and
//! fill weights in `[0, ONE]`, which subsumes a binary stroke/fill choice
//! and interpolates like every other quantity.

use vstd::prelude::*;
use crate::draw::Canvas;
use crate::draw::DrawCmd;
use crate::fixed::ONE;
use crate::fixed::COORD_LIMIT;
use crate::fixed::CURVE_LIMIT;
use crate::fixed::lerp_spec;
use crate::fixed::scale_spec;
use crate::fixed::scale;
use crate::fixed::lerp_i64;
use crate::fixed::lemma_lerp_bounds;
use crate::segments::Segment;
use crate::segments::segment_cmds;

verus! {

/// How a finished sub-path is painted: a stroke weight and a fill weight,
/// each in `[0, ONE]`. A weight of zero disables that pass; a pure stroke
/// is `(ONE, 0)` and a pure fill `(0, ONE)`.
#[derive(Clone, Copy, PartialEq, Eq, Structural, Debug)]
pub struct Style {
    /// Stroke weight: scales the stroke width.
    pub stroke: i64,
    /// Fill weight: `ONE` fills opaquely, a smaller positive weight fills
    /// with that alpha.
    pub fill: i64,
}

/// The commands that paint the current path with `style` at stroke width
/// `width`: a width-scaled stroke when the stroke weight is positive, then
/// a fill (alpha-painted below weight `ONE`) when the fill weight is.
pub open spec fn paint_cmds(style: Style, width: int) -> Seq<DrawCmd> {
    (if style.stroke > 0 {
        seq![
            DrawCmd::SetLineWidth {
                width: scale_spec(width, style.stroke as int, ONE as int) as i64,
            },
            DrawCmd::Stroke,
        ]
    } else {
        Seq::<DrawCmd>::empty()
    }) + (if style.fill == ONE {
        seq![DrawCmd::Fill]
    } else if style.fill > 0 {
        seq![DrawCmd::SetAlpha { alpha: style.fill }, DrawCmd::Fill]
    } else {
        Seq::<DrawCmd>::empty()
    })
}

/// Interpolation of a style: both weights interpolate independently.
pub open spec fn style_lerp_spec(a: Style, b: Style, t: int) -> Style {
    Style {
        stroke: lerp_spec(a.stroke as int, b.stroke as int, t, ONE as int) as i64,
        fill: lerp_spec(a.fill as int, b.fill as int, t, ONE as int) as i64,
    }
}

impl Style {
    /// Both weights lie in `[0, ONE]`.
    pub open spec fn wf(self) -> bool {
        0 <= self.stroke <= ONE && 0 <= self.fill <= ONE
    }

    /// A style from its stroke and fill weights.
    pub fn new(stroke: i64, fill: i64) -> (r: Style)
        ensures
            r == (Style { stroke, fill }),
    {
        Style { stroke, fill }
    }

    /// Interpolation toward `other` at blend parameter `t`.
    pub fn lerp(self, other: Style, t: i64) -> (r: Style)
        requires
            0 <= t <= ONE,
            self.wf(),
            other.wf(),
        ensures
            r == style_lerp_spec(self, other, t as int),
            r.wf(),
    {
        proof {
            lemma_lerp_bounds(self.stroke as int, other.stroke as int, t as int, ONE as int);
            lemma_lerp_bounds(self.fill as int, other.fill as int, t as int, ONE as int);
        }
        Style {
            stroke: lerp_i64(self.stroke, other.stroke, t, ONE),
            fill: lerp_i64(self.fill, other.fill, t, ONE),
        }
    }

    /// Paint the current path: a weighted stroke at `width`, then a fill.
    pub fn paint(self, ctx: &mut Canvas, width: i64)
        requires
            self.wf(),
            -4 * CURVE_LIMIT <= width <= 4 * CURVE_LIMIT,
        ensures
            final(ctx)@ == old(ctx)@ + paint_cmds(self, width as int),
    {
        if self.stroke > 0 {
            let w = scale(width, self.stroke, ONE);
            ctx.set_line_width(w);
            ctx.stroke();
        }
        if self.fill == ONE {
            ctx.fill();
        } else if self.fill > 0 {
            ctx.set_alpha(self.fill);
            ctx.fill();
        }
        proof {
            assert(final(ctx)@ =~= old(ctx)@ + paint_cmds(self, width as int));
        }
    }
}

impl Default for Style {
    /// A pure stroke.
    fn default() -> (r: Style)
        ensures
            r == (Style { stroke: ONE, fill: 0 }),
    {
        Style { stroke: ONE, fill: 0 }
    }
}

/// An ordered, independently styled sub-path of a graphic.
#[derive(Clone, PartialEq, Debug)]
pub struct Group {
    /// The segments of the sub-path, in draw order.
    pub segments: Vec<Segment>,
    /// How the finished sub-path is painted.
    pub style: Style,
    /// Stroke width of the sub-path.
    pub line_width: i64,
    /// Whether the sub-path is closed before painting.
    pub close: bool,
}

/// The total native piece count of a run of segments.
pub open spec fn seq_count(ss: Seq<Segment>) -> int
    decreases ss.len(),
{
    if ss.len() == 0 {
        0
    } else {
        ss[0].count_spec() + seq_count(ss.drop_first())
    }
}

/// Every native count is nonnegative and at most 200, so a run of segments
/// counts between zero and 200 per segment.
pub proof fn lemma_seq_count_bounds(ss: Seq<Segment>)
    requires
        forall|i: int| 0 <= i < ss.len() ==> (#[trigger] ss[i]).wf(),
    ensures
        0 <= seq_count(ss) <= 200 * ss.len(),
    decreases ss.len(),
{
    if ss.len() > 0 {
        assert(ss[0].wf());
        lemma_segment_count_range(ss[0]);
        assert(forall|i: int|
            0 <= i < ss.drop_first().len() ==> (#[trigger] ss.drop_first()[i]).wf());
        lemma_seq_count_bounds(ss.drop_first());
    }
}

/// A well-formed segment has a native count between 0 and 200.
pub proof fn lemma_segment_count_range(s: Segment)
    requires
        s.wf(),
    ensures
        0 <= s.count_spec() <= 200,
{
    match s {
        Segment::Line(_) => {
        },
        Segment::BezierCurve(_) => {
        },
        Segment::Arc(a) => {
            crate::fixed::lemma_ceil_div_props(
                crate::fixed::abs_spec(a.end - a.start),
                crate::fixed::QUARTER as int,
            );
        },
        Segment::OvalArc(a) => {
            crate::fixed::lemma_ceil_div_props(
                crate::fixed::abs_spec(a.end - a.start),
                crate::fixed::QUARTER as int,
            );
        },
    }
}

/// Counting a longer prefix adds the counts of the new segments.
pub proof fn lemma_seq_count_snoc(ss: Seq<Segment>, s: Segment)
    ensures
        seq_count(ss.push(s)) == seq_count(ss) + s.count_spec(),
    decreases ss.len(),
{
    if ss.len() == 0 {
        assert(ss.push(s)[0] == s);
        assert(ss.push(s).drop_first() =~= Seq::<Segment>::empty());
        assert(seq_count(Seq::<Segment>::empty()) == 0);
    } else {
        assert(ss.push(s)[0] == ss[0]);
        assert(ss.push(s).drop_first() =~= ss.drop_first().push(s));
        lemma_seq_count_snoc(ss.drop_first(), s);
    }
}

/// The commands of an ordered run of segments drawn as one path.
pub open spec fn segments_cmds(ss: Seq<Segment>, begin: bool) -> Seq<DrawCmd>
    decreases ss.len(),
{
    if ss.len() == 0 {
        Seq::<DrawCmd>::empty()
    } else {
        segment_cmds(ss[0], begin) + segments_cmds(ss.drop_first(), false)
    }
}

/// Appending one segment to a run appends its commands, continuing the
/// path unless the run was empty.
pub proof fn lemma_segments_cmds_push(ss: Seq<Segment>, s: Segment, begin: bool)
    ensures
        segments_cmds(ss.push(s), begin) == segments_cmds(ss, begin) + segment_cmds(
            s,
            if ss.len() == 0 {
                begin
            } else {
                false
            },
        ),
    decreases ss.len(),
{
    if ss.len() == 0 {
        assert(ss.push(s)[0] == s);
        assert(ss.push(s).drop_first() =~= Seq::<Segment>::empty());
        assert(segments_cmds(Seq::<Segment>::empty(), false) == Seq::<DrawCmd>::empty());
        assert(segments_cmds(ss.push(s), begin) =~= segment_cmds(s, begin) + Seq::<
            DrawCmd,
        >::empty());
        assert(segments_cmds(ss.push(s), begin) =~= segment_cmds(s, begin));
        assert(segments_cmds(ss, begin) + segment_cmds(s, begin) =~= segment_cmds(s, begin));
    } else {
        assert(ss.push(s)[0] == ss[0]);
        assert(ss.push(s).drop_first() =~= ss.drop_first().push(s));
        lemma_segments_cmds_push(ss.drop_first(), s, false);
        assert(segments_cmds(ss.push(s), begin) =~= segments_cmds(ss, begin) + segment_cmds(
            s,
            false,
        ));
    }
}

/// The commands of one group: its segments as one path, closed if asked,
/// then painted with its own style at its own width.
pub open spec fn group_cmds(g: Group) -> Seq<DrawCmd> {
    segments_cmds(g.segments@, true) + (if g.close {
        seq![DrawCmd::ClosePath]
    } else {
        Seq::<DrawCmd>::empty()
    }) + paint_cmds(g.style, g.line_width as int)
}

impl Group {
    /// Well-formed loaded geometry: well-formed segments (at most
    /// `100_000`), a well-formed style, and a positive stroke width
    /// within [`COORD_LIMIT`]. A zero-sweep arc is well formed: it counts
    /// no native piece and draws nothing, and count balancing hands it
    /// its share of the extra pieces like any other segment.
    pub open spec fn wf(self) -> bool {
        &&& forall|i: int| 0 <= i < self.segments@.len() ==> (#[trigger] self.segments@[i]).wf()
        &&& self.segments@.len() <= 100_000
        &&& self.style.wf()
        &&& 0 < self.line_width <= COORD_LIMIT
    }

    /// The group's segments, in draw order.
    pub fn segments(&self) -> (r: &Vec<Segment>)
        ensures
            r@ == self.segments@,
    {
        &self.segments
    }

    /// The group's paint style.
    pub fn style(&self) -> (r: Style)
        ensures
            r == self.style,
    {
        self.style
    }

    /// The group's stroke width.
    pub fn line_width(&self) -> (r: i64)
        ensures
            r == self.line_width,
    {
        self.line_width
    }

    /// Whether the sub-path is closed before painting.
    pub fn close(&self) -> (r: bool)
        ensures
            r == self.close,
    {
        self.close
    }

    /// Decide well-formedness of a loaded group at run time.
    pub fn is_wf(&self) -> (b: bool)
        ensures
            b == self.wf(),
    {
        if !(0 <= self.style.stroke && self.style.stroke <= ONE && 0 <= self.style.fill
            && self.style.fill <= ONE) {
            return false;
        }
        if !(0 < self.line_width && self.line_width <= COORD_LIMIT) {
            return false;
        }
        if self.segments.len() > 100_000 {
            return false;
        }
        let mut i: usize = 0;
        while i < self.segments.len()
            invariant
                0 <= i <= self.segments@.len(),
                forall|j: int| 0 <= j < i ==> (#[trigger] self.segments@[j]).wf(),
            decreases self.segments@.len() - i,
        {
            if !self.segments[i].is_wf() {
                return false;
            }
            i = i + 1;
        }
        true
    }

    /// The total native piece count of the group's segments.
    pub fn count_beziers(&self) -> (r: usize)
        requires
            self.wf(),
        ensures
            r == seq_count(self.segments@),
            r <= 200 * self.segments@.len(),
    {
        let mut sum: usize = 0;
        let mut i: usize = 0;
        proof {
            assert(self.segments@.take(0) =~= Seq::<Segment>::empty());
        }
        while i < self.segments.len()
            invariant
                0 <= i <= self.segments@.len(),
                self.wf(),
                sum == seq_count(self.segments@.take(i as int)),
                sum <= 200 * i,
            decreases self.segments@.len() - i,
        {
            let c = self.segments[i].count_beziers();
            proof {
                lemma_seq_count_snoc(self.segments@.take(i as int), self.segments@[i as int]);
                assert(self.segments@.take(i as int).push(self.segments@[i as int])
                    =~= self.segments@.take(i as int + 1));
            }
            sum = sum + c;
            i = i + 1;
        }
        proof {
            assert(self.segments@.take(self.segments@.len() as int) =~= self.segments@);
        }
        sum
    }

    /// Issue the group: its segments as one path, closed if asked, painted
    /// with its style at its width.
    pub fn draw(&self, ctx: &mut Canvas)
        requires
            self.wf(),
        ensures
            final(ctx)@ == old(ctx)@ + group_cmds(*self),
    {
        let mut i: usize = 0;
        proof {
            assert(self.segments@.take(0) =~= Seq::<Segment>::empty());
            assert(ctx@ + segments_cmds(self.segments@.take(0), true) =~= ctx@);
        }
        while i < self.segments.len()
            invariant
                0 <= i <= self.segments@.len(),
                self.wf(),
                ctx@ == old(ctx)@ + segments_cmds(self.segments@.take(i as int), true),
            decreases self.segments@.len() - i,
        {
            let begin = i == 0;
            self.segments[i].draw(ctx, begin);
            proof {
                lemma_segments_cmds_push(
                    self.segments@.take(i as int),
                    self.segments@[i as int],
                    true,
                );
                assert(self.segments@.take(i as int).push(self.segments@[i as int])
                    =~= self.segments@.take(i as int + 1));
                assert(ctx@ =~= old(ctx)@ + segments_cmds(self.segments@.take(i as int + 1), true));
            }
            i = i + 1;
        }
        proof {
            assert(self.segments@.take(self.segments@.len() as int) =~= self.segments@);
        }
        if self.close {
            ctx.close_path();
        }
        self.style.paint(ctx, self.line_width);
        proof {
            assert(final(ctx)@ =~= old(ctx)@ + group_cmds(*self));
        }
    }
}

impl Default for Group {
    /// An empty stroked group of width `0.1`.
    fn default() -> (r: Group)
        ensures
            r.segments@.len() == 0,
            r.style == (Style { stroke: ONE, fill: 0 }),
            r.line_width == 100_000,
            !r.close,
    {
        Group {
            segments: Vec::new(),
            style: Style { stroke: ONE, fill: 0 },
            line_width: 100_000,
            close: false,
        }
    }
}

/// A colour: three channels, each in `[0, ONE]`.
#[derive(Clone, Copy, PartialEq, Eq, Structural, Debug)]
pub struct Color {
    /// Red channel.
    pub red: i64,
    /// Green channel.
    pub green: i64,
    /// Blue channel.
    pub blue: i64,
}

/// Interpolation of a colour, channel by channel.
pub open spec fn color_lerp_spec(a: Color, b: Color, t: int) -> Color {
    Color {
        red: lerp_spec(a.red as int, b.red as int, t, ONE as int) as i64,
        green: lerp_spec(a.green as int, b.green as int, t, ONE as int) as i64,
        blue: lerp_spec(a.blue as int, b.blue as int, t, ONE as int) as i64,
    }
}

/// Whether all three colour channels lie in `[0, ONE]`.
pub open spec fn color_wf(c: Color) -> bool {
    0 <= c.red <= ONE && 0 <= c.green <= ONE && 0 <= c.blue <= ONE
}

/// Interpolate two colours channel by channel; exact at both endpoints.
pub fn lerp_color(a: Color, b: Color, t: i64) -> (r: Color)
    requires
        0 <= t <= ONE,
        color_wf(a),
        color_wf(b),
    ensures
        r == color_lerp_spec(a, b, t as int),
        color_wf(r),
{
    proof {
        lemma_lerp_bounds(a.red as int, b.red as int, t as int, ONE as int);
        lemma_lerp_bounds(a.green as int, b.green as int, t as int, ONE as int);
        lemma_lerp_bounds(a.blue as int, b.blue as int, t as int, ONE as int);
    }
    Color {
        red: lerp_i64(a.red, b.red, t, ONE),
        green: lerp_i64(a.green, b.green, t, ONE),
        blue: lerp_i64(a.blue, b.blue, t, ONE),
    }
}

/// A complete static illustration: a stroke colour plus ordered groups.
#[derive(Clone, PartialEq, Debug)]
pub struct Graphic {
    /// Stroke colour of the illustration.
    pub color: Color,
    /// The groups of the illustration, in draw order.
    pub groups: Vec<Group>,
}

/// The total native piece count of a run of groups.
pub open spec fn groups_count(gs: Seq<Group>) -> int
    decreases gs.len(),
{
    if gs.len() == 0 {
        0
    } else {
        seq_count(gs[0].segments@) + groups_count(gs.drop_first())
    }
}

/// Counting a longer prefix adds the counts of the new group.
pub proof fn lemma_groups_count_snoc(gs: Seq<Group>, g: Group)
    ensures
        groups_count(gs.push(g)) == groups_count(gs) + seq_count(g.segments@),
    decreases gs.len(),
{
    if gs.len() == 0 {
        assert(gs.push(g)[0] == g);
        assert(gs.push(g).drop_first() =~= Seq::<Group>::empty());
        assert(groups_count(Seq::<Group>::empty()) == 0);
    } else {
        assert(gs.push(g)[0] == gs[0]);
        assert(gs.push(g).drop_first() =~= gs.drop_first().push(g));
        lemma_groups_count_snoc(gs.drop_first(), g);
    }
}

/// A run of well-formed groups counts between zero and its worst case.
pub proof fn lemma_groups_count_bounds(gs: Seq<Group>)
    requires
        forall|i: int| 0 <= i < gs.len() ==> (#[trigger] gs[i]).wf(),
    ensures
        0 <= groups_count(gs) <= 20_000_000 * gs.len(),
    decreases gs.len(),
{
    if gs.len() > 0 {
        assert(gs[0].wf());
        lemma_seq_count_bounds(gs[0].segments@);
        assert(forall|i: int|
            0 <= i < gs.drop_first().len() ==> (#[trigger] gs.drop_first()[i]).wf());
        lemma_groups_count_bounds(gs.drop_first());
    }
}

/// The commands of a run of groups, each its own sub-path.
pub open spec fn groups_cmds(gs: Seq<Group>) -> Seq<DrawCmd>
    decreases gs.len(),
{
    if gs.len() == 0 {
        Seq::<DrawCmd>::empty()
    } else {
        group_cmds(gs[0]) + groups_cmds(gs.drop_first())
    }
}

/// Appending one group appends its commands.
pub proof fn lemma_groups_cmds_push(gs: Seq<Group>, g: Group)
    ensures
        groups_cmds(gs.push(g)) == groups_cmds(gs) + group_cmds(g),
    decreases gs.len(),
{
    if gs.len() == 0 {
        assert(gs.push(g)[0] == g);
        assert(gs.push(g).drop_first() =~= Seq::<Group>::empty());
        assert(groups_cmds(Seq::<Group>::empty()) == Seq::<DrawCmd>::empty());
        assert(groups_cmds(gs.push(g)) =~= group_cmds(g) + Seq::<DrawCmd>::empty());
        assert(groups_cmds(gs.push(g)) =~= group_cmds(g));
        assert(groups_cmds(gs) + group_cmds(g) =~= group_cmds(g));
    } else {
        assert(gs.push(g)[0] == gs[0]);
        assert(gs.push(g).drop_first() =~= gs.drop_first().push(g));
        lemma_groups_cmds_push(gs.drop_first(), g);
        assert(groups_cmds(gs.push(g)) =~= groups_cmds(gs) + group_cmds(g));
    }
}

/// The commands of a whole graphic: its colour, then its groups.
pub open spec fn graphic_cmds(g: Graphic) -> Seq<DrawCmd> {
    seq![DrawCmd::SetColor { red: g.color.red, green: g.color.green, blue: g.color.blue }] + groups_cmds(
        g.groups@,
    )
}

impl Graphic {
    /// Well-formed loaded geometry: a colour in range, at most `10_000`
    /// well-formed groups, and a total native count of at most `500_000`.
    pub open spec fn wf(self) -> bool {
        &&& color_wf(self.color)
        &&& forall|i: int| 0 <= i < self.groups@.len() ==> (#[trigger] self.groups@[i]).wf()
        &&& self.groups@.len() <= 10_000
        &&& groups_count(self.groups@) <= 500_000
    }

    /// The total native piece count of the whole illustration.
    pub open spec fn count_spec(self) -> int {
        groups_count(self.groups@)
    }

    /// The illustration's colour.
    pub fn color(&self) -> (r: Color)
        ensures
            r == self.color,
    {
        self.color
    }

    /// The group at `index`.
    pub fn group(&self, index: usize) -> (r: &Group)
        requires
            index < self.groups@.len(),
        ensures
            *r == self.groups@[index as int],
    {
        &self.groups[index]
    }

    /// The groups of the illustration, in draw order.
    pub fn groups(&self) -> (r: &Vec<Group>)
        ensures
            r@ == self.groups@,
    {
        &self.groups
    }

    /// Decide well-formedness of a loaded illustration at run time.
    pub fn is_wf(&self) -> (b: bool)
        ensures
            b == self.wf(),
    {
        if !(0 <= self.color.red && self.color.red <= ONE && 0 <= self.color.green
            && self.color.green <= ONE && 0 <= self.color.blue && self.color.blue <= ONE) {
            return false;
        }
        if self.groups.len() > 10_000 {
            return false;
        }
        let mut total: u64 = 0;
        let mut i: usize = 0;
        proof {
            assert(self.groups@.take(0) =~= Seq::<Group>::empty());
        }
        while i < self.groups.len()
            invariant
                0 <= i <= self.groups@.len(),
                self.groups@.len() <= 10_000,
                forall|j: int| 0 <= j < i ==> (#[trigger] self.groups@[j]).wf(),
                total == groups_count(self.groups@.take(i as int)),
                total <= 20_000_000 * i,
            decreases self.groups@.len() - i,
        {
            if !self.groups[i].is_wf() {
                return false;
            }
            let c = self.groups[i].count_beziers();
            proof {
                lemma_groups_count_snoc(self.groups@.take(i as int), self.groups@[i as int]);
                assert(self.groups@.take(i as int).push(self.groups@[i as int])
                    =~= self.groups@.take(i as int + 1));
            }
            total = total + c as u64;
            i = i + 1;
        }
        proof {
            assert(self.groups@.take(self.groups@.len() as int) =~= self.groups@);
        }
        total <= 500_000
    }

    /// The total native piece count of the whole illustration.
    pub fn count_beziers(&self) -> (r: usize)
        requires
            self.wf(),
        ensures
            r == self.count_spec(),
            r <= 500_000,
    {
        let mut sum: usize = 0;
        let mut i: usize = 0;
        proof {
            assert(self.groups@.take(0) =~= Seq::<Group>::empty());
        }
        while i < self.groups.len()
            invariant
                0 <= i <= self.groups@.len(),
                self.wf(),
                sum == groups_count(self.groups@.take(i as int)),
                sum <= 500_000,
            decreases self.groups@.len() - i,
        {
            let c = self.groups[i].count_beziers();
            proof {
                lemma_groups_count_snoc(self.groups@.take(i as int), self.groups@[i as int]);
                assert(self.groups@.take(i as int).push(self.groups@[i as int])
                    =~= self.groups@.take(i as int + 1));
                lemma_groups_count_prefix_bound(self.groups@, i as int + 1);
            }
            sum = sum + c;
            i = i + 1;
        }
        proof {
            assert(self.groups@.take(self.groups@.len() as int) =~= self.groups@);
        }
        sum
    }

    /// Issue the whole illustration: its colour, then each group.
    pub fn draw(&self, ctx: &mut Canvas)
        requires
            self.wf(),
        ensures
            final(ctx)@ == old(ctx)@ + graphic_cmds(*self),
    {
        ctx.set_color(self.color.red, self.color.green, self.color.blue);
        let mut i: usize = 0;
        let ghost mark = ctx@;
        proof {
            assert(self.groups@.take(0) =~= Seq::<Group>::empty());
            assert(ctx@ + groups_cmds(self.groups@.take(0)) =~= ctx@);
        }
        while i < self.groups.len()
            invariant
                0 <= i <= self.groups@.len(),
                self.wf(),
                ctx@ == mark + groups_cmds(self.groups@.take(i as int)),
            decreases self.groups@.len() - i,
        {
            self.groups[i].draw(ctx);
            proof {
                lemma_groups_cmds_push(self.groups@.take(i as int), self.groups@[i as int]);
                assert(self.groups@.take(i as int).push(self.groups@[i as int])
                    =~= self.groups@.take(i as int + 1));
                assert(ctx@ =~= mark + groups_cmds(self.groups@.take(i as int + 1)));
            }
            i = i + 1;
        }
        proof {
            assert(self.groups@.take(self.groups@.len() as int) =~= self.groups@);
            assert(final(ctx)@ =~= old(ctx)@ + graphic_cmds(*self));
        }
    }
}

/// Interpolation of a stroke width is exact at both endpoints:
/// `lerp(a, b, 0) == a` and `lerp(a, b, 1) == b`.
pub proof fn lemma_width_lerp_endpoints(a: i64, b: i64)
    ensures
        lerp_spec(a as int, b as int, 0, ONE as int) == a,
        lerp_spec(a as int, b as int, ONE as int, ONE as int) == b,
{
    crate::fixed::lemma_lerp_endpoints(a as int, b as int, ONE as int);
}

/// Interpolation of a colour is exact at both endpoints:
/// `lerp(a, b, 0) == a` and `lerp(a, b, 1) == b`.
pub proof fn lemma_color_lerp_endpoints(a: Color, b: Color)
    ensures
        color_lerp_spec(a, b, 0) == a,
        color_lerp_spec(a, b, ONE as int) == b,
{
    crate::fixed::lemma_lerp_endpoints(a.red as int, b.red as int, ONE as int);
    crate::fixed::lemma_lerp_endpoints(a.green as int, b.green as int, ONE as int);
    crate::fixed::lemma_lerp_endpoints(a.blue as int, b.blue as int, ONE as int);
}

/// A prefix of a run of groups never counts more than the whole run.
pub proof fn lemma_groups_count_prefix_bound(gs: Seq<Group>, i: int)
    requires
        0 <= i <= gs.len(),
        forall|j: int| 0 <= j < gs.len() ==> (#[trigger] gs[j]).wf(),
    ensures
        groups_count(gs.take(i)) <= groups_count(gs),
    decreases gs.len() - i,
{
    if i < gs.len() {
        lemma_groups_count_snoc(gs.take(i), gs[i]);
        assert(gs.take(i).push(gs[i]) =~= gs.take(i + 1));
        assert(gs[i].wf());
        lemma_seq_count_bounds(gs[i].segments@);
        lemma_groups_count_prefix_bound(gs, i + 1);
    } else {
        assert(gs.take(i) =~= gs);
    }
}

} // verus!
