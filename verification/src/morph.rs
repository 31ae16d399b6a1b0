//! The morph engine: normalizing two illustrations to a common curve count,
//! pairing their curves, and drawing a blended frame.
//!
//! Both graphics are decomposed into the same total number of cubic curves.
//! Each curve keeps its owning group and a stable position id given in draw
//! order; each side's pool is then shuffled once, and the pairing matches
//! the two pools slot by slot. Restoring draw order inside a group sorts
//! its matched curves back by position id.

use vstd::prelude::*;
use crate::fixed::ONE;
use crate::fixed::HALF;
use crate::fixed::CURVE_LIMIT;
use crate::fixed::lerp_spec;
use crate::fixed::scale_spec;
use crate::draw::Canvas;
use crate::draw::DrawCmd;
use crate::segments::curve_cmds;
use crate::segments::curve_lerp_spec;
use crate::segments::path_cmds;
use crate::segments::Segment;
use crate::segments::BezierCurve;
use crate::segments::curve_bounded;
use crate::segments::to_beziers_spec;
use crate::single::Graphic;
use crate::single::Group;
use crate::single::Style;
use crate::single::seq_count;
use crate::single::groups_count;
use crate::single::Color;
use crate::single::color_lerp_spec;
use crate::single::lerp_color;
use crate::single::paint_cmds;
use crate::single::graphic_cmds;

verus! {

/// The raw pairing record of one pooled curve: the group it came from and
/// its stable position id (1-based, in draw order on its own side).
#[derive(Clone, Copy, PartialEq, Eq, Structural, Debug)]
pub struct GroupRaw {
    /// Index of the owning group on the curve's own side.
    pub group_id: usize,
    /// Stable position id in draw order, starting at 1.
    pub pos: usize,
}

impl GroupRaw {
    /// A pairing record from its group index and position id.
    pub fn new(group_id: usize, pos: usize) -> (r: GroupRaw)
        ensures
            r == (GroupRaw { group_id, pos }),
    {
        GroupRaw { group_id, pos }
    }
}

/// The raw pairing of a morph: one record per pooled curve, the first half
/// for the start side and the second for the target side.
#[derive(Clone)]
pub struct GroupsRaw(pub Vec<GroupRaw>);

/// All segments of a run of groups in draw order, each with the index of
/// its group, counting group indices from `g0`.
pub open spec fn flat_from(gs: Seq<Group>, g0: int) -> Seq<(Segment, usize)>
    decreases gs.len(),
{
    if gs.len() == 0 {
        Seq::<(Segment, usize)>::empty()
    } else {
        gs[0].segments@.map_values(|s: Segment| (s, g0 as usize)) + flat_from(
            gs.drop_first(),
            g0 + 1,
        )
    }
}

/// All segments of a graphic in traversal order, each with its group index.
pub open spec fn flat_segments(g: Graphic) -> Seq<(Segment, usize)> {
    flat_from(g.groups@, 0)
}

/// The number of cubic pieces the segment at flat index `idx` receives
/// when a side of native count `c` and `n` segments is normalized to
/// `cap` curves: its own native count plus its share of the `cap - c`
/// extra pieces, spread evenly with the earliest segments absorbing the
/// remainder. The shares sum to exactly `cap` for every side.
pub open spec fn splits_spec(s: Segment, idx: int, n: int, c: int, cap: int) -> int
    recommends
        n >= 1,
        0 <= c <= cap,
{
    s.count_spec() + (cap - c) / n + if idx < (cap - c) % n {
        1int
    } else {
        0int
    }
}

/// The normalized curves of a run of flat segments starting at flat index
/// `idx`: each segment's decomposition, each curve tagged with the
/// segment's group index.
pub open spec fn norm_from(segs: Seq<(Segment, usize)>, idx: int, n: int, c: int, cap: int) -> Seq<
    (BezierCurve, usize),
>
    decreases segs.len(),
{
    if segs.len() == 0 {
        Seq::<(BezierCurve, usize)>::empty()
    } else {
        to_beziers_spec(segs[0].0, splits_spec(segs[0].0, idx, n, c, cap)).map_values(
            |b: BezierCurve| (b, segs[0].1),
        ) + norm_from(segs.drop_first(), idx + 1, n, c, cap)
    }
}

/// The normalized curves of one side of a morph: its flat segments
/// decomposed so the side holds exactly `cap` curves in draw order.
pub open spec fn side_norm(g: Graphic, c: int, cap: int) -> Seq<(BezierCurve, usize)> {
    norm_from(flat_segments(g), 0, flat_segments(g).len() as int, c, cap)
}

/// Normalized curves tagged with position ids counted from `p0`.
pub open spec fn with_pos_from(n: Seq<(BezierCurve, usize)>, p0: int) -> Seq<
    (BezierCurve, GroupRaw),
> {
    Seq::new(n.len(), |k: int| (n[k].0, GroupRaw { group_id: n[k].1, pos: (p0 + k) as usize }))
}

/// Normalized curves tagged with their stable position ids, in draw order.
pub open spec fn with_pos(n: Seq<(BezierCurve, usize)>) -> Seq<(BezierCurve, GroupRaw)> {
    with_pos_from(n, 1)
}

/// The total native piece count of a run of flat segments.
pub open spec fn flat_count(segs: Seq<(Segment, usize)>) -> int
    decreases segs.len(),
{
    if segs.len() == 0 {
        0
    } else {
        segs[0].0.count_spec() + flat_count(segs.drop_first())
    }
}

/// How many of the flat indices `idx .. idx + n` lie below `r`.
pub open spec fn hits_below(idx: int, n: int, r: int) -> int {
    if r <= idx {
        0
    } else if r >= idx + n {
        n
    } else {
        r - idx
    }
}

/// Every segment of a flat run well-formed, with its group index below
/// `bound`.
pub open spec fn flat_wf(segs: Seq<(Segment, usize)>, bound: int) -> bool {
    forall|k: int|
        0 <= k < segs.len() ==> ((#[trigger] segs[k]).0.wf() && segs[k].1 < bound)
}

/// A native piece count is never negative.
pub proof fn lemma_count_spec_nonneg(s: Segment)
    ensures
        s.count_spec() >= 0,
{
    match s {
        Segment::Line(_) => {
        },
        Segment::BezierCurve(_) => {
        },
        Segment::Arc(a) => {
            vstd::arithmetic::div_mod::lemma_div_pos_is_pos(
                crate::fixed::abs_spec(a.end - a.start) + crate::fixed::QUARTER - 1,
                crate::fixed::QUARTER as int,
            );
        },
        Segment::OvalArc(a) => {
            vstd::arithmetic::div_mod::lemma_div_pos_is_pos(
                crate::fixed::abs_spec(a.end - a.start) + crate::fixed::QUARTER - 1,
                crate::fixed::QUARTER as int,
            );
        },
    }
}

/// The total count of a flat run is never negative.
pub proof fn lemma_flat_count_bounds(segs: Seq<(Segment, usize)>)
    ensures
        flat_count(segs) >= 0,
    decreases segs.len(),
{
    if segs.len() > 0 {
        lemma_count_spec_nonneg(segs[0].0);
        lemma_flat_count_bounds(segs.drop_first());
    }
}

/// Counting a longer flat prefix adds the count of the new segment.
pub proof fn lemma_flat_count_snoc(segs: Seq<(Segment, usize)>, s: (Segment, usize))
    ensures
        flat_count(segs.push(s)) == flat_count(segs) + s.0.count_spec(),
    decreases segs.len(),
{
    if segs.len() == 0 {
        assert(segs.push(s)[0] == s);
        assert(segs.push(s).drop_first() =~= Seq::<(Segment, usize)>::empty());
        assert(flat_count(Seq::<(Segment, usize)>::empty()) == 0);
    } else {
        assert(segs.push(s)[0] == segs[0]);
        assert(segs.push(s).drop_first() =~= segs.drop_first().push(s));
        lemma_flat_count_snoc(segs.drop_first(), s);
    }
}

/// A flat prefix never counts more than the whole run.
pub proof fn lemma_flat_count_prefix(segs: Seq<(Segment, usize)>, i: int)
    requires
        0 <= i <= segs.len(),
    ensures
        flat_count(segs.take(i)) <= flat_count(segs),
    decreases segs.len() - i,
{
    if i < segs.len() {
        lemma_flat_count_snoc(segs.take(i), segs[i]);
        assert(segs.take(i).push(segs[i]) =~= segs.take(i + 1));
        lemma_count_spec_nonneg(segs[i].0);
        lemma_flat_count_prefix(segs, i + 1);
    } else {
        assert(segs.take(i) =~= segs);
    }
}

/// Flattening one more group appends its segments, tagged with its index.
pub proof fn lemma_flat_from_snoc(gs: Seq<Group>, g: Group, g0: int)
    ensures
        flat_from(gs.push(g), g0) == flat_from(gs, g0) + g.segments@.map_values(
            |s: Segment| (s, (g0 + gs.len()) as usize),
        ),
    decreases gs.len(),
{
    if gs.len() == 0 {
        assert(gs.push(g)[0] == g);
        assert(gs.push(g).drop_first() =~= Seq::<Group>::empty());
        assert(flat_from(Seq::<Group>::empty(), g0 + 1) == Seq::<(Segment, usize)>::empty());
        assert(flat_from(gs.push(g), g0) =~= g.segments@.map_values(
            |s: Segment| (s, g0 as usize),
        ));
        assert(flat_from(gs, g0) + g.segments@.map_values(|s: Segment| (s, g0 as usize))
            =~= g.segments@.map_values(|s: Segment| (s, g0 as usize)));
    } else {
        assert(gs.push(g)[0] == gs[0]);
        assert(gs.push(g).drop_first() =~= gs.drop_first().push(g));
        lemma_flat_from_snoc(gs.drop_first(), g, g0 + 1);
        assert(flat_from(gs.push(g), g0) =~= flat_from(gs, g0) + g.segments@.map_values(
            |s: Segment| (s, (g0 + gs.len()) as usize),
        ));
    }
}

/// Normalizing one more flat segment appends its decomposition, tagged
/// with its group index.
pub proof fn lemma_norm_from_snoc(
    segs: Seq<(Segment, usize)>,
    s: (Segment, usize),
    idx: int,
    n: int,
    c: int,
    cap: int,
)
    ensures
        norm_from(segs.push(s), idx, n, c, cap) == norm_from(segs, idx, n, c, cap)
            + to_beziers_spec(
            s.0,
            splits_spec(s.0, idx + segs.len(), n, c, cap),
        ).map_values(|b: BezierCurve| (b, s.1)),
    decreases segs.len(),
{
    if segs.len() == 0 {
        assert(segs.push(s)[0] == s);
        assert(segs.push(s).drop_first() =~= Seq::<(Segment, usize)>::empty());
        assert(norm_from(Seq::<(Segment, usize)>::empty(), idx + 1, n, c, cap) == Seq::<
            (BezierCurve, usize),
        >::empty());
        let tail = to_beziers_spec(s.0, splits_spec(s.0, idx, n, c, cap)).map_values(
            |b: BezierCurve| (b, s.1),
        );
        assert(norm_from(segs.push(s), idx, n, c, cap) =~= tail);
        assert(norm_from(segs, idx, n, c, cap) + tail =~= tail);
    } else {
        assert(segs.push(s)[0] == segs[0]);
        assert(segs.push(s).drop_first() =~= segs.drop_first().push(s));
        lemma_norm_from_snoc(segs.drop_first(), s, idx + 1, n, c, cap);
        assert(norm_from(segs.push(s), idx, n, c, cap) =~= norm_from(segs, idx, n, c, cap)
            + to_beziers_spec(s.0, splits_spec(s.0, idx + segs.len(), n, c, cap)).map_values(
            |b: BezierCurve| (b, s.1),
        ));
    }
}

/// A decomposition to a nonnegative count has exactly that many pieces.
pub proof fn lemma_to_beziers_spec_len(s: Segment, n: int)
    requires
        n >= 0,
    ensures
        to_beziers_spec(s, n).len() == n,
{
    match s {
        Segment::Line(_) => {
        },
        Segment::Arc(_) => {
        },
        Segment::OvalArc(_) => {
        },
        Segment::BezierCurve(b) => {
            crate::segments::lemma_subdiv_seq_len(b, n as nat);
        },
    }
}

/// The closed form of a normalized run's length: the native counts, the
/// shared extra per segment, and one more for each flat index below the
/// remainder.
pub proof fn lemma_norm_from_len(segs: Seq<(Segment, usize)>, idx: int, n: int, c: int, cap: int)
    requires
        n >= 1,
        0 <= c <= cap,
        idx >= 0,
    ensures
        norm_from(segs, idx, n, c, cap).len() == flat_count(segs) + segs.len() * ((cap - c) / n)
            + hits_below(idx, segs.len() as int, (cap - c) % n),
    decreases segs.len(),
{
    let e = cap - c;
    let ex = e / n;
    let r = e % n;
    assert(ex >= 0) by {
        vstd::arithmetic::div_mod::lemma_div_pos_is_pos(e, n);
    }
    assert(0 <= r < n) by {
        vstd::arithmetic::div_mod::lemma_mod_bound(e, n);
    }
    if segs.len() == 0 {
    } else {
        let s = segs[0];
        let m = segs.len() as int;
        lemma_count_spec_nonneg(s.0);
        let sp = splits_spec(s.0, idx, n, c, cap);
        lemma_to_beziers_spec_len(s.0, sp);
        lemma_norm_from_len(segs.drop_first(), idx + 1, n, c, cap);
        assert(m * ex == (m - 1) * ex + ex) by {
            vstd::arithmetic::mul::lemma_mul_is_distributive_sub_other_way(ex, m, m - 1);
            vstd::arithmetic::mul::lemma_mul_basics(ex);
        }
        assert(hits_below(idx, m, r) == (if idx < r {
            1int
        } else {
            0int
        }) + hits_below(idx + 1, m - 1, r));
    }
}

/// A normalized prefix of a side whose total native count is `c` holds at
/// most `cap` curves: the extras of a prefix never exceed the whole
/// side's `cap - c` extras.
pub proof fn lemma_norm_prefix_len_bound(segs: Seq<(Segment, usize)>, i: int, c: int, cap: int)
    requires
        0 <= c <= cap,
        0 <= i <= segs.len(),
        segs.len() >= 1,
        flat_count(segs) == c,
    ensures
        norm_from(segs.take(i), 0, segs.len() as int, c, cap).len() <= cap,
{
    let n = segs.len() as int;
    let e = cap - c;
    let ex = e / n;
    let r = e % n;
    lemma_norm_from_len(segs.take(i), 0, n, c, cap);
    lemma_flat_count_prefix(segs, i);
    assert(ex >= 0) by {
        vstd::arithmetic::div_mod::lemma_div_pos_is_pos(e, n);
    }
    assert(0 <= r < n) by {
        vstd::arithmetic::div_mod::lemma_mod_bound(e, n);
    }
    assert(e == n * ex + r) by {
        vstd::arithmetic::div_mod::lemma_fundamental_div_mod(e, n);
    }
    assert(i * ex <= n * ex) by {
        vstd::arithmetic::mul::lemma_mul_inequality(i, n, ex);
    }
    assert(hits_below(0, i, r) <= r);
}

/// All segments of a graphic in one vector, each with its group index.
fn flatten_graphic(g: &Graphic) -> (r: Vec<(Segment, usize)>)
    requires
        g.wf(),
    ensures
        r@ == flat_segments(*g),
        flat_wf(r@, g.groups@.len() as int),
{
    let mut r: Vec<(Segment, usize)> = Vec::new();
    let mut gid: usize = 0;
    proof {
        assert(g.groups@.take(0) =~= Seq::<Group>::empty());
        assert(r@ =~= flat_from(g.groups@.take(0), 0));
    }
    while gid < g.groups.len()
        invariant
            0 <= gid <= g.groups@.len(),
            g.wf(),
            r@ == flat_from(g.groups@.take(gid as int), 0),
            flat_wf(r@, g.groups@.len() as int),
        decreases g.groups@.len() - gid,
    {
        let group = &g.groups[gid];
        let ghost base = r@;
        let mut j: usize = 0;
        proof {
            assert(group.segments@.take(0).map_values(|s: Segment| (s, gid)) =~= Seq::<
                (Segment, usize),
            >::empty());
            assert(r@ =~= base + group.segments@.take(0).map_values(|s: Segment| (s, gid)));
        }
        while j < group.segments.len()
            invariant
                0 <= j <= group.segments@.len(),
                g.wf(),
                gid < g.groups@.len(),
                group == &g.groups@[gid as int],
                r@ == base + group.segments@.take(j as int).map_values(|s: Segment| (s, gid)),
                flat_wf(base, g.groups@.len() as int),
                flat_wf(r@, g.groups@.len() as int),
            decreases group.segments@.len() - j,
        {
            r.push((group.segments[j], gid));
            proof {
                assert(group.segments@.take(j as int + 1).map_values(|s: Segment| (s, gid))
                    =~= group.segments@.take(j as int).map_values(|s: Segment| (s, gid)).push(
                    (group.segments@[j as int], gid),
                ));
                assert(r@ =~= base + group.segments@.take(j as int + 1).map_values(
                    |s: Segment| (s, gid),
                ));
            }
            j = j + 1;
        }
        proof {
            assert(group.segments@.take(group.segments@.len() as int) =~= group.segments@);
            lemma_flat_from_snoc(g.groups@.take(gid as int), g.groups@[gid as int], 0);
            assert(g.groups@.take(gid as int).push(g.groups@[gid as int]) =~= g.groups@.take(
                gid as int + 1,
            ));
            assert(g.groups@.take(gid as int).len() == gid as int);
            assert(r@ =~= flat_from(g.groups@.take(gid as int + 1), 0));
        }
        gid = gid + 1;
    }
    proof {
        assert(g.groups@.take(g.groups@.len() as int) =~= g.groups@);
    }
    r
}

/// Normalize one side of a morph: decompose every segment of the graphic
/// (native count `c`) so the side holds exactly `cap` curves, each curve
/// tagged with its owning group and its stable position id in draw order.
fn normalize_side(g: &Graphic, c: usize, cap: usize) -> (r: Vec<(BezierCurve, GroupRaw)>)
    requires
        g.wf(),
        c == g.count_spec(),
        1 <= c <= cap,
        cap <= 500_000,
    ensures
        r@ == with_pos(side_norm(*g, c as int, cap as int)),
        r@.len() <= cap,
        forall|k: int|
            0 <= k < r@.len() ==> (curve_bounded((#[trigger] r@[k]).0, CURVE_LIMIT as int)
                && r@[k].1.group_id < g.groups@.len() && r@[k].1.pos == k + 1),
{
    let flat = flatten_graphic(g);
    proof {
        lemma_flat_count_graphic(*g);
        lemma_flat_count_bounds(flat@);
        assert(flat@.len() >= 1) by {
            if flat@.len() == 0 {
                assert(flat_count(flat@) == 0);
            }
        }
    }
    let n: usize = flat.len();
    let e: usize = cap - c;
    let ex: usize = e / n;
    let rem: usize = e % n;
    proof {
        assert(ex <= e) by {
            vstd::arithmetic::div_mod::lemma_div_nonincreasing(e as int, n as int);
            vstd::arithmetic::div_mod::lemma_div_pos_is_pos(e as int, n as int);
        }
    }
    let mut r: Vec<(BezierCurve, GroupRaw)> = Vec::new();
    let mut i: usize = 0;
    proof {
        assert(flat@.take(0) =~= Seq::<(Segment, usize)>::empty());
        assert(r@ =~= with_pos(norm_from(flat@.take(0), 0, n as int, c as int, cap as int)));
    }
    while i < flat.len()
        invariant
            0 <= i <= flat@.len(),
            g.wf(),
            flat@ == flat_segments(*g),
            flat_wf(flat@, g.groups@.len() as int),
            flat_count(flat@) == c as int,
            1 <= c <= cap <= 500_000,
            n == flat@.len(),
            n >= 1,
            e == cap - c,
            ex == e as int / n as int,
            ex <= e,
            rem == e as int % n as int,
            r@ == with_pos(norm_from(flat@.take(i as int), 0, n as int, c as int, cap as int)),
            r@.len() <= cap,
            forall|k: int|
                0 <= k < r@.len() ==> (curve_bounded((#[trigger] r@[k]).0, CURVE_LIMIT as int)
                    && r@[k].1.group_id < g.groups@.len() && r@[k].1.pos == k + 1),
        decreases flat@.len() - i,
    {
        let (seg, gid) = flat[i];
        let extra: usize = if i < rem {
            1
        } else {
            0
        };
        proof {
            assert(flat@[i as int].0.wf());
        }
        let splits: usize = seg.count_beziers() + ex + extra;
        let ghost norm_prefix = norm_from(flat@.take(i as int), 0, n as int, c as int, cap as int);
        proof {
            assert(splits as int == splits_spec(seg, i as int, n as int, c as int, cap as int));
            lemma_norm_from_snoc(
                flat@.take(i as int),
                flat@[i as int],
                0,
                n as int,
                c as int,
                cap as int,
            );
            assert(flat@.take(i as int).push(flat@[i as int]) =~= flat@.take(i as int + 1));
            lemma_norm_prefix_len_bound(flat@, i as int + 1, c as int, cap as int);
        }
        if splits > 0 {
            let pieces = seg.to_beziers(splits);
            let ghost tag = |b: BezierCurve| (b, gid);
            let mut j: usize = 0;
            proof {
                assert(pieces@.take(0).map_values(tag) =~= Seq::<(BezierCurve, usize)>::empty());
                assert(r@ =~= with_pos(norm_prefix + pieces@.take(0).map_values(tag)));
            }
            while j < pieces.len()
                invariant
                    0 <= j <= pieces@.len(),
                    gid < g.groups@.len(),
                    pieces@.len() == splits,
                    forall|k: int|
                        0 <= k < pieces@.len() ==> curve_bounded(
                            #[trigger] pieces@[k],
                            CURVE_LIMIT as int,
                        ),
                    tag == (|b: BezierCurve| (b, gid)),
                    r@ == with_pos(norm_prefix + pieces@.take(j as int).map_values(tag)),
                    norm_prefix.len() + pieces@.len() <= cap,
                    1 <= c <= cap <= 500_000,
                    forall|k: int|
                        0 <= k < r@.len() ==> (curve_bounded(
                            (#[trigger] r@[k]).0,
                            CURVE_LIMIT as int,
                        ) && r@[k].1.group_id < g.groups@.len() && r@[k].1.pos == k + 1),
                decreases pieces@.len() - j,
            {
                proof {
                    assert(r@.len() == norm_prefix.len() + j);
                    assert(r@.len() <= 1_000_000);
                }
                let pos: usize = r.len() + 1;
                r.push((pieces[j], GroupRaw { group_id: gid, pos }));
                proof {
                    assert(pieces@.take(j as int + 1).map_values(tag) =~= pieces@.take(
                        j as int,
                    ).map_values(tag).push((pieces@[j as int], gid)));
                    assert(r@ =~= with_pos(norm_prefix + pieces@.take(j as int + 1).map_values(
                        tag,
                    )));
                }
                j = j + 1;
            }
            proof {
                assert(pieces@.take(pieces@.len() as int) =~= pieces@);
                assert(pieces@ =~= to_beziers_spec(seg, splits as int));
                assert(norm_prefix + pieces@.map_values(tag) =~= norm_from(
                    flat@.take(i as int + 1),
                    0,
                    n as int,
                    c as int,
                    cap as int,
                ));
            }
        } else {
            proof {
                lemma_to_beziers_spec_len(seg, 0);
                assert(to_beziers_spec(seg, 0).map_values(
                    |b: BezierCurve| (b, gid),
                ) =~= Seq::<(BezierCurve, usize)>::empty());
                assert(norm_prefix + to_beziers_spec(seg, 0).map_values(|b: BezierCurve| (b, gid))
                    =~= norm_prefix);
                assert(r@ =~= with_pos(norm_from(
                    flat@.take(i as int + 1),
                    0,
                    n as int,
                    c as int,
                    cap as int,
                )));
            }
        }
        i = i + 1;
    }
    proof {
        assert(flat@.take(flat@.len() as int) =~= flat@);
    }
    r
}

/// The flat segments of a graphic count exactly the graphic's native
/// total.
pub proof fn lemma_flat_count_graphic(g: Graphic)
    ensures
        flat_count(flat_segments(g)) == groups_count(g.groups@),
{
    lemma_flat_count_from(g.groups@, 0);
}

/// The flat segments of a run of groups count the run's native total.
pub proof fn lemma_flat_count_from(gs: Seq<Group>, g0: int)
    ensures
        flat_count(flat_from(gs, g0)) == groups_count(gs),
    decreases gs.len(),
{
    if gs.len() > 0 {
        lemma_flat_count_concat(
            gs[0].segments@.map_values(|s: Segment| (s, g0 as usize)),
            flat_from(gs.drop_first(), g0 + 1),
        );
        lemma_flat_count_map(gs[0].segments@, g0);
        lemma_flat_count_from(gs.drop_first(), g0 + 1);
    }
}

/// Counting a concatenation of flat runs adds the two counts.
pub proof fn lemma_flat_count_concat(a: Seq<(Segment, usize)>, b: Seq<(Segment, usize)>)
    ensures
        flat_count(a + b) == flat_count(a) + flat_count(b),
    decreases a.len(),
{
    if a.len() == 0 {
        assert(a + b =~= b);
    } else {
        assert((a + b)[0] == a[0]);
        assert((a + b).drop_first() =~= a.drop_first() + b);
        lemma_flat_count_concat(a.drop_first(), b);
    }
}

/// Tagging segments with a group index does not change their count.
pub proof fn lemma_flat_count_map(ss: Seq<Segment>, g0: int)
    ensures
        flat_count(ss.map_values(|s: Segment| (s, g0 as usize))) == seq_count(ss),
    decreases ss.len(),
{
    let m = ss.map_values(|s: Segment| (s, g0 as usize));
    if ss.len() > 0 {
        assert(m[0] == (ss[0], g0 as usize));
        assert(m.drop_first() =~= ss.drop_first().map_values(|s: Segment| (s, g0 as usize)));
        lemma_flat_count_map(ss.drop_first(), g0);
    } else {
        assert(m =~= Seq::<(Segment, usize)>::empty());
    }
}

/// Append the curves and the pairing records of a pooled side to the two
/// parallel pool vectors.
fn unzip_into(
    pool: &Vec<(BezierCurve, GroupRaw)>,
    bez: &mut Vec<BezierCurve>,
    raw: &mut Vec<GroupRaw>,
)
    ensures
        final(bez)@ == old(bez)@ + Seq::new(pool@.len(), |j: int| pool@[j].0),
        final(raw)@ == old(raw)@ + Seq::new(pool@.len(), |j: int| pool@[j].1),
{
    let mut k: usize = 0;
    proof {
        assert(bez@ =~= old(bez)@ + Seq::new(0, |j: int| pool@[j].0));
        assert(raw@ =~= old(raw)@ + Seq::new(0, |j: int| pool@[j].1));
    }
    while k < pool.len()
        invariant
            0 <= k <= pool@.len(),
            bez@ == old(bez)@ + Seq::new(k as nat, |j: int| pool@[j].0),
            raw@ == old(raw)@ + Seq::new(k as nat, |j: int| pool@[j].1),
        decreases pool@.len() - k,
    {
        let item = pool[k];
        bez.push(item.0);
        raw.push(item.1);
        proof {
            assert(Seq::new((k + 1) as nat, |j: int| pool@[j].0) =~= Seq::new(
                k as nat,
                |j: int| pool@[j].0,
            ).push(pool@[k as int].0));
            assert(Seq::new((k + 1) as nat, |j: int| pool@[j].1) =~= Seq::new(
                k as nat,
                |j: int| pool@[j].1,
            ).push(pool@[k as int].1));
            assert(bez@ =~= old(bez)@ + Seq::new((k + 1) as nat, |j: int| pool@[j].0));
            assert(raw@ =~= old(raw)@ + Seq::new((k + 1) as nat, |j: int| pool@[j].1));
        }
        k = k + 1;
    }
    proof {
        assert(bez@ =~= old(bez)@ + Seq::new(pool@.len(), |j: int| pool@[j].0));
        assert(raw@ =~= old(raw)@ + Seq::new(pool@.len(), |j: int| pool@[j].1));
    }
}

/// Relies on rand::random_range over `0..n`: a uniformly random index
/// strictly below `n`, drawn from the thread-local generator. The call
/// panics only on an empty range, which the precondition excludes.
#[verifier::external_body]
fn rand_index(n: usize) -> (r: usize)
    requires
        n >= 1,
    ensures
        r < n,
{
    rand::random_range(0..n)
}

/// If every element of `a` satisfies `p`, so does every element of any
/// sequence with the same multiset.
proof fn lemma_multiset_all<T>(a: Seq<T>, b: Seq<T>, p: spec_fn(T) -> bool)
    requires
        a.to_multiset() == b.to_multiset(),
        forall|k: int| 0 <= k < a.len() ==> p(#[trigger] a[k]),
    ensures
        forall|k: int| 0 <= k < b.len() ==> p(#[trigger] b[k]),
{
    broadcast use vstd::seq_lib::group_to_multiset_ensures;

    assert forall|k: int| 0 <= k < b.len() implies p(#[trigger] b[k]) by {
        assert(b.contains(b[k]));
        assert(b.to_multiset().count(b[k]) > 0);
        assert(a.contains(b[k]));
        let i = choose|i: int| 0 <= i < a.len() && a[i] == b[k];
        assert(p(a[i]));
    }
}

/// Shuffle a pooled side in place. Which order comes out is up to the
/// random source; the pool always keeps exactly its elements.
fn shuffle_pool(v: &mut Vec<(BezierCurve, GroupRaw)>)
    ensures
        final(v)@.len() == old(v)@.len(),
        final(v)@.to_multiset() == old(v)@.to_multiset(),
{
    broadcast use vstd::seq_lib::group_to_multiset_ensures;

    let n = v.len();
    if n <= 1 {
        return ;
    }
    let mut i: usize = n - 1;
    while i >= 1
        invariant
            i < n,
            v@.len() == n,
            v@.to_multiset() == old(v)@.to_multiset(),
        decreases i,
    {
        broadcast use vstd::seq_lib::group_to_multiset_ensures;

        let j = rand_index(i + 1);
        let a = v[i];
        let b = v[j];
        let ghost before = v@;
        v.set(i, b);
        v.set(j, a);
        proof {
            if i == j {
                assert(v@ =~= before);
            } else {
                assert(before.update(i as int, b).to_multiset() =~= before.to_multiset().remove(
                    a,
                ).insert(b));
                assert(before.update(i as int, b)[j as int] == b);
                assert(v@.to_multiset() =~= before.update(i as int, b).to_multiset().remove(
                    b,
                ).insert(a));
                assert(before.contains(a));
                assert(before.to_multiset().count(a) > 0);
                assert(v@.to_multiset() =~= before.to_multiset());
            }
        }
        i = i - 1;
    }
}

/// A morph between two illustrations: the two graphics and the combined
/// pool of their normalized curves, the start side's first.
#[derive(Clone)]
pub struct MorphGraphic {
    /// The illustration shown at blend parameter zero.
    pub start: Graphic,
    /// The illustration shown at blend parameter one.
    pub target: Graphic,
    /// The pooled normalized curves: the start side's, shuffled, then the
    /// target side's, shuffled.
    pub beziers: Vec<BezierCurve>,
}

/// The pooled curves and their pairing records side by side.
pub open spec fn pool_zip(mg: MorphGraphic, raws: GroupsRaw) -> Seq<(BezierCurve, GroupRaw)> {
    Seq::new(mg.beziers@.len(), |k: int| (mg.beziers@[k], raws.0@[k]))
}

/// The shared curve total of a morph: the larger native count.
pub open spec fn morph_cap(mg: MorphGraphic) -> int {
    if mg.start.count_spec() >= mg.target.count_spec() {
        mg.start.count_spec()
    } else {
        mg.target.count_spec()
    }
}

/// The normalized curves of the start side of a morph, with position ids.
pub open spec fn start_norm(mg: MorphGraphic) -> Seq<(BezierCurve, GroupRaw)> {
    with_pos(side_norm(mg.start, mg.start.count_spec(), morph_cap(mg)))
}

/// The normalized curves of the target side of a morph, with position ids.
pub open spec fn target_norm(mg: MorphGraphic) -> Seq<(BezierCurve, GroupRaw)> {
    with_pos(side_norm(mg.target, mg.target.count_spec(), morph_cap(mg)))
}

/// Whether a morph has a live pairing: both sides have curves. Count
/// balancing then gives both sides exactly the shared total of curves.
pub open spec fn morph_active(mg: MorphGraphic) -> bool {
    &&& mg.start.count_spec() >= 1
    &&& mg.target.count_spec() >= 1
}

/// Structural well-formedness of a pooled morph: the two graphics are
/// well formed, the pairing records match the pool one to one, the pool
/// splits evenly in a start and a target half, and every pooled curve is
/// bounded with its group index in range on its own side.
pub open spec fn morph_wf(mg: MorphGraphic, raws: GroupsRaw) -> bool {
    let n = mg.beziers@.len() as int;
    let mid = n / 2;
    &&& mg.start.wf()
    &&& mg.target.wf()
    &&& raws.0@.len() == n
    &&& n % 2 == 0
    &&& forall|k: int|
        0 <= k < mid ==> (curve_bounded(#[trigger] mg.beziers@[k], CURVE_LIMIT as int)
            && raws.0@[k].group_id < mg.start.groups@.len())
    &&& forall|k: int|
        mid <= k < n ==> (curve_bounded(#[trigger] mg.beziers@[k], CURVE_LIMIT as int)
            && raws.0@[k].group_id < mg.target.groups@.len())
}

/// What the pool of a fresh morph holds: with a live pairing, each half is
/// exactly one side's normalized curves in some order; otherwise the pool
/// is empty and drawing falls back to one side alone.
pub open spec fn morph_paired(mg: MorphGraphic, raws: GroupsRaw) -> bool {
    let n = mg.beziers@.len() as int;
    if morph_active(mg) {
        let ls = start_norm(mg).len() as int;
        &&& n == 2 * ls
        &&& pool_zip(mg, raws).take(ls).to_multiset() == start_norm(mg).to_multiset()
        &&& pool_zip(mg, raws).skip(ls).to_multiset() == target_norm(mg).to_multiset()
    } else {
        n == 0
    }
}

impl MorphGraphic {
    /// Build a morph between two illustrations: normalize both sides to
    /// the larger native count — count balancing gives each side exactly
    /// that many curves — give every curve its group and position id, and
    /// shuffle each side's pool once. The pairing is fixed for the life
    /// of the morph. If either side has no curves at all, the pool stays
    /// empty and drawing falls back to the other side alone.
    pub fn new(start: Graphic, target: Graphic) -> (r: (MorphGraphic, GroupsRaw))
        requires
            start.wf(),
            target.wf(),
        ensures
            r.0.start == start,
            r.0.target == target,
            morph_wf(r.0, r.1),
            morph_paired(r.0, r.1),
    {
        let cs = start.count_beziers();
        let ct = target.count_beziers();
        let cap = if cs >= ct {
            cs
        } else {
            ct
        };
        let mut beziers: Vec<BezierCurve> = Vec::new();
        let mut raws: Vec<GroupRaw> = Vec::new();
        if cs >= 1 && ct >= 1 {
            let mut pool_s = normalize_side(&start, cs, cap);
            let mut pool_t = normalize_side(&target, ct, cap);
            proof {
                lemma_balanced_total(start, cap as int);
                lemma_balanced_total(target, cap as int);
                assert(pool_s@.len() == cap);
                assert(pool_t@.len() == cap);
            }
            {
                let ghost norm_s = pool_s@;
                let ghost norm_t = pool_t@;
                shuffle_pool(&mut pool_s);
                shuffle_pool(&mut pool_t);
                proof {
                    lemma_multiset_all(
                        norm_s,
                        pool_s@,
                        |x: (BezierCurve, GroupRaw)|
                            curve_bounded(x.0, CURVE_LIMIT as int) && x.1.group_id
                                < start.groups@.len(),
                    );
                    lemma_multiset_all(
                        norm_t,
                        pool_t@,
                        |x: (BezierCurve, GroupRaw)|
                            curve_bounded(x.0, CURVE_LIMIT as int) && x.1.group_id
                                < target.groups@.len(),
                    );
                }
                let ls = pool_s.len();
                unzip_into(&pool_s, &mut beziers, &mut raws);
                unzip_into(&pool_t, &mut beziers, &mut raws);
                let mg = MorphGraphic { start, target, beziers };
                let gr = GroupsRaw(raws);
                proof {
                    let lsi = ls as int;
                    let n = mg.beziers@.len() as int;
                    assert(n == 2 * lsi);
                    assert(n / 2 == lsi);
                    assert(n % 2 == 0);
                    assert(pool_zip(mg, gr).take(lsi) =~= pool_s@);
                    assert(pool_zip(mg, gr).skip(lsi) =~= pool_t@);
                    assert(start_norm(mg) == norm_s);
                    assert(target_norm(mg) == norm_t);
                    assert(morph_active(mg));
                }
                return (mg, gr);
            }
        }
        let mg = MorphGraphic { start, target, beziers };
        let gr = GroupsRaw(raws);
        proof {
            assert(mg.beziers@.len() == 0);
            assert(gr.0@.len() == 0);
            assert(!morph_active(mg));
        }
        (mg, gr)
    }
}

/// One paired curve of a morph: the curve on the start side, its matched
/// curve on the target side, and the stroke width of the matched curve's
/// owning group (matched curves may come from groups of another width).
#[derive(Clone, Copy, PartialEq, Eq, Structural, Debug)]
pub struct MorphSegment {
    /// The curve on the start side of the pairing.
    pub start: BezierCurve,
    /// The matched curve on the target side of the pairing.
    pub target: BezierCurve,
    /// Stroke width of the matched curve's owning group.
    pub group_width: i64,
}

impl MorphSegment {
    /// A paired curve from its two curves and the matched group's width.
    pub fn new(start: BezierCurve, target: BezierCurve, group_width: i64) -> (r: MorphSegment)
        ensures
            r == (MorphSegment { start, target, group_width }),
    {
        MorphSegment { start, target, group_width }
    }
}

/// One group of a linked morph: its paired curves in draw order, the
/// group's own style, width and closed flag, and which side of the
/// pairing owns it — the identity overlay re-draws the group's own
/// curves, which are the start components of its pairs on the start side
/// and the target components on the target side.
#[derive(Clone, PartialEq, Debug)]
pub struct BezierGroup {
    /// The paired curves of the group, in the group's draw order.
    pub segments: Vec<MorphSegment>,
    /// The group's own paint style.
    pub style: Style,
    /// The group's own stroke width.
    pub line_width: i64,
    /// Whether the group's sub-path is closed before painting.
    pub close: bool,
    /// Whether the group belongs to the start side of the pairing.
    pub start_side: bool,
}

/// The group's own curves in draw order: the side of each pair that the
/// group itself contributed.
pub open spec fn own_curves(bg: BezierGroup) -> Seq<BezierCurve> {
    bg.segments@.map_values(
        |ms: MorphSegment|
            if bg.start_side {
                ms.start
            } else {
                ms.target
            },
    )
}

/// A linked morph: the groups of both sides with their paired curves
/// restored to draw order.
pub struct GroupsLinked {
    /// The start side's groups.
    pub start: Vec<BezierGroup>,
    /// The target side's groups.
    pub target: Vec<BezierGroup>,
}

/// The paired slots of the start side: slot `k` joins the `k`-th pooled
/// start curve with the `k`-th pooled target curve, tagged with the start
/// curve's pairing record.
pub open spec fn slots_start(mg: MorphGraphic, raws: GroupsRaw) -> Seq<(MorphSegment, GroupRaw)> {
    let n = mg.beziers@.len() as int;
    let mid = n / 2;
    Seq::new(
        mid as nat,
        |k: int|
            (
                MorphSegment {
                    start: mg.beziers@[k],
                    target: mg.beziers@[mid + k],
                    group_width: mg.target.groups@[raws.0@[mid + k].group_id as int].line_width,
                },
                raws.0@[k],
            ),
    )
}

/// The paired slots of the target side: the same curve pairs, tagged with
/// the target curve's pairing record and carrying the start group's width.
pub open spec fn slots_target(mg: MorphGraphic, raws: GroupsRaw) -> Seq<(MorphSegment, GroupRaw)> {
    let n = mg.beziers@.len() as int;
    let mid = n / 2;
    Seq::new(
        mid as nat,
        |k: int|
            (
                MorphSegment {
                    start: mg.beziers@[k],
                    target: mg.beziers@[mid + k],
                    group_width: mg.start.groups@[raws.0@[k].group_id as int].line_width,
                },
                raws.0@[mid + k],
            ),
    )
}

/// The slots whose pairing record names group `g`, in slot order, each
/// reduced to its curve pair and position id.
pub open spec fn bucket_from(slots: Seq<(MorphSegment, GroupRaw)>, g: int) -> Seq<
    (MorphSegment, usize),
>
    decreases slots.len(),
{
    if slots.len() == 0 {
        Seq::<(MorphSegment, usize)>::empty()
    } else {
        (if slots[0].1.group_id == g {
            seq![(slots[0].0, slots[0].1.pos)]
        } else {
            Seq::<(MorphSegment, usize)>::empty()
        }) + bucket_from(slots.drop_first(), g)
    }
}

/// Taking one more slot extends the bucket exactly when the slot names the
/// group.
pub proof fn lemma_bucket_from_snoc(slots: Seq<(MorphSegment, GroupRaw)>, s: (MorphSegment, GroupRaw), g: int)
    ensures
        bucket_from(slots.push(s), g) == bucket_from(slots, g) + (if s.1.group_id == g {
            seq![(s.0, s.1.pos)]
        } else {
            Seq::<(MorphSegment, usize)>::empty()
        }),
    decreases slots.len(),
{
    let tail = if s.1.group_id == g {
        seq![(s.0, s.1.pos)]
    } else {
        Seq::<(MorphSegment, usize)>::empty()
    };
    if slots.len() == 0 {
        assert(slots.push(s)[0] == s);
        assert(slots.push(s).drop_first() =~= Seq::<(MorphSegment, GroupRaw)>::empty());
        assert(bucket_from(Seq::<(MorphSegment, GroupRaw)>::empty(), g) == Seq::<
            (MorphSegment, usize),
        >::empty());
        assert(bucket_from(slots.push(s), g) =~= tail);
        assert(bucket_from(slots, g) + tail =~= tail);
    } else {
        assert(slots.push(s)[0] == slots[0]);
        assert(slots.push(s).drop_first() =~= slots.drop_first().push(s));
        lemma_bucket_from_snoc(slots.drop_first(), s, g);
        assert(bucket_from(slots.push(s), g) =~= bucket_from(slots, g) + tail);
    }
}

/// Insertion of one element into a run already ordered by position id:
/// it goes in front of the first element with a larger id.
pub open spec fn insert_by_pos<T>(acc: Seq<(T, usize)>, x: (T, usize)) -> Seq<(T, usize)>
    decreases acc.len(),
{
    if acc.len() == 0 {
        seq![x]
    } else if x.1 < acc[0].1 {
        seq![x] + acc
    } else {
        seq![acc[0]] + insert_by_pos(acc.drop_first(), x)
    }
}

/// Stable insertion sort by position id.
pub open spec fn sort_by_pos<T>(s: Seq<(T, usize)>) -> Seq<(T, usize)>
    decreases s.len(),
{
    if s.len() == 0 {
        Seq::<(T, usize)>::empty()
    } else {
        insert_by_pos(sort_by_pos(s.drop_last()), s.last())
    }
}

/// Inserting at the scanned index: if everything before `j` has an id at
/// most `x`'s and `j` is the end or has a larger id, the insertion puts
/// `x` exactly at index `j`.
proof fn lemma_insert_by_pos_at(s: Seq<(MorphSegment, usize)>, x: (MorphSegment, usize), j: int)
    requires
        0 <= j <= s.len(),
        forall|m: int| 0 <= m < j ==> (#[trigger] s[m]).1 <= x.1,
        j == s.len() || x.1 < s[j].1,
    ensures
        insert_by_pos(s, x) == s.take(j) + seq![x] + s.skip(j),
    decreases j,
{
    if j == 0 {
        if s.len() == 0 {
            assert(insert_by_pos(s, x) =~= s.take(0) + seq![x] + s.skip(0));
        } else {
            assert(x.1 < s[0].1);
            assert(insert_by_pos(s, x) =~= s.take(0) + seq![x] + s.skip(0));
        }
    } else {
        assert(s[0].1 <= x.1);
        assert(!(x.1 < s[0].1));
        lemma_insert_by_pos_at(s.drop_first(), x, j - 1);
        assert(s.drop_first().take(j - 1) =~= s.take(j).drop_first());
        assert(s.drop_first().skip(j - 1) =~= s.skip(j));
        assert(insert_by_pos(s, x) =~= s.take(j) + seq![x] + s.skip(j));
    }
}

/// Sort a bucket of paired curves by position id.
fn sort_bucket(v: &Vec<(MorphSegment, usize)>) -> (r: Vec<(MorphSegment, usize)>)
    ensures
        r@ == sort_by_pos(v@),
{
    let mut r: Vec<(MorphSegment, usize)> = Vec::new();
    let mut i: usize = 0;
    proof {
        assert(v@.take(0) =~= Seq::<(MorphSegment, usize)>::empty());
    }
    while i < v.len()
        invariant
            0 <= i <= v@.len(),
            r@ == sort_by_pos(v@.take(i as int)),
        decreases v@.len() - i,
    {
        let x = v[i];
        let mut j: usize = 0;
        while j < r.len() && r[j].1 <= x.1
            invariant
                0 <= j <= r@.len(),
                forall|m: int| 0 <= m < j ==> (#[trigger] r@[m]).1 <= x.1,
            decreases r@.len() - j,
        {
            j = j + 1;
        }
        let ghost before = r@;
        r.insert(j, x);
        proof {
            lemma_insert_by_pos_at(before, x, j as int);
            assert(r@ =~= before.take(j as int) + seq![x] + before.skip(j as int));
            assert(v@.take(i as int + 1).drop_last() =~= v@.take(i as int));
            assert(v@.take(i as int + 1).last() == v@[i as int]);
            assert(r@ =~= sort_by_pos(v@.take(i as int + 1)));
        }
        i = i + 1;
    }
    proof {
        assert(v@.take(v@.len() as int) =~= v@);
    }
    r
}

/// What one linked group of a side must be: the side's own group fields,
/// and the paired curves of the group's slots sorted back to draw order by
/// position id.
pub open spec fn linked_group_ok(
    slots: Seq<(MorphSegment, GroupRaw)>,
    groups: Seq<Group>,
    bg: BezierGroup,
    g: int,
) -> bool {
    &&& bg.style == groups[g].style
    &&& bg.line_width == groups[g].line_width
    &&& bg.close == groups[g].close
    &&& bg.segments@ == sort_by_pos(bucket_from(slots, g)).map_values(
        |x: (MorphSegment, usize)| x.0,
    )
}

impl BezierGroup {
    /// What drawing a linked group needs: a well-formed style, a width in
    /// range, and every paired curve bounded with its matched width in
    /// range.
    pub open spec fn wf(self) -> bool {
        &&& self.style.wf()
        &&& 0 < self.line_width <= crate::fixed::COORD_LIMIT
        &&& forall|i: int|
            0 <= i < self.segments@.len() ==> {
                let ms = #[trigger] self.segments@[i];
                &&& curve_bounded(ms.start, CURVE_LIMIT as int)
                &&& curve_bounded(ms.target, CURVE_LIMIT as int)
                &&& 0 < ms.group_width <= crate::fixed::COORD_LIMIT
            }
    }
}

/// Well-formedness a linked morph needs for drawing: every group's style,
/// width and curves in range.
pub open spec fn linked_side_wf(gs: Seq<BezierGroup>) -> bool {
    forall|g: int| 0 <= g < gs.len() ==> (#[trigger] gs[g]).wf()
}

/// Well-formedness of both sides of a linked morph.
pub open spec fn linked_wf(l: GroupsLinked) -> bool {
    linked_side_wf(l.start@) && linked_side_wf(l.target@)
}

impl GroupsRaw {
    /// Link a pooled morph: join the two pools slot by slot, gather each
    /// group's paired curves, and sort them back to the group's draw order
    /// by position id.
    pub fn link(&self, graphic: &MorphGraphic) -> (r: GroupsLinked)
        requires
            morph_wf(*graphic, *self),
        ensures
            r.start@.len() == graphic.start.groups@.len(),
            r.target@.len() == graphic.target.groups@.len(),
            forall|g: int|
                0 <= g < r.start@.len() ==> linked_group_ok(
                    slots_start(*graphic, *self),
                    graphic.start.groups@,
                    #[trigger] r.start@[g],
                    g,
                ),
            forall|g: int|
                0 <= g < r.target@.len() ==> linked_group_ok(
                    slots_target(*graphic, *self),
                    graphic.target.groups@,
                    #[trigger] r.target@[g],
                    g,
                ),
            forall|g: int| 0 <= g < r.start@.len() ==> (#[trigger] r.start@[g]).start_side,
            forall|g: int| 0 <= g < r.target@.len() ==> !(#[trigger] r.target@[g]).start_side,
            linked_wf(r),
    {
        let n = graphic.beziers.len();
        let mid = n / 2;
        let start_side = link_side(self, graphic, true);
        let target_side = link_side(self, graphic, false);
        GroupsLinked { start: start_side, target: target_side }
    }
}

/// Link one side of a morph: one [`BezierGroup`] per group of that side's
/// graphic.
fn link_side(raws: &GroupsRaw, graphic: &MorphGraphic, start_side: bool) -> (r: Vec<BezierGroup>)
    requires
        morph_wf(*graphic, *raws),
    ensures
        ({
            let own = if start_side {
                graphic.start.groups@
            } else {
                graphic.target.groups@
            };
            let slots = if start_side {
                slots_start(*graphic, *raws)
            } else {
                slots_target(*graphic, *raws)
            };
            &&& r@.len() == own.len()
            &&& forall|g: int|
                0 <= g < r@.len() ==> linked_group_ok(slots, own, #[trigger] r@[g], g)
            &&& forall|g: int| 0 <= g < r@.len() ==> (#[trigger] r@[g]).start_side == start_side
            &&& linked_side_wf(r@)
        }),
{
    let ghost own = if start_side {
        graphic.start.groups@
    } else {
        graphic.target.groups@
    };
    let ghost slots = if start_side {
        slots_start(*graphic, *raws)
    } else {
        slots_target(*graphic, *raws)
    };
    let n = graphic.beziers.len();
    let mid = n / 2;
    let own_len = if start_side {
        graphic.start.groups.len()
    } else {
        graphic.target.groups.len()
    };
    let mut r: Vec<BezierGroup> = Vec::new();
    let mut g: usize = 0;
    while g < own_len
        invariant
            0 <= g <= own_len,
            morph_wf(*graphic, *raws),
            n == graphic.beziers@.len(),
            mid == n as int / 2,
            own == (if start_side {
                graphic.start.groups@
            } else {
                graphic.target.groups@
            }),
            slots == (if start_side {
                slots_start(*graphic, *raws)
            } else {
                slots_target(*graphic, *raws)
            }),
            own_len == own.len(),
            r@.len() == g,
            forall|j: int| 0 <= j < g ==> linked_group_ok(slots, own, #[trigger] r@[j], j),
            forall|j: int| 0 <= j < g ==> (#[trigger] r@[j]).start_side == start_side,
            linked_side_wf(r@),
        decreases own_len - g,
    {
        let mut bucket: Vec<(MorphSegment, usize)> = Vec::new();
        let mut k: usize = 0;
        proof {
            assert(slots.take(0) =~= Seq::<(MorphSegment, GroupRaw)>::empty());
        }
        while k < mid
            invariant
                0 <= k <= mid,
                morph_wf(*graphic, *raws),
                n == graphic.beziers@.len(),
                mid == n as int / 2,
                g < own.len(),
                own == (if start_side {
                    graphic.start.groups@
                } else {
                    graphic.target.groups@
                }),
                slots == (if start_side {
                    slots_start(*graphic, *raws)
                } else {
                    slots_target(*graphic, *raws)
                }),
                bucket@ == bucket_from(slots.take(k as int), g as int),
                forall|i: int|
                    0 <= i < bucket@.len() ==> {
                        let ms = (#[trigger] bucket@[i]).0;
                        &&& curve_bounded(ms.start, CURVE_LIMIT as int)
                        &&& curve_bounded(ms.target, CURVE_LIMIT as int)
                        &&& 0 < ms.group_width <= crate::fixed::COORD_LIMIT
                    },
            decreases mid - k,
        {
            proof {
                assert(n as int % 2 == 0);
                assert(mid + k < n);
            }
            let own_raw = if start_side {
                raws.0[k]
            } else {
                raws.0[mid + k]
            };
            if own_raw.group_id == g {
                proof {
                    assert(curve_bounded(graphic.beziers@[k as int], CURVE_LIMIT as int));
                    assert(curve_bounded(graphic.beziers@[mid as int + k as int], CURVE_LIMIT as int));
                }
                let matched_raw = if start_side {
                    raws.0[mid + k]
                } else {
                    raws.0[k]
                };
                let width = if start_side {
                    graphic.target.groups[matched_raw.group_id].line_width
                } else {
                    graphic.start.groups[matched_raw.group_id].line_width
                };
                let seg = MorphSegment {
                    start: graphic.beziers[k],
                    target: graphic.beziers[mid + k],
                    group_width: width,
                };
                bucket.push((seg, own_raw.pos));
            }
            proof {
                lemma_bucket_from_snoc(slots.take(k as int), slots[k as int], g as int);
                assert(slots.take(k as int).push(slots[k as int]) =~= slots.take(k as int + 1));
                assert(bucket@ =~= bucket_from(slots.take(k as int + 1), g as int));
            }
            k = k + 1;
        }
        proof {
            assert(slots.take(mid as int) =~= slots);
        }
        let sorted = sort_bucket(&bucket);
        let mut segs: Vec<MorphSegment> = Vec::new();
        let mut si: usize = 0;
        proof {
            assert(segs@ =~= Seq::new(0, |j: int| sorted@[j].0));
        }
        while si < sorted.len()
            invariant
                0 <= si <= sorted@.len(),
                segs@ == Seq::new(si as nat, |j: int| sorted@[j].0),
            decreases sorted@.len() - si,
        {
            segs.push(sorted[si].0);
            proof {
                assert(Seq::new((si + 1) as nat, |j: int| sorted@[j].0) =~= Seq::new(
                    si as nat,
                    |j: int| sorted@[j].0,
                ).push(sorted@[si as int].0));
            }
            si = si + 1;
        }
        proof {
            assert(segs@ =~= sorted@.map_values(|x: (MorphSegment, usize)| x.0));
        }
        let grp = if start_side {
            &graphic.start.groups[g]
        } else {
            &graphic.target.groups[g]
        };
        let bg = BezierGroup {
            segments: segs,
            style: grp.style,
            line_width: grp.line_width,
            close: grp.close,
            start_side,
        };
        proof {
            lemma_sort_by_pos_all(bucket@);
            assert forall|i: int| 0 <= i < bg.segments@.len() implies {
                let ms = #[trigger] bg.segments@[i];
                &&& curve_bounded(ms.start, CURVE_LIMIT as int)
                &&& curve_bounded(ms.target, CURVE_LIMIT as int)
                &&& 0 < ms.group_width <= crate::fixed::COORD_LIMIT
            } by {
                assert(bg.segments@[i] == sorted@[i].0);
                assert(bucket@.contains(sorted@[i]));
                let j = choose|j: int| 0 <= j < bucket@.len() && bucket@[j] == sorted@[i];
                assert(bucket@[j].0 == sorted@[i].0);
            }
            assert(own[g as int].wf());
            assert(bg.wf());
            assert(linked_group_ok(slots, own, bg, g as int));
        }
        r.push(bg);
        proof {
            assert(forall|j: int|
                0 <= j < r@.len() ==> linked_group_ok(slots, own, #[trigger] r@[j], j));
            assert(linked_side_wf(r@));
        }
        g = g + 1;
    }
    r
}

/// Sorting by position id keeps every element of the bucket: each element
/// of the sorted run is an element of the bucket.
pub proof fn lemma_sort_by_pos_all(s: Seq<(MorphSegment, usize)>)
    ensures
        forall|i: int|
            0 <= i < sort_by_pos(s).len() ==> s.contains(#[trigger] sort_by_pos(s)[i]),
        sort_by_pos(s).len() == s.len(),
    decreases s.len(),
{
    if s.len() > 0 {
        lemma_sort_by_pos_all(s.drop_last());
        lemma_insert_by_pos_all(sort_by_pos(s.drop_last()), s.last());
        assert forall|i: int|
            0 <= i < sort_by_pos(s).len() implies s.contains(#[trigger] sort_by_pos(s)[i]) by {
            let x = sort_by_pos(s)[i];
            assert(insert_by_pos(sort_by_pos(s.drop_last()), s.last())[i] == x);
            if x == s.last() {
                assert(s[s.len() - 1] == x);
            } else {
                assert(sort_by_pos(s.drop_last()).contains(x));
                let j = choose|j: int|
                    0 <= j < sort_by_pos(s.drop_last()).len() && sort_by_pos(s.drop_last())[j]
                        == x;
                assert(s.drop_last().contains(x));
                let m = choose|m: int| 0 <= m < s.drop_last().len() && s.drop_last()[m] == x;
                assert(s[m] == x);
            }
        }
    }
}

/// Each element of an insertion result is the inserted element or one of
/// the run's own.
proof fn lemma_insert_by_pos_all(acc: Seq<(MorphSegment, usize)>, x: (MorphSegment, usize))
    ensures
        insert_by_pos(acc, x).len() == acc.len() + 1,
        forall|i: int|
            0 <= i < insert_by_pos(acc, x).len() ==> (#[trigger] insert_by_pos(acc, x)[i] == x
                || acc.contains(insert_by_pos(acc, x)[i])),
    decreases acc.len(),
{
    if acc.len() == 0 {
    } else if x.1 < acc[0].1 {
    } else {
        lemma_insert_by_pos_all(acc.drop_first(), x);
        assert forall|i: int|
            0 <= i < insert_by_pos(acc, x).len() implies (#[trigger] insert_by_pos(acc, x)[i] == x
            || acc.contains(insert_by_pos(acc, x)[i])) by {
            let out = insert_by_pos(acc, x);
            if i == 0 {
                assert(out[0] == acc[0]);
                assert(acc.contains(acc[0]));
            } else {
                assert(out[i] == insert_by_pos(acc.drop_first(), x)[i - 1]);
                if out[i] != x {
                    assert(acc.drop_first().contains(out[i]));
                    let j = choose|j: int|
                        0 <= j < acc.drop_first().len() && acc.drop_first()[j] == out[i];
                    assert(acc[j + 1] == out[i]);
                }
            }
        }
    }
}

/// The width-interpolation parameter: `t` rising to the middle of the
/// blend, then falling, so each side's own widths dominate near its own
/// endpoint.
pub open spec fn blend_u(t: int) -> int {
    if t < HALF {
        t
    } else {
        ONE - t
    }
}

/// The identity-overlay factor `|1 - 2 t|`: one at either endpoint, zero
/// exactly at mid-blend.
pub open spec fn fade_spec(t: int) -> int {
    if t <= HALF {
        ONE - 2 * t
    } else {
        2 * t - ONE
    }
}

/// The first-pass commands of one paired curve: the interpolated curve as
/// a path continuation, stroked at the width interpolated between the two
/// owning groups.
pub open spec fn pass1_seg_cmds(ms: MorphSegment, own_width: i64, t: int) -> Seq<DrawCmd> {
    curve_cmds(curve_lerp_spec(ms.start, ms.target, t), false) + seq![
        DrawCmd::SetLineWidth {
            width: lerp_spec(
                own_width as int,
                ms.group_width as int,
                blend_u(t),
                ONE as int,
            ) as i64,
        },
        DrawCmd::Stroke,
    ]
}

/// The first pass over a group's paired curves, in order.
pub open spec fn pass1_cmds(segs: Seq<MorphSegment>, own_width: i64, t: int) -> Seq<DrawCmd>
    decreases segs.len(),
{
    if segs.len() == 0 {
        Seq::<DrawCmd>::empty()
    } else {
        pass1_seg_cmds(segs[0], own_width, t) + pass1_cmds(segs.drop_first(), own_width, t)
    }
}

/// One more paired curve appends its first-pass commands.
pub proof fn lemma_pass1_cmds_push(segs: Seq<MorphSegment>, s: MorphSegment, own_width: i64, t: int)
    ensures
        pass1_cmds(segs.push(s), own_width, t) == pass1_cmds(segs, own_width, t) + pass1_seg_cmds(
            s,
            own_width,
            t,
        ),
    decreases segs.len(),
{
    if segs.len() == 0 {
        assert(segs.push(s)[0] == s);
        assert(segs.push(s).drop_first() =~= Seq::<MorphSegment>::empty());
        assert(pass1_cmds(Seq::<MorphSegment>::empty(), own_width, t) == Seq::<DrawCmd>::empty());
        assert(pass1_cmds(segs.push(s), own_width, t) =~= pass1_seg_cmds(s, own_width, t) + Seq::<
            DrawCmd,
        >::empty());
        assert(pass1_cmds(segs.push(s), own_width, t) =~= pass1_seg_cmds(s, own_width, t));
        assert(pass1_cmds(segs, own_width, t) + pass1_seg_cmds(s, own_width, t)
            =~= pass1_seg_cmds(s, own_width, t));
    } else {
        assert(segs.push(s)[0] == segs[0]);
        assert(segs.push(s).drop_first() =~= segs.drop_first().push(s));
        lemma_pass1_cmds_push(segs.drop_first(), s, own_width, t);
        assert(pass1_cmds(segs.push(s), own_width, t) =~= pass1_cmds(segs, own_width, t)
            + pass1_seg_cmds(s, own_width, t));
    }
}

/// The commands of one linked group at a blended frame: the blended colour
/// at full opacity, the first (silhouette) pass stroking every
/// interpolated curve at its interpolated width, then the second
/// (identity) pass re-drawing the group's own curves as one path at
/// opacity and width scaled by the overlay factor, painted with the
/// group's own style — a cross-dissolve of the active side's native look.
pub open spec fn bezier_group_cmds(bg: BezierGroup, t: int, color: Color) -> Seq<DrawCmd> {
    seq![
        DrawCmd::SetColor { red: color.red, green: color.green, blue: color.blue },
        DrawCmd::SetAlpha { alpha: ONE },
    ] + pass1_cmds(bg.segments@, bg.line_width, t) + seq![
        DrawCmd::SetAlpha { alpha: fade_spec(t) as i64 },
    ] + path_cmds(own_curves(bg), true) + (if bg.close {
        seq![DrawCmd::ClosePath]
    } else {
        Seq::<DrawCmd>::empty()
    }) + paint_cmds(bg.style, scale_spec(bg.line_width as int, fade_spec(t), ONE as int))
}

/// The commands of a run of linked groups at a blended frame.
pub open spec fn blend_groups_cmds(gs: Seq<BezierGroup>, t: int, color: Color) -> Seq<DrawCmd>
    decreases gs.len(),
{
    if gs.len() == 0 {
        Seq::<DrawCmd>::empty()
    } else {
        bezier_group_cmds(gs[0], t, color) + blend_groups_cmds(gs.drop_first(), t, color)
    }
}

/// One more linked group appends its commands.
pub proof fn lemma_blend_groups_cmds_push(gs: Seq<BezierGroup>, g: BezierGroup, t: int, color: Color)
    ensures
        blend_groups_cmds(gs.push(g), t, color) == blend_groups_cmds(gs, t, color)
            + bezier_group_cmds(g, t, color),
    decreases gs.len(),
{
    if gs.len() == 0 {
        assert(gs.push(g)[0] == g);
        assert(gs.push(g).drop_first() =~= Seq::<BezierGroup>::empty());
        assert(blend_groups_cmds(Seq::<BezierGroup>::empty(), t, color) == Seq::<
            DrawCmd,
        >::empty());
        assert(blend_groups_cmds(gs.push(g), t, color) =~= bezier_group_cmds(g, t, color) + Seq::<
            DrawCmd,
        >::empty());
        assert(blend_groups_cmds(gs.push(g), t, color) =~= bezier_group_cmds(g, t, color));
        assert(blend_groups_cmds(gs, t, color) + bezier_group_cmds(g, t, color)
            =~= bezier_group_cmds(g, t, color));
    } else {
        assert(gs.push(g)[0] == gs[0]);
        assert(gs.push(g).drop_first() =~= gs.drop_first().push(g));
        lemma_blend_groups_cmds_push(gs.drop_first(), g, t, color);
        assert(blend_groups_cmds(gs.push(g), t, color) =~= blend_groups_cmds(gs, t, color)
            + bezier_group_cmds(g, t, color));
    }
}

impl BezierGroup {
    /// Draw this linked group at a blended frame.
    #[verifier::rlimit(60)]
    pub fn draw(&self, ctx: &mut Canvas, t: i64, color: Color)
        requires
            0 <= t <= ONE,
            self.wf(),
        ensures
            final(ctx)@ == old(ctx)@ + bezier_group_cmds(*self, t as int, color),
    {
        ctx.set_color(color.red, color.green, color.blue);
        ctx.set_alpha(ONE);
        let u: i64 = if t < HALF {
            t
        } else {
            ONE - t
        };
        let ghost mark = ctx@;
        let ghost own_of = |ms: MorphSegment|
            if self.start_side {
                ms.start
            } else {
                ms.target
            };
        let mut curves: Vec<BezierCurve> = Vec::new();
        let mut i: usize = 0;
        proof {
            assert(self.segments@.take(0) =~= Seq::<MorphSegment>::empty());
            assert(ctx@ =~= mark + pass1_cmds(self.segments@.take(0), self.line_width, t as int));
            assert(curves@ =~= self.segments@.take(0).map_values(own_of));
        }
        while i < self.segments.len()
            invariant
                0 <= i <= self.segments@.len(),
                0 <= t <= ONE,
                u == blend_u(t as int),
                self.wf(),
                own_of == (|ms: MorphSegment|
                    if self.start_side {
                        ms.start
                    } else {
                        ms.target
                    }),
                ctx@ == mark + pass1_cmds(
                    self.segments@.take(i as int),
                    self.line_width,
                    t as int,
                ),
                curves@ == self.segments@.take(i as int).map_values(own_of),
            decreases self.segments@.len() - i,
        {
            let seg = self.segments[i];
            let c = seg.start.lerp(&seg.target, t);
            c.draw(ctx, false);
            let w = crate::fixed::lerp_i64(self.line_width, seg.group_width, u, ONE);
            ctx.set_line_width(w);
            ctx.stroke();
            let own = if self.start_side {
                seg.start
            } else {
                seg.target
            };
            curves.push(own);
            proof {
                lemma_pass1_cmds_push(
                    self.segments@.take(i as int),
                    self.segments@[i as int],
                    self.line_width,
                    t as int,
                );
                assert(self.segments@.take(i as int).push(self.segments@[i as int])
                    =~= self.segments@.take(i as int + 1));
                assert(ctx@ =~= mark + pass1_cmds(
                    self.segments@.take(i as int + 1),
                    self.line_width,
                    t as int,
                ));
                assert(curves@ =~= self.segments@.take(i as int + 1).map_values(own_of));
            }
            i = i + 1;
        }
        proof {
            assert(self.segments@.take(self.segments@.len() as int) =~= self.segments@);
            assert(curves@ =~= own_curves(*self));
        }
        let fade: i64 = if t <= HALF {
            ONE - 2 * t
        } else {
            2 * t - ONE
        };
        ctx.set_alpha(fade);
        crate::segments::draw_path(&curves, ctx, true);
        if self.close {
            ctx.close_path();
        }
        let overlay_width = crate::fixed::scale(self.line_width, fade, ONE);
        self.style.paint(ctx, overlay_width);
        proof {
            assert(final(ctx)@ =~= old(ctx)@ + bezier_group_cmds(*self, t as int, color));
        }
    }
}

impl GroupsLinked {
    /// The side whose groups a blended frame iterates: the start side in
    /// the first half of the blend, the target side in the second.
    pub fn active(&self, t: i64) -> (r: &Vec<BezierGroup>)
        ensures
            t < HALF ==> r@ == self.start@,
            t >= HALF ==> r@ == self.target@,
    {
        if t < HALF {
            &self.start
        } else {
            &self.target
        }
    }
}

/// The commands of one morph frame at blend parameter `t`: with exactly
/// one degenerate side, the viable side alone, for every `t`; at an
/// endpoint the corresponding graphic alone, verbatim; with a live
/// pairing a blended frame over the active side's groups; and with an
/// empty pool otherwise, the active side alone.
pub open spec fn morph_draw_cmds(mg: MorphGraphic, l: GroupsLinked, t: int) -> Seq<DrawCmd> {
    if mg.start.count_spec() == 0 && mg.target.count_spec() >= 1 {
        graphic_cmds(mg.target)
    } else if mg.target.count_spec() == 0 && mg.start.count_spec() >= 1 {
        graphic_cmds(mg.start)
    } else if t == 0 {
        graphic_cmds(mg.start)
    } else if t == ONE {
        graphic_cmds(mg.target)
    } else if mg.beziers@.len() > 0 {
        let color = color_lerp_spec(mg.start.color, mg.target.color, t);
        blend_groups_cmds(
            if t < HALF {
                l.start@
            } else {
                l.target@
            },
            t,
            color,
        )
    } else if t < HALF {
        graphic_cmds(mg.start)
    } else {
        graphic_cmds(mg.target)
    }
}

impl MorphGraphic {
    /// Draw one frame of the morph at blend parameter `t`. When exactly
    /// one side has no curves, the viable side is drawn alone, for every
    /// `t` including the endpoints. Otherwise, at `t == 0` the start
    /// graphic is drawn verbatim and at `t == ONE` the target; in
    /// between, the active side's groups are drawn blended.
    pub fn draw(&self, ctx: &mut Canvas, groups: &GroupsLinked, t: i64)
        requires
            0 <= t <= ONE,
            self.start.wf(),
            self.target.wf(),
            linked_wf(*groups),
        ensures
            final(ctx)@ == old(ctx)@ + morph_draw_cmds(*self, *groups, t as int),
    {
        let cs = self.start.count_beziers();
        let ct = self.target.count_beziers();
        if cs == 0 && ct >= 1 {
            self.target.draw(ctx);
        } else if ct == 0 && cs >= 1 {
            self.start.draw(ctx);
        } else if t == 0 {
            self.start.draw(ctx);
        } else if t == ONE {
            self.target.draw(ctx);
        } else if self.beziers.len() > 0 {
            let color = lerp_color(self.start.color(), self.target.color(), t);
            let side = groups.active(t);
            let ghost mark = ctx@;
            let ghost chosen = side@;
            let mut i: usize = 0;
            proof {
                assert(chosen.take(0) =~= Seq::<BezierGroup>::empty());
                assert(ctx@ =~= mark + blend_groups_cmds(chosen.take(0), t as int, color));
            }
            while i < side.len()
                invariant
                    0 <= i <= chosen.len(),
                    0 <= t <= ONE,
                    chosen == side@,
                    linked_side_wf(chosen),
                    ctx@ == mark + blend_groups_cmds(chosen.take(i as int), t as int, color),
                decreases chosen.len() - i,
            {
                side[i].draw(ctx, t, color);
                proof {
                    lemma_blend_groups_cmds_push(
                        chosen.take(i as int),
                        chosen[i as int],
                        t as int,
                        color,
                    );
                    assert(chosen.take(i as int).push(chosen[i as int]) =~= chosen.take(
                        i as int + 1,
                    ));
                    assert(ctx@ =~= mark + blend_groups_cmds(
                        chosen.take(i as int + 1),
                        t as int,
                        color,
                    ));
                }
                i = i + 1;
            }
            proof {
                assert(chosen.take(chosen.len() as int) =~= chosen);
            }
        } else {
            if t < HALF {
                self.start.draw(ctx);
            } else {
                self.target.draw(ctx);
            }
        }
    }
}

/// A run expanded element by element: each element contributes the run
/// `h` assigns it, in order.
pub open spec fn expand<T, U>(s: Seq<T>, h: spec_fn(T) -> Seq<U>) -> Seq<U>
    decreases s.len(),
{
    if s.len() == 0 {
        Seq::<U>::empty()
    } else {
        h(s[0]) + expand(s.drop_first(), h)
    }
}

/// Expansion distributes over concatenation.
proof fn lemma_expand_concat<T, U>(a: Seq<T>, b: Seq<T>, h: spec_fn(T) -> Seq<U>)
    ensures
        expand(a + b, h) == expand(a, h) + expand(b, h),
    decreases a.len(),
{
    if a.len() == 0 {
        assert(a + b =~= b);
        assert(expand(a, h) + expand(b, h) =~= expand(b, h));
    } else {
        assert((a + b)[0] == a[0]);
        assert((a + b).drop_first() =~= a.drop_first() + b);
        lemma_expand_concat(a.drop_first(), b, h);
        assert(expand(a + b, h) =~= expand(a, h) + expand(b, h));
    }
}

/// The expansion of a single element is what `h` assigns it.
proof fn lemma_expand_singleton<T, U>(x: T, h: spec_fn(T) -> Seq<U>)
    ensures
        expand(seq![x], h) == h(x),
{
    assert(seq![x].drop_first() =~= Seq::<T>::empty());
    assert(expand(Seq::<T>::empty(), h) == Seq::<U>::empty());
    assert(seq![x][0] == x);
    assert(expand(seq![x], h) =~= h(x) + Seq::<U>::empty());
    assert(h(x) + Seq::<U>::empty() =~= h(x));
}

/// Two runs with the same multiset expand to runs with the same multiset:
/// expansion looks at elements alone, never at their order.
proof fn lemma_expand_multiset_transfer<T, U>(a: Seq<T>, b: Seq<T>, h: spec_fn(T) -> Seq<U>)
    requires
        a.to_multiset() == b.to_multiset(),
    ensures
        expand(a, h).to_multiset() == expand(b, h).to_multiset(),
    decreases a.len(),
{
    broadcast use vstd::seq_lib::group_to_multiset_ensures;

    if a.len() == 0 {
        assert(a.to_multiset().len() == a.len());
        assert(b.to_multiset().len() == b.len());
        assert(b =~= Seq::<T>::empty());
        assert(a =~= Seq::<T>::empty());
    } else {
        let x = a.last();
        assert(a.contains(x));
        assert(a.to_multiset().count(x) > 0);
        assert(b.contains(x));
        let j = choose|j: int| 0 <= j < b.len() && b[j] == x;
        let a1 = a.drop_last();
        let b1 = b.remove(j);
        assert(a =~= a1.push(x));
        assert(a1.push(x).to_multiset() =~= a1.to_multiset().insert(x));
        assert(b1.to_multiset() =~= b.to_multiset().remove(x));
        assert(a1.to_multiset() =~= b1.to_multiset()) by {
            assert(a1.to_multiset() =~= a.to_multiset().remove(x));
        }
        lemma_expand_multiset_transfer(a1, b1, h);
        let bt = b.take(j);
        let bs = b.skip(j + 1);
        assert(b =~= bt + seq![x] + bs);
        assert(b1 =~= bt + bs);
        lemma_expand_concat(bt + seq![x], bs, h);
        lemma_expand_concat(bt, seq![x], h);
        lemma_expand_concat(bt, bs, h);
        lemma_expand_singleton(x, h);
        assert(expand(b, h) =~= expand(bt, h) + h(x) + expand(bs, h));
        assert(expand(b1, h) =~= expand(bt, h) + expand(bs, h));
        assert(a1 + seq![x] =~= a);
        lemma_expand_concat(a1, seq![x], h);
        assert(expand(a, h) =~= expand(a1, h) + h(x));
        assert(expand(a, h).to_multiset() =~= expand(a1, h).to_multiset().add(
            h(x).to_multiset(),
        )) by {
            vstd::seq_lib::lemma_multiset_commutative(expand(a1, h), h(x));
        }
        assert(expand(b, h).to_multiset() =~= expand(bt, h).to_multiset().add(
            h(x).to_multiset(),
        ).add(expand(bs, h).to_multiset())) by {
            vstd::seq_lib::lemma_multiset_commutative(expand(bt, h) + h(x), expand(bs, h));
            vstd::seq_lib::lemma_multiset_commutative(expand(bt, h), h(x));
        }
        assert(expand(b1, h).to_multiset() =~= expand(bt, h).to_multiset().add(
            expand(bs, h).to_multiset(),
        )) by {
            vstd::seq_lib::lemma_multiset_commutative(expand(bt, h), expand(bs, h));
        }
        assert(expand(a, h).to_multiset() =~= expand(b, h).to_multiset());
    }
}

/// Each element of an expansion has a source element in the run.
proof fn lemma_expand_membership<T, U>(s: Seq<T>, h: spec_fn(T) -> Seq<U>)
    ensures
        forall|m: int|
            0 <= m < expand(s, h).len() ==> exists|i: int|
                0 <= i < s.len() && (#[trigger] h(s[i])).contains(#[trigger] expand(s, h)[m]),
    decreases s.len(),
{
    if s.len() > 0 {
        lemma_expand_membership(s.drop_first(), h);
        assert forall|m: int| 0 <= m < expand(s, h).len() implies exists|i: int|
            0 <= i < s.len() && (#[trigger] h(s[i])).contains(#[trigger] expand(s, h)[m]) by {
            let hd = h(s[0]);
            if m < hd.len() {
                assert(hd.contains(expand(s, h)[m])) by {
                    assert(expand(s, h)[m] == hd[m]);
                }
                assert(h(s[0]).contains(expand(s, h)[m]));
            } else {
                let rest = expand(s.drop_first(), h);
                assert(expand(s, h)[m] == rest[m - hd.len()]);
                let i = choose|i: int|
                    0 <= i < s.drop_first().len() && (#[trigger] h(s.drop_first()[i])).contains(
                        rest[m - hd.len()],
                    );
                assert(s.drop_first()[i] == s[i + 1]);
                assert(h(s[i + 1]).contains(expand(s, h)[m]));
            }
        }
    }
}

/// The curve-and-position pairs of the pooled curves that belong to group
/// `g`, in pool order.
pub open spec fn pair_bucket(s: Seq<(BezierCurve, GroupRaw)>, g: int) -> Seq<(BezierCurve, usize)> {
    expand(
        s,
        |x: (BezierCurve, GroupRaw)|
            if x.1.group_id == g {
                seq![(x.0, x.1.pos)]
            } else {
                Seq::<(BezierCurve, usize)>::empty()
            },
    )
}

/// The position ids of a pooled run, in pool order.
pub open spec fn pos_list(s: Seq<(BezierCurve, GroupRaw)>) -> Seq<usize> {
    expand(s, |x: (BezierCurve, GroupRaw)| seq![x.1.pos])
}

/// The curves of a normalized side that belong to group `g`, in draw
/// order: what the normalization step produced for that group.
pub open spec fn group_curves(n: Seq<(BezierCurve, usize)>, g: int) -> Seq<BezierCurve> {
    expand(
        n,
        |x: (BezierCurve, usize)|
            if x.1 == g {
                seq![x.0]
            } else {
                Seq::<BezierCurve>::empty()
            },
    )
}

/// Non-decreasing position ids.
pub open spec fn pos_sorted<T>(s: Seq<(T, usize)>) -> bool {
    forall|i: int, j: int| 0 <= i <= j < s.len() ==> (#[trigger] s[i]).1 <= (#[trigger] s[j]).1
}

/// Strictly increasing position ids.
pub open spec fn pos_strict<T>(s: Seq<(T, usize)>) -> bool {
    forall|i: int, j: int| 0 <= i < j < s.len() ==> (#[trigger] s[i]).1 < (#[trigger] s[j]).1
}

/// Insertion into a run with non-decreasing ids keeps the ids
/// non-decreasing, adds the element to the multiset, and grows the run by
/// one.
proof fn lemma_insert_by_pos_props<T>(acc: Seq<(T, usize)>, x: (T, usize))
    requires
        pos_sorted(acc),
    ensures
        pos_sorted(insert_by_pos(acc, x)),
        insert_by_pos(acc, x).to_multiset() == acc.to_multiset().insert(x),
        insert_by_pos(acc, x).len() == acc.len() + 1,
    decreases acc.len(),
{
    broadcast use vstd::seq_lib::group_to_multiset_ensures;

    let out = insert_by_pos(acc, x);
    if acc.len() == 0 {
        assert(out =~= Seq::<(T, usize)>::empty().push(x));
        assert(out.to_multiset() =~= acc.to_multiset().insert(x));
    } else if x.1 < acc[0].1 {
        assert(out =~= seq![x] + acc);
        assert forall|i: int, j: int| 0 <= i <= j < out.len() implies (#[trigger] out[i]).1 <= (
        #[trigger] out[j]).1 by {
            if i > 0 {
                assert(out[i] == acc[i - 1]);
                assert(out[j] == acc[j - 1]);
            } else if j > 0 {
                assert(out[j] == acc[j - 1]);
                assert(acc[0].1 <= acc[j - 1].1);
            }
        }
        assert(out.to_multiset() =~= acc.to_multiset().insert(x)) by {
            vstd::seq_lib::lemma_multiset_commutative(seq![x], acc);
            assert(seq![x] =~= Seq::<(T, usize)>::empty().push(x));
        }
    } else {
        assert(pos_sorted(acc.drop_first())) by {
            assert(forall|i: int|
                0 <= i < acc.drop_first().len() ==> acc.drop_first()[i] == acc[i + 1]);
        }
        lemma_insert_by_pos_props(acc.drop_first(), x);
        let inner = insert_by_pos(acc.drop_first(), x);
        assert(out =~= seq![acc[0]] + inner);
        assert forall|i: int, j: int| 0 <= i <= j < out.len() implies (#[trigger] out[i]).1 <= (
        #[trigger] out[j]).1 by {
            if i > 0 {
                assert(out[i] == inner[i - 1]);
                assert(out[j] == inner[j - 1]);
            } else if j > 0 {
                assert(out[j] == inner[j - 1]);
                assert(inner.contains(inner[j - 1]));
                assert(inner.to_multiset().count(inner[j - 1]) > 0);
                if inner[j - 1] == x {
                    assert(acc[0].1 <= x.1);
                } else {
                    assert(acc.drop_first().to_multiset().count(inner[j - 1]) > 0);
                    assert(acc.drop_first().contains(inner[j - 1]));
                    let m = choose|m: int|
                        0 <= m < acc.drop_first().len() && acc.drop_first()[m] == inner[j - 1];
                    assert(acc[m + 1] == inner[j - 1]);
                    assert(acc[0].1 <= acc[m + 1].1);
                }
            }
        }
        assert(out.to_multiset() =~= acc.to_multiset().insert(x)) by {
            vstd::seq_lib::lemma_multiset_commutative(seq![acc[0]], inner);
            assert(seq![acc[0]] =~= Seq::<(T, usize)>::empty().push(acc[0]));
            assert(acc =~= seq![acc[0]] + acc.drop_first());
            vstd::seq_lib::lemma_multiset_commutative(seq![acc[0]], acc.drop_first());
        }
    }
}

/// Sorting by position id yields non-decreasing ids and keeps the
/// multiset.
pub proof fn lemma_sort_by_pos_props<T>(s: Seq<(T, usize)>)
    ensures
        pos_sorted(sort_by_pos(s)),
        sort_by_pos(s).to_multiset() == s.to_multiset(),
        sort_by_pos(s).len() == s.len(),
    decreases s.len(),
{
    broadcast use vstd::seq_lib::group_to_multiset_ensures;

    if s.len() > 0 {
        lemma_sort_by_pos_props(s.drop_last());
        lemma_insert_by_pos_props(sort_by_pos(s.drop_last()), s.last());
        assert(s =~= s.drop_last().push(s.last()));
        assert(s.drop_last().push(s.last()).to_multiset() =~= s.drop_last().to_multiset().insert(
            s.last(),
        ));
    }
}

/// A run with non-decreasing ids and a run with strictly increasing ids
/// that hold the same multiset are the same run.
proof fn lemma_sorted_unique_eq<T>(a: Seq<(T, usize)>, b: Seq<(T, usize)>)
    requires
        a.to_multiset() == b.to_multiset(),
        pos_sorted(a),
        pos_strict(b),
    ensures
        a == b,
    decreases a.len(),
{
    broadcast use vstd::seq_lib::group_to_multiset_ensures;

    assert(a.to_multiset().len() == a.len());
    assert(b.to_multiset().len() == b.len());
    if a.len() == 0 {
        assert(a =~= b);
    } else {
        assert(a.contains(a[0]));
        assert(a.to_multiset().count(a[0]) > 0);
        assert(b.to_multiset().count(a[0]) > 0);
        assert(b.contains(a[0]));
        let j = choose|j: int| 0 <= j < b.len() && b[j] == a[0];
        assert(a.contains(b[0])) by {
            assert(b.contains(b[0]));
            assert(b.to_multiset().count(b[0]) > 0);
            assert(a.to_multiset().count(b[0]) > 0);
        }
        let i = choose|i: int| 0 <= i < a.len() && a[i] == b[0];
        assert(a[0].1 <= a[i].1);
        assert(b[0].1 <= b[j].1) by {
            if j > 0 {
                assert(b[0].1 < b[j].1);
            }
        }
        assert(a[0].1 == b[0].1);
        assert(j == 0) by {
            if j > 0 {
                assert(b[0].1 < b[j].1);
            }
        }
        assert(a[0] == b[0]);
        let a1 = a.drop_first();
        let b1 = b.drop_first();
        assert(a1 =~= a.remove(0));
        assert(b1 =~= b.remove(0));
        assert(a1.to_multiset() =~= a.to_multiset().remove(a[0]));
        assert(b1.to_multiset() =~= b.to_multiset().remove(b[0]));
        assert(pos_sorted(a1)) by {
            assert(forall|m: int| 0 <= m < a1.len() ==> a1[m] == a[m + 1]);
        }
        assert(pos_strict(b1)) by {
            assert(forall|m: int| 0 <= m < b1.len() ==> b1[m] == b[m + 1]);
        }
        lemma_sorted_unique_eq(a1, b1);
        assert forall|k: int| 0 <= k < a.len() implies a[k] == b[k] by {
            if k > 0 {
                assert(a1[k - 1] == a[k]);
                assert(b1[k - 1] == b[k]);
                assert(a1[k - 1] == b1[k - 1]);
            }
        }
        assert(a =~= b);
    }
}

/// A function on first components, lifted to position-id pairs.
pub open spec fn pair_map<T, U>(f: spec_fn(T) -> U) -> spec_fn((T, usize)) -> (U, usize) {
    |x: (T, usize)| (f(x.0), x.1)
}

/// Insertion by position id commutes with mapping the first components:
/// the id decides the place either way.
proof fn lemma_insert_project_commute<T, U>(acc: Seq<(T, usize)>, x: (T, usize), f: spec_fn(T) -> U)
    ensures
        insert_by_pos(acc, x).map_values(pair_map(f)) == insert_by_pos(
            acc.map_values(pair_map(f)),
            pair_map(f)(x),
        ),
    decreases acc.len(),
{
    let pm = pair_map(f);
    let am = acc.map_values(pm);
    if acc.len() == 0 {
        assert(insert_by_pos(acc, x) =~= seq![x]);
        assert(am.len() == 0);
        assert(insert_by_pos(acc, x).map_values(pm) =~= seq![pm(x)]);
        assert(insert_by_pos(am, pm(x)) =~= seq![pm(x)]);
    } else if x.1 < acc[0].1 {
        assert(am[0] == pm(acc[0]));
        assert(pm(x).1 < am[0].1);
        assert(insert_by_pos(acc, x).map_values(pm) =~= seq![pm(x)] + am);
        assert(insert_by_pos(am, pm(x)) =~= seq![pm(x)] + am);
    } else {
        assert(am[0] == pm(acc[0]));
        assert(!(pm(x).1 < am[0].1));
        lemma_insert_project_commute(acc.drop_first(), x, f);
        assert(am.drop_first() =~= acc.drop_first().map_values(pm));
        assert(insert_by_pos(acc, x).map_values(pm) =~= seq![pm(acc[0])] + insert_by_pos(
            acc.drop_first(),
            x,
        ).map_values(pm));
        assert(insert_by_pos(am, pm(x)) =~= seq![am[0]] + insert_by_pos(
            am.drop_first(),
            pm(x),
        ));
        assert(insert_by_pos(acc, x).map_values(pm) =~= insert_by_pos(am, pm(x)));
    }
}

/// Sorting by position id commutes with mapping the first components.
proof fn lemma_sort_project_commute<T, U>(s: Seq<(T, usize)>, f: spec_fn(T) -> U)
    ensures
        sort_by_pos(s).map_values(pair_map(f)) == sort_by_pos(s.map_values(pair_map(f))),
    decreases s.len(),
{
    let pm = pair_map(f);
    let sm = s.map_values(pm);
    if s.len() == 0 {
        assert(sort_by_pos(s).map_values(pm) =~= Seq::<(U, usize)>::empty());
        assert(sm.len() == 0);
    } else {
        lemma_sort_project_commute(s.drop_last(), f);
        lemma_insert_project_commute(sort_by_pos(s.drop_last()), s.last(), f);
        assert(sm.drop_last() =~= s.drop_last().map_values(pm));
        assert(sm.last() == pm(s.last()));
        assert(sort_by_pos(s).map_values(pm) =~= sort_by_pos(sm));
    }
}

/// Gathering a group's slots commutes with projecting each slot to a
/// curve: the pairing record decides membership either way.
proof fn lemma_bucket_projects(
    slots: Seq<(MorphSegment, GroupRaw)>,
    g: int,
    f: spec_fn(MorphSegment) -> BezierCurve,
)
    ensures
        bucket_from(slots, g).map_values(pair_map(f)) == pair_bucket(
            slots.map_values(
                |y: (MorphSegment, GroupRaw)| (f(y.0), y.1),
            ),
            g,
        ),
    decreases slots.len(),
{
    let pm = pair_map(f);
    let sm = |y: (MorphSegment, GroupRaw)| (f(y.0), y.1);
    let mapped = slots.map_values(sm);
    if slots.len() == 0 {
        assert(bucket_from(slots, g).map_values(pm) =~= Seq::<(BezierCurve, usize)>::empty());
        assert(mapped.len() == 0);
        assert(pair_bucket(mapped, g) =~= Seq::<(BezierCurve, usize)>::empty());
    } else {
        lemma_bucket_projects(slots.drop_first(), g, f);
        assert(mapped.drop_first() =~= slots.drop_first().map_values(sm));
        assert(mapped[0] == sm(slots[0]));
        let head = if slots[0].1.group_id == g {
            seq![(slots[0].0, slots[0].1.pos)]
        } else {
            Seq::<(MorphSegment, usize)>::empty()
        };
        assert(bucket_from(slots, g) == head + bucket_from(slots.drop_first(), g));
        assert(bucket_from(slots, g).map_values(pm) =~= head.map_values(pm) + bucket_from(
            slots.drop_first(),
            g,
        ).map_values(pm));
        assert(pair_bucket(mapped, g) =~= (if mapped[0].1.group_id == g {
            seq![(mapped[0].0, mapped[0].1.pos)]
        } else {
            Seq::<(BezierCurve, usize)>::empty()
        }) + pair_bucket(mapped.drop_first(), g));
        assert(head.map_values(pm) =~= (if mapped[0].1.group_id == g {
            seq![(mapped[0].0, mapped[0].1.pos)]
        } else {
            Seq::<(BezierCurve, usize)>::empty()
        }));
        assert(bucket_from(slots, g).map_values(pm) =~= pair_bucket(mapped, g));
    }
}

/// Position ids counted from `p0` are strictly increasing as long as they
/// stay in machine range.
proof fn lemma_with_pos_strict(n: Seq<(BezierCurve, usize)>, p0: int)
    requires
        0 <= p0,
        p0 + n.len() <= 100_000_000,
    ensures
        forall|i: int, j: int|
            0 <= i < j < with_pos_from(n, p0).len() ==> (#[trigger] with_pos_from(n, p0)[i]).1.pos
                < (#[trigger] with_pos_from(n, p0)[j]).1.pos,
{
    assert forall|i: int, j: int|
        0 <= i < j < with_pos_from(n, p0).len() implies (#[trigger] with_pos_from(n, p0)[i]).1.pos
        < (#[trigger] with_pos_from(n, p0)[j]).1.pos by {
        assert(with_pos_from(n, p0)[i].1.pos == (p0 + i) as usize);
        assert(with_pos_from(n, p0)[j].1.pos == (p0 + j) as usize);
    }
}

/// Gathering a group keeps strictly increasing position ids strictly
/// increasing.
proof fn lemma_pair_bucket_strict(s: Seq<(BezierCurve, GroupRaw)>, g: int)
    requires
        forall|i: int, j: int|
            0 <= i < j < s.len() ==> (#[trigger] s[i]).1.pos < (#[trigger] s[j]).1.pos,
    ensures
        pos_strict(pair_bucket(s, g)),
    decreases s.len(),
{
    let h = |x: (BezierCurve, GroupRaw)|
        if x.1.group_id == g {
            seq![(x.0, x.1.pos)]
        } else {
            Seq::<(BezierCurve, usize)>::empty()
        };
    if s.len() > 0 {
        assert(forall|i: int, j: int|
            0 <= i < j < s.drop_first().len() ==> (#[trigger] s.drop_first()[i]).1.pos < (
            #[trigger] s.drop_first()[j]).1.pos) by {
            assert(forall|i: int| 0 <= i < s.drop_first().len() ==> s.drop_first()[i] == s[i + 1]);
        }
        lemma_pair_bucket_strict(s.drop_first(), g);
        lemma_expand_membership(s.drop_first(), h);
        let tail = pair_bucket(s.drop_first(), g);
        let b = pair_bucket(s, g);
        assert(b == h(s[0]) + tail);
        assert forall|i: int, j: int| 0 <= i < j < b.len() implies (#[trigger] b[i]).1 < (
        #[trigger] b[j]).1 by {
            let hl = h(s[0]).len() as int;
            if i >= hl {
                assert(b[i] == tail[i - hl]);
                assert(b[j] == tail[j - hl]);
                assert(tail[i - hl].1 < tail[j - hl].1);
            } else {
                assert(s[0].1.group_id == g);
                assert(b[i] == (s[0].0, s[0].1.pos));
                assert(b[j] == tail[j - hl]);
                let m = choose|m: int|
                    0 <= m < s.drop_first().len() && (#[trigger] h(s.drop_first()[m])).contains(
                        tail[j - hl],
                    );
                assert(h(s.drop_first()[m]).len() > 0);
                assert(s.drop_first()[m].1.group_id == g);
                assert(tail[j - hl] == (s.drop_first()[m].0, s.drop_first()[m].1.pos));
                assert(s.drop_first()[m] == s[m + 1]);
                assert(s[0].1.pos < s[m + 1].1.pos);
            }
        }
    }
}

/// Gathering a group from position-tagged curves and dropping the ids
/// yields exactly the group's curves in tag order.
proof fn lemma_pair_bucket_group_curves(n: Seq<(BezierCurve, usize)>, p0: int, g: int)
    ensures
        pair_bucket(with_pos_from(n, p0), g).map_values(|x: (BezierCurve, usize)| x.0)
            == group_curves(n, g),
    decreases n.len(),
{
    let w = with_pos_from(n, p0);
    if n.len() == 0 {
        assert(w.len() == 0);
        assert(pair_bucket(w, g) =~= Seq::<(BezierCurve, usize)>::empty());
        assert(pair_bucket(w, g).map_values(|x: (BezierCurve, usize)| x.0) =~= Seq::<
            BezierCurve,
        >::empty());
        assert(group_curves(n, g) =~= Seq::<BezierCurve>::empty());
    } else {
        lemma_pair_bucket_group_curves(n.drop_first(), p0 + 1, g);
        assert(w.drop_first() =~= with_pos_from(n.drop_first(), p0 + 1));
        assert(w[0] == (n[0].0, GroupRaw { group_id: n[0].1, pos: p0 as usize }));
        assert(pair_bucket(w, g) =~= (if w[0].1.group_id == g {
            seq![(w[0].0, w[0].1.pos)]
        } else {
            Seq::<(BezierCurve, usize)>::empty()
        }) + pair_bucket(w.drop_first(), g));
        assert(group_curves(n, g) =~= (if n[0].1 == g {
            seq![n[0].0]
        } else {
            Seq::<BezierCurve>::empty()
        }) + group_curves(n.drop_first(), g));
        assert(pair_bucket(w, g).map_values(|x: (BezierCurve, usize)| x.0) =~= group_curves(n, g));
    }
}

/// The core of order restoration for one half of the pool: whatever order
/// the shuffle left the half in, gathering a group and sorting it back by
/// position id yields exactly the group's position-tagged curves as the
/// normalization produced them.
proof fn lemma_half_restores(half: Seq<(BezierCurve, GroupRaw)>, norm: Seq<(BezierCurve, usize)>, g: int)
    requires
        half.to_multiset() == with_pos(norm).to_multiset(),
        norm.len() <= 1_000_000,
    ensures
        sort_by_pos(pair_bucket(half, g)) == pair_bucket(with_pos(norm), g),
        pair_bucket(with_pos(norm), g).map_values(|x: (BezierCurve, usize)| x.0) == group_curves(
            norm,
            g,
        ),
{
    let h = |x: (BezierCurve, GroupRaw)|
        if x.1.group_id == g {
            seq![(x.0, x.1.pos)]
        } else {
            Seq::<(BezierCurve, usize)>::empty()
        };
    let expected = pair_bucket(with_pos(norm), g);
    lemma_expand_multiset_transfer(half, with_pos(norm), h);
    lemma_sort_by_pos_props::<BezierCurve>(pair_bucket(half, g));
    lemma_with_pos_strict(norm, 1);
    lemma_pair_bucket_strict(with_pos(norm), g);
    lemma_sorted_unique_eq(sort_by_pos(pair_bucket(half, g)), expected);
    lemma_pair_bucket_group_curves(norm, 1, g);
}

/// Randomized pairing is a bijection on curve positions: within each half
/// of the pool, every position id of that side appears exactly once. The
/// half's length is the shared total; see
/// [`lemma_pool_holds_shared_total`].
#[verifier::rlimit(80)]
pub proof fn lemma_pairing_is_bijection(mg: MorphGraphic, raws: GroupsRaw)
    requires
        morph_wf(mg, raws),
        morph_paired(mg, raws),
        morph_active(mg),
    ensures
        ({
            let ls = start_norm(mg).len() as int;
            &&& forall|k1: int, k2: int|
                0 <= k1 < k2 < 2 * ls && (k2 < ls || ls <= k1) ==> (#[trigger] raws.0@[k1]).pos
                    != (#[trigger] raws.0@[k2]).pos
            &&& forall|p: int|
                1 <= p <= ls ==> exists|k: int|
                    0 <= k < ls && (#[trigger] raws.0@[k]).pos == #[trigger] ((p) as usize)
            &&& forall|p: int|
                1 <= p <= ls ==> exists|k: int|
                    ls <= k < 2 * ls && (#[trigger] raws.0@[k]).pos == #[trigger] ((p) as usize)
        }),
{
    let ls = start_norm(mg).len() as int;
    let cs = mg.start.count_spec();
    let ct = mg.target.count_spec();
    let cap = morph_cap(mg);
    lemma_balanced_total(mg.start, cap);
    lemma_balanced_total(mg.target, cap);
    let ns = side_norm(mg.start, cs, cap);
    let nt = side_norm(mg.target, ct, cap);
    let fh = pool_zip(mg, raws).take(ls);
    let sh = pool_zip(mg, raws).skip(ls);
    lemma_half_positions(fh, ns);
    lemma_half_positions(sh, nt);
    lemma_pos_list_index(fh);
    lemma_pos_list_index(sh);
    assert forall|k1: int, k2: int|
        0 <= k1 < k2 < 2 * ls && (k2 < ls || ls <= k1) implies (#[trigger] raws.0@[k1]).pos != (
    #[trigger] raws.0@[k2]).pos by {
        if k2 < ls {
            assert(pos_list(fh)[k1] == fh[k1].1.pos);
            assert(pos_list(fh)[k2] == fh[k2].1.pos);
            assert(fh[k1].1 == raws.0@[k1]);
            assert(fh[k2].1 == raws.0@[k2]);
        } else {
            assert(pos_list(sh)[k1 - ls] == sh[k1 - ls].1.pos);
            assert(pos_list(sh)[k2 - ls] == sh[k2 - ls].1.pos);
            assert(sh[k1 - ls].1 == raws.0@[k1]);
            assert(sh[k2 - ls].1 == raws.0@[k2]);
        }
    }
    assert forall|p: int| 1 <= p <= ls implies exists|k: int|
        0 <= k < ls && (#[trigger] raws.0@[k]).pos == #[trigger] ((p) as usize) by {
        assert(pos_list(fh).contains(p as usize));
        let k = choose|k: int| 0 <= k < pos_list(fh).len() && pos_list(fh)[k] == p as usize;
        assert(pos_list(fh)[k] == fh[k].1.pos);
        assert(fh[k].1 == raws.0@[k]);
        assert(raws.0@[k].pos == (p) as usize);
    }
    assert forall|p: int| 1 <= p <= ls implies exists|k: int|
        ls <= k < 2 * ls && (#[trigger] raws.0@[k]).pos == #[trigger] ((p) as usize) by {
        assert(pos_list(sh).contains(p as usize));
        let k0 = choose|k0: int| 0 <= k0 < pos_list(sh).len() && pos_list(sh)[k0] == p as usize;
        assert(pos_list(sh)[k0] == sh[k0].1.pos);
        assert(sh[k0].1 == raws.0@[k0 + ls]);
        assert(raws.0@[k0 + ls].pos == (p) as usize);
    }
}

/// The position ids of one pooled half: no id repeats, and every id of
/// the side's range appears.
proof fn lemma_half_positions(half: Seq<(BezierCurve, GroupRaw)>, norm: Seq<(BezierCurve, usize)>)
    requires
        half.to_multiset() == with_pos(norm).to_multiset(),
        norm.len() <= 1_000_000,
    ensures
        pos_list(half).len() == half.len(),
        half.len() == norm.len(),
        pos_list(half).no_duplicates(),
        forall|p: int|
            1 <= p <= norm.len() ==> pos_list(half).contains(#[trigger] ((p) as usize)),
{
    broadcast use vstd::seq_lib::group_to_multiset_ensures;

    let ls = norm.len() as int;
    let hp = |x: (BezierCurve, GroupRaw)| seq![x.1.pos];
    let range = Seq::new(ls as nat, |k: int| (1 + k) as usize);
    assert(half.to_multiset().len() == half.len());
    assert(with_pos(norm).to_multiset().len() == with_pos(norm).len());
    lemma_expand_multiset_transfer(half, with_pos(norm), hp);
    lemma_pos_list_index(with_pos(norm));
    lemma_pos_list_index(half);
    assert forall|k: int| 0 <= k < ls implies pos_list(with_pos(norm))[k] == range[k] by {
        assert(pos_list(with_pos(norm))[k] == with_pos(norm)[k].1.pos);
        assert(with_pos(norm)[k].1.pos == (1 + k) as usize);
    }
    assert(pos_list(with_pos(norm)) =~= range);
    assert(range.no_duplicates());
    range.lemma_multiset_has_no_duplicates();
    assert forall|p: int|
        1 <= p <= ls implies range.to_multiset().count(#[trigger] ((p) as usize)) == 1 by {
        assert(range[p - 1] == p as usize);
        assert(range.contains(p as usize));
    }
    lemma_half_bijection(pos_list(half), range, ls);
}

/// Position ids of a half whose multiset matches a duplicate-free range
/// are themselves duplicate-free and cover the range.
proof fn lemma_half_bijection(poses: Seq<usize>, range: Seq<usize>, ls: int)
    requires
        poses.to_multiset() == range.to_multiset(),
        range.no_duplicates(),
        range.len() == ls,
        forall|p: int| 1 <= p <= ls ==> range.to_multiset().count(#[trigger] ((p) as usize)) == 1,
    ensures
        poses.no_duplicates(),
        forall|p: int| 1 <= p <= ls ==> poses.contains(#[trigger] ((p) as usize)),
{
    broadcast use vstd::seq_lib::group_to_multiset_ensures;

    assert forall|x: usize| poses.to_multiset().contains(x) implies poses.to_multiset().count(x)
        == 1 by {
        assert(range.to_multiset().count(x) > 0);
        assert(range.contains(x));
        range.lemma_multiset_has_no_duplicates();
    }
    poses.lemma_multiset_has_no_duplicates_conv();
    assert forall|p: int| 1 <= p <= ls implies poses.contains(#[trigger] ((p) as usize)) by {
        assert(poses.to_multiset().count(p as usize) == 1);
    }
}

/// The position ids of a pooled run, element by element.
proof fn lemma_pos_list_index(s: Seq<(BezierCurve, GroupRaw)>)
    ensures
        pos_list(s).len() == s.len(),
        forall|k: int| 0 <= k < s.len() ==> pos_list(s)[k] == (#[trigger] s[k]).1.pos,
    decreases s.len(),
{
    if s.len() > 0 {
        lemma_pos_list_index(s.drop_first());
        let hp = |x: (BezierCurve, GroupRaw)| seq![x.1.pos];
        assert(pos_list(s) == hp(s[0]) + pos_list(s.drop_first()));
        assert forall|k: int| 0 <= k < s.len() implies pos_list(s)[k] == (#[trigger] s[k]).1.pos by {
            if k == 0 {
                assert(pos_list(s)[0] == s[0].1.pos);
            } else {
                assert(pos_list(s)[k] == pos_list(s.drop_first())[k - 1]);
                assert(s.drop_first()[k - 1] == s[k]);
            }
        }
    }
}

/// Restoring a start-side group's draw order by position id reproduces
/// exactly the per-group curve sequence the normalization step produced:
/// the linked group's own curves — the ones its identity overlay
/// re-draws — are, in order, the group's normalized curves, whatever
/// order the shuffle left the pool in.
pub proof fn lemma_link_restores_start_order(
    mg: MorphGraphic,
    raws: GroupsRaw,
    bg: BezierGroup,
    g: int,
)
    requires
        morph_wf(mg, raws),
        morph_paired(mg, raws),
        morph_active(mg),
        0 <= g < mg.start.groups@.len(),
        linked_group_ok(slots_start(mg, raws), mg.start.groups@, bg, g),
        bg.start_side,
    ensures
        own_curves(bg) == group_curves(
            side_norm(mg.start, mg.start.count_spec(), morph_cap(mg)),
            g,
        ),
{
    assert(own_curves(bg) =~= bg.segments@.map_values(|ms: MorphSegment| ms.start));
    let cap = morph_cap(mg);
    let ns = side_norm(mg.start, mg.start.count_spec(), cap);
    let ls = start_norm(mg).len() as int;
    let slots = slots_start(mg, raws);
    let half = pool_zip(mg, raws).take(ls);
    let f = |ms: MorphSegment| ms.start;
    let sm = |y: (MorphSegment, GroupRaw)| (f(y.0), y.1);
    lemma_balanced_total(mg.start, cap);
    assert(slots.map_values(sm) =~= half);
    lemma_bucket_projects(slots, g, f);
    lemma_sort_project_commute(bucket_from(slots, g), f);
    lemma_half_restores(half, ns, g);
    let sorted = sort_by_pos(bucket_from(slots, g));
    assert(bg.segments@.map_values(f) =~= sorted.map_values(pair_map(f)).map_values(
        |x: (BezierCurve, usize)| x.0,
    ));
    assert(sorted.map_values(pair_map(f)) == sort_by_pos(pair_bucket(half, g)));
    assert(bg.segments@.map_values(f) =~= group_curves(ns, g));
}

/// The twin of [`lemma_link_restores_start_order`] for the target side:
/// a target group's own curves are the `target` components of its linked
/// segments.
pub proof fn lemma_link_restores_target_order(
    mg: MorphGraphic,
    raws: GroupsRaw,
    bg: BezierGroup,
    g: int,
)
    requires
        morph_wf(mg, raws),
        morph_paired(mg, raws),
        morph_active(mg),
        0 <= g < mg.target.groups@.len(),
        linked_group_ok(slots_target(mg, raws), mg.target.groups@, bg, g),
        !bg.start_side,
    ensures
        own_curves(bg) == group_curves(
            side_norm(mg.target, mg.target.count_spec(), morph_cap(mg)),
            g,
        ),
{
    assert(own_curves(bg) =~= bg.segments@.map_values(|ms: MorphSegment| ms.target));
    let cap = morph_cap(mg);
    let nt = side_norm(mg.target, mg.target.count_spec(), cap);
    let ls = start_norm(mg).len() as int;
    let slots = slots_target(mg, raws);
    let half = pool_zip(mg, raws).skip(ls);
    let f = |ms: MorphSegment| ms.target;
    let sm = |y: (MorphSegment, GroupRaw)| (f(y.0), y.1);
    lemma_balanced_total(mg.target, cap);
    assert(slots.map_values(sm) =~= half);
    lemma_bucket_projects(slots, g, f);
    lemma_sort_project_commute(bucket_from(slots, g), f);
    lemma_half_restores(half, nt, g);
    let sorted = sort_by_pos(bucket_from(slots, g));
    assert(bg.segments@.map_values(f) =~= sorted.map_values(pair_map(f)).map_values(
        |x: (BezierCurve, usize)| x.0,
    ));
    assert(sorted.map_values(pair_map(f)) == sort_by_pos(pair_bucket(half, g)));
    assert(bg.segments@.map_values(f) =~= group_curves(nt, g));
}

/// Count balancing is exact on every well-formed side: the decompositions
/// sum to exactly the shared total, so both sides of a live pairing yield
/// parallel runs of exactly `cap` curves.
pub proof fn lemma_balanced_total(g: Graphic, cap: int)
    requires
        g.wf(),
        1 <= g.count_spec() <= cap,
    ensures
        side_norm(g, g.count_spec(), cap).len() == cap,
{
    let c = g.count_spec();
    let flat = flat_segments(g);
    let n = flat.len() as int;
    let e = cap - c;
    lemma_flat_count_graphic(g);
    lemma_flat_count_bounds(flat);
    assert(n >= 1) by {
        if flat.len() == 0 {
            assert(flat_count(flat) == 0);
        }
    }
    let ex = e / n;
    let r = e % n;
    lemma_norm_from_len(flat, 0, n, c, cap);
    assert(0 <= r < n) by {
        vstd::arithmetic::div_mod::lemma_mod_bound(e, n);
    }
    assert(e == n * ex + r) by {
        vstd::arithmetic::div_mod::lemma_fundamental_div_mod(e, n);
    }
    assert(hits_below(0, n, r) == r);
}

/// A live pairing is a parallel pair of runs of exactly the shared total:
/// each side normalizes to `morph_cap` curves and the pool holds both.
pub proof fn lemma_pool_holds_shared_total(mg: MorphGraphic, raws: GroupsRaw)
    requires
        morph_wf(mg, raws),
        morph_paired(mg, raws),
        morph_active(mg),
    ensures
        start_norm(mg).len() == morph_cap(mg),
        target_norm(mg).len() == morph_cap(mg),
        mg.beziers@.len() == 2 * morph_cap(mg),
{
    lemma_balanced_total(mg.start, morph_cap(mg));
    lemma_balanced_total(mg.target, morph_cap(mg));
}

/// At either end of the blend a frame issues exactly the commands of one
/// graphic alone: the start graphic at parameter zero, the target at one.
/// When exactly one side is degenerate the fallback overrides the
/// endpoints too; see [`lemma_degenerate_fallback`].
pub proof fn lemma_draw_endpoints(mg: MorphGraphic, l: GroupsLinked)
    requires
        mg.start.count_spec() >= 1 <==> mg.target.count_spec() >= 1,
    ensures
        morph_draw_cmds(mg, l, 0) == graphic_cmds(mg.start),
        morph_draw_cmds(mg, l, ONE as int) == graphic_cmds(mg.target),
{
}

/// With exactly one degenerate side, every frame draws the viable side
/// alone, whatever the blend parameter — no division by zero and no
/// discontinuity at the endpoints.
pub proof fn lemma_degenerate_fallback(mg: MorphGraphic, l: GroupsLinked, t: int)
    requires
        0 <= t <= ONE,
        mg.start.count_spec() == 0 || mg.target.count_spec() == 0,
        mg.start.count_spec() >= 1 || mg.target.count_spec() >= 1,
    ensures
        mg.start.count_spec() == 0 ==> morph_draw_cmds(mg, l, t) == graphic_cmds(mg.target),
        mg.target.count_spec() == 0 ==> morph_draw_cmds(mg, l, t) == graphic_cmds(mg.start),
{
}

/// The two passes of a blended frame never contribute their full look at
/// the same time. At mid-blend the identity overlay vanishes exactly: its
/// opacity factor and its painted stroke width are both zero. At either
/// endpoint the overlay is at full opacity and full width, while the
/// silhouette pass strokes at the active side's own width exactly.
pub proof fn lemma_overlay_factors(width: i64, own: i64, other: i64)
    ensures
        fade_spec(HALF as int) == 0,
        scale_spec(width as int, fade_spec(HALF as int), ONE as int) == 0,
        fade_spec(0) == ONE,
        fade_spec(ONE as int) == ONE,
        scale_spec(width as int, fade_spec(0), ONE as int) == width,
        blend_u(0) == 0,
        blend_u(ONE as int) == 0,
        lerp_spec(own as int, other as int, blend_u(0), ONE as int) == own,
        lerp_spec(own as int, other as int, blend_u(ONE as int), ONE as int) == own,
{
    crate::fixed::lemma_scale_endpoints(width as int, ONE as int);
    crate::fixed::lemma_lerp_endpoints(own as int, other as int, ONE as int);
}

} // verus!
