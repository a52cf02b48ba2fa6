//! Crosswalk markings: tiled double stripes along the crossing's long axis,
//! or a fixed eight-band rainbow pattern for crossings on a hardcoded
//! allow-list of (node, way) locations.

use vstd::prelude::*;
use crate::geometry::{
    clean, dist_sq_e, gdir, gdist_sq, ginterp, gproject, gshift_pt, in_box, lemma_box_mono,
    lemma_div_t_bound, lemma_gshift_off_bound, lemma_interp_in_box,
    lemma_seg_len_pos, lemma_shift_pl_box, lemma_slice_pts_props, pl_len, project_away,
    pts_in_box, pts_view, shift_pl, slice_pts, thick_loop, GPt, Line, Polygon, PolyLine, Pt,
    EPSILON_MM, EPSILON_SQ, MAP_BOUND, WORK_BOUND,
};
use crate::geometry::gseg_len;
use crate::model::{MapModel, Turn};
use crate::style::{rainbow_palette, rainbow_palette_spec, Color, GeomBatch, Style, tag_all};
use vstd::arithmetic::div_mod::{lemma_fundamental_div_mod, lemma_mod_bound};

verus! {

/// Sidewalk thickness (1.5 m in mm): the boundary margin and the unit the
/// stripe spacing is derived from.
pub const SIDEWALK_THICKNESS: i64 = 1_500;

/// Thickness of one crosswalk stripe (0.25 m in mm).
pub const CROSSWALK_LINE_THICKNESS: i64 = 250;

/// Stripe-pair spacing: 0.6 of a sidewalk thickness (mm).
pub const TILE_EVERY: i64 = 900;

/// Membership in the rainbow-crosswalk allow-list is an exact match on the
/// (node identifier, way identifier) pair; any other pair, including
/// near-miss identifiers, falls through to standard striping.
pub open spec fn is_rainbow_crossing(node: i64, way: i64) -> bool {
    ||| (node == 53073255 && (way == 428246441 || way == 332601014))
    ||| (node == 53073254 && (way == 6447455 || way == 607690679))
    ||| (node == 53168934 && way == 6456052)
    ||| (node == 53200834 && way == 6456052)
    ||| (node == 53068795 && (way == 607691081 || way == 65588105))
    ||| (node == 53068794 && way == 65588105)
}

/// Executable allow-list membership test.
pub fn rainbow_crossing(node: i64, way: i64) -> (r: bool)
    ensures
        r == is_rainbow_crossing(node, way),
{
    (node == 53073255 && (way == 428246441 || way == 332601014)) || (node == 53073254 && (way
        == 6447455 || way == 607690679)) || (node == 53168934 && way == 6456052) || (node
        == 53200834 && way == 6456052) || (node == 53068795 && (way == 607691081 || way
        == 65588105)) || (node == 53068794 && way == 65588105)
}

/// The arc position of the `k`-th stripe pair along a crossing of available
/// length `L`: pairs are centered in their tiles, and the leftover
/// remainder is split evenly between the two ends.
pub open spec fn stripe_pos(l: int, k: int) -> int {
    SIDEWALK_THICKNESS + (l % TILE_EVERY as int) / 2 + TILE_EVERY as int / 2 + TILE_EVERY as int
        * k
}

/// Crosswalk tiling law: a crossing of available length `L` and spacing `T`
/// carries exactly `L / T` stripe pairs, and the pairs' positions are
/// symmetric about the crossing's midpoint, to within a millimetre of
/// rounding.
pub proof fn lemma_crosswalk_tiling(l: int, k: int)
    requires
        l > 0,
        0 <= k < l / TILE_EVERY as int,
    ensures
        stripe_pos(l, k) + stripe_pos(l, l / TILE_EVERY as int - 1 - k) == 2 * SIDEWALK_THICKNESS
            + l - (l % TILE_EVERY as int) % 2,
        SIDEWALK_THICKNESS <= stripe_pos(l, k),
        stripe_pos(l, k) + 2 * CROSSWALK_LINE_THICKNESS <= l + 2 * SIDEWALK_THICKNESS - 1_000,
{
    let t = TILE_EVERY as int;
    let q = l / t;
    let rem = l % t;
    lemma_fundamental_div_mod(l, t);
    lemma_mod_bound(l, t);
    lemma_fundamental_div_mod(rem, 2);
    lemma_mod_bound(rem, 2);
    assert(l == t * q + rem);
    assert(rem == 2 * (rem / 2) + rem % 2);
    let k2 = q - 1 - k;
    assert(t * k + t * k2 == t * (q - 1)) by (nonlinear_arith)
        requires
            k2 == q - 1 - k,
    ;
    assert(t * (q - 1) == t * q - t) by (nonlinear_arith);
    assert(t * k >= 0 && t * k2 >= 0) by (nonlinear_arith)
        requires
            k >= 0,
            k2 >= 0,
            t > 0,
    ;
    assert(t * k <= t * (q - 1)) by (nonlinear_arith)
        requires
            k <= q - 1,
            t > 0,
    ;
}

/// One stripe of a crosswalk: a short rectangle perpendicular to the
/// crossing's axis at arc position `pos`, or nothing when the geometry
/// degenerates there.
pub open spec fn stripe_piece(a: GPt, b: GPt, pos: int) -> Option<Seq<GPt>> {
    let p1 = ginterp(a, b, pos);
    let p2 = gproject(p1, gdir(a, b), 1_000);
    if gdist_sq(p1, p2) > EPSILON_SQ {
        let q1 = gshift_pt(p1, p1, p2, -(SIDEWALK_THICKNESS as int / 2));
        let q2 = gshift_pt(p1, p1, p2, SIDEWALK_THICKNESS as int / 2);
        if clean(seq![q1, q2]) {
            Some(thick_loop(seq![q1, q2], CROSSWALK_LINE_THICKNESS as int))
        } else {
            None
        }
    } else {
        None
    }
}

/// A maybe-missing polygon as a run of zero or one loops.
pub open spec fn opt_poly(o: Option<Seq<GPt>>) -> Seq<Seq<GPt>> {
    match o {
        Some(p) => seq![p],
        None => Seq::empty(),
    }
}

/// The stripes of the first `k` stripe pairs: each pair is two stripes, one
/// at its position and a double offset slightly further along.
pub open spec fn stripe_pairs_upto(a: GPt, b: GPt, l: int, k: int) -> Seq<Seq<GPt>>
    decreases k,
{
    if k <= 0 {
        Seq::empty()
    } else {
        stripe_pairs_upto(a, b, l, k - 1) + opt_poly(stripe_piece(a, b, stripe_pos(l, k - 1)))
            + opt_poly(
            stripe_piece(a, b, stripe_pos(l, k - 1) + 2 * CROSSWALK_LINE_THICKNESS as int),
        )
    }
}

/// The standard crosswalk batch of a turn: `floor(L / T)` double stripes
/// along the crossing's long axis, in the general road-marking color.
/// Malformed geometry (fewer than three points, a degenerate axis, or no
/// available length) draws nothing.
pub open spec fn standard_crosswalk_spec(map: MapModel, t: Turn, cs: Style) -> Seq<
    (Color, Seq<GPt>),
> {
    let g = t.geom@;
    if g.len() < 3 {
        Seq::empty()
    } else {
        let a = g[1];
        let b = g[2];
        if gdist_sq(a, b) <= EPSILON_SQ {
            Seq::empty()
        } else {
            let l = gseg_len(a, b) - 2 * SIDEWALK_THICKNESS;
            if l <= 0 {
                Seq::empty()
            } else {
                let c = cs.general_road_marking_spec(
                    map.intersections@[t.id.parent.0 as int].rank,
                );
                tag_all(c, stripe_pairs_upto(a, b, l, l / TILE_EVERY as int))
            }
        }
    }
}

/// The first `k` bands of a rainbow crosswalk across the band-region
/// polyline `s0`.
pub open spec fn rainbow_bands_upto(s0: Seq<GPt>, bw: int, k: int) -> Seq<(Color, Seq<GPt>)>
    decreases k,
{
    if k <= 0 {
        Seq::empty()
    } else {
        rainbow_bands_upto(s0, bw, k - 1) + ({
            let band = shift_pl(s0, -(bw * (k - 1)));
            if clean(s0) && clean(band) && bw > EPSILON_MM {
                seq![(rainbow_palette_spec(k - 1), thick_loop(band, bw))]
            } else {
                Seq::<(Color, Seq<GPt>)>::empty()
            }
        })
    }
}

/// The rainbow crosswalk batch of an allow-listed turn: the turn geometry
/// sliced to a band region inset one lane width at each end, split into
/// eight bands colored from the fixed palette. Degenerate geometry draws
/// nothing.
pub open spec fn rainbow_spec(map: MapModel, t: Turn) -> Seq<(Color, Seq<GPt>)> {
    let w = map.lanes@[t.id.src.0 as int].width as int;
    let g = t.geom@;
    let len = pl_len(g);
    if len <= 2 * w || w < 8 {
        Seq::empty()
    } else {
        let sl = slice_pts(g, w, len - w);
        if !clean(sl) {
            Seq::empty()
        } else {
            let bw = w / 8;
            let s0 = shift_pl(sl, w / 2 - bw / 2);
            rainbow_bands_upto(s0, bw, 8)
        }
    }
}

/// The full crosswalk batch of a turn: rainbow for allow-listed crossings,
/// standard stripes otherwise.
pub open spec fn crosswalk_batch_spec(map: MapModel, t: Turn, cs: Style) -> Seq<
    (Color, Seq<GPt>),
> {
    let node = map.intersections@[t.id.parent.0 as int].orig_node_id;
    let way = map.roads@[map.lanes@[t.id.src.0 as int].parent.0 as int].orig_way_id;
    if is_rainbow_crossing(node, way) {
        rainbow_spec(map, t)
    } else {
        standard_crosswalk_spec(map, t, cs)
    }
}

/// Builds one stripe rectangle, or declines on degenerate geometry.
#[verifier::rlimit(60)]
fn stripe_at(line: &Line, pos: i64) -> (r: Option<Polygon>)
    requires
        line.wf(),
        line.in_box_l(MAP_BOUND as int),
        0 <= pos <= line.len(),
    ensures
        r is Some <==> stripe_piece(line.p1@, line.p2@, pos as int) is Some,
        r is Some ==> r->Some_0@ == stripe_piece(line.p1@, line.p2@, pos as int)->Some_0
            && r->Some_0.wf(),
{
    proof {
        lemma_interp_in_box(line.p1@, line.p2@, pos as int, MAP_BOUND as int);
    }
    let pt1 = crate::geometry::interp_e(line.p1, line.p2, pos);
    let dir = line.dir();
    let pt2 = project_away(pt1, 1_000, dir);
    proof {
        assert(in_box(pt2@, MAP_BOUND as int + 1_000));
    }
    let dsq = dist_sq_e(pt1, pt2);
    if dsq <= EPSILON_SQ {
        return None;
    }
    let axis = Line { p1: pt1, p2: pt2 };
    proof {
        lemma_seg_len_pos(pt1@, pt2@);
        lemma_gshift_off_bound(pt1@, pt2@, SIDEWALK_THICKNESS as int / 2);
        lemma_gshift_off_bound(pt1@, pt2@, -(SIDEWALK_THICKNESS as int / 2));
    }
    let half = SIDEWALK_THICKNESS / 2;
    let q1 = axis.shift(-half).p1;
    let q2 = axis.shift(half).p1;
    let mut pts: Vec<Pt> = Vec::new();
    pts.push(q1);
    pts.push(q2);
    proof {
        assert(pts_view(pts@) =~= seq![q1@, q2@]);
    }
    let pl = PolyLine::new(pts);
    pl.make_polygons(CROSSWALK_LINE_THICKNESS)
}

/// Appends the markings of one pedestrian crossing to a batch: rainbow for
/// allow-listed crossings, tiled double stripes otherwise. Malformed
/// crossing geometry appends nothing — it must never abort rendering.
#[verifier::loop_isolation(false)]
#[verifier::rlimit(90)]
pub fn make_crosswalk(batch: &mut GeomBatch, t: &Turn, map: &MapModel, cs: &Style)
    requires
        map.wf(),
        t.id.parent.0 < map.n_inters(),
        t.id.src.0 < map.n_lanes(),
        t.geom.wf(),
        pts_in_box(t.geom@, MAP_BOUND as int),
    ensures
        final(batch)@ == old(batch)@ + crosswalk_batch_spec(*map, *t, *cs),
{
    let ghost start = batch@;
    let node = map.get_i(t.id.parent).orig_node_id;
    let lane = map.get_l(t.id.src);
    let way = map.get_r(lane.parent).orig_way_id;
    if rainbow_crossing(node, way) {
        make_rainbow_crosswalk(batch, t, map);
        proof {
            assert(batch@ =~= start + crosswalk_batch_spec(*map, *t, *cs));
        }
        return ;
    }
    let ghost g = t.geom@;
    if t.geom.len_pts() < 3 {
        proof {
            assert(batch@ =~= start + crosswalk_batch_spec(*map, *t, *cs));
        }
        return ;
    }
    let pa = t.geom.get_pt(1);
    let pb = t.geom.get_pt(2);
    proof {
        assert(in_box(g[1], MAP_BOUND as int));
        assert(in_box(g[2], MAP_BOUND as int));
    }
    let dsq = dist_sq_e(pa, pb);
    if dsq <= EPSILON_SQ {
        proof {
            assert(batch@ =~= start + crosswalk_batch_spec(*map, *t, *cs));
        }
        return ;
    }
    let line = Line { p1: pa, p2: pb };
    let line_len = line.length();
    let avail = line_len - 2 * SIDEWALK_THICKNESS;
    if avail <= 0 {
        proof {
            assert(batch@ =~= start + crosswalk_batch_spec(*map, *t, *cs));
        }
        return ;
    }
    let color = cs.general_road_marking_color(map.get_i(t.id.parent).rank);
    let num = avail / TILE_EVERY;
    let rem = avail % TILE_EVERY;
    let base = SIDEWALK_THICKNESS + rem / 2 + TILE_EVERY / 2;
    let ghost spec_stripes = stripe_pairs_upto(g[1], g[2], avail as int, avail as int
        / TILE_EVERY as int);
    let mut k: i64 = 0;
    while k < num
        invariant
            0 <= k <= num,
            batch@ =~= start + tag_all(
                color,
                stripe_pairs_upto(g[1], g[2], avail as int, k as int),
            ),
        decreases num - k,
    {
        proof {
            lemma_crosswalk_tiling(avail as int, k as int);
            assert(base + k * TILE_EVERY == stripe_pos(avail as int, k as int));
        }
        let pos = base + k * TILE_EVERY;
        let ghost before_pair = batch@;
        match stripe_at(&line, pos) {
            Some(p) => {
                batch.push(color, p);
            },
            None => {},
        }
        match stripe_at(&line, pos + 2 * CROSSWALK_LINE_THICKNESS) {
            Some(p) => {
                batch.push(color, p);
            },
            None => {},
        }
        proof {
            assert(batch@ =~= start + tag_all(
                color,
                stripe_pairs_upto(g[1], g[2], avail as int, k as int + 1),
            ));
        }
        k = k + 1;
    }
    proof {
        assert(batch@ =~= start + crosswalk_batch_spec(*map, *t, *cs));
    }
}

/// Appends the eight rainbow bands of an allow-listed crossing.
#[verifier::loop_isolation(false)]
#[verifier::rlimit(90)]
fn make_rainbow_crosswalk(batch: &mut GeomBatch, t: &Turn, map: &MapModel)
    requires
        map.wf(),
        t.id.src.0 < map.n_lanes(),
        t.geom.wf(),
        pts_in_box(t.geom@, MAP_BOUND as int),
    ensures
        final(batch)@ == old(batch)@ + rainbow_spec(*map, *t),
{
    let ghost start = batch@;
    let ghost g = t.geom@;
    let lane = map.get_l(t.id.src);
    let w = lane.width;
    proof {
        lemma_box_mono(g, MAP_BOUND as int, WORK_BOUND as int);
        crate::geometry::lemma_pl_len_bounds(g);
    }
    let len = t.geom.length();
    if len <= 2 * w || w < 8 {
        proof {
            assert(batch@ =~= start + rainbow_spec(*map, *t));
        }
        return ;
    }
    proof {
        lemma_slice_pts_props(g, w as int, len as int - w as int, MAP_BOUND as int);
    }
    let sl = t.geom.exact_slice(w, len - w);
    let bw = w / 8;
    let off0 = w / 2 - bw / 2;
    proof {
        lemma_div_t_bound(w as int, 2, 15_000);
        lemma_div_t_bound(w as int, 8, 3_750);
    }
    let s0 = match sl.shift_either(off0) {
        Some(pl) => pl,
        None => {
            proof {
                assert(batch@ =~= start + rainbow_spec(*map, *t));
            }
            return ;
        },
    };
    let ghost s0v = s0@;
    proof {
        lemma_shift_pl_box(sl@, off0 as int, MAP_BOUND as int);
        assert(pts_in_box(s0v, MAP_BOUND as int + 15_000));
        lemma_box_mono(s0v, MAP_BOUND as int + 15_000, WORK_BOUND as int);
    }
    let mut idx: usize = 0;
    while idx < 8
        invariant
            idx <= 8,
            batch@ =~= start + rainbow_bands_upto(s0v, bw as int, idx as int),
        decreases 8 - idx,
    {
        proof {
            lemma_div_t_bound(w as int, 8, 3_750);
            assert(bw as int * (idx as int) <= 8 * 3_750) by (nonlinear_arith)
                requires
                    0 <= bw as int <= 3_750,
                    0 <= idx as int <= 8,
            ;
            assert(bw as int * (idx as int) >= 0) by (nonlinear_arith)
                requires
                    bw as int >= 0,
                    idx as int >= 0,
            ;
        }
        let shift_amt = -(bw * (idx as i64));
        match s0.shift_either(shift_amt) {
            Some(band_pl) => {
                proof {
                    lemma_shift_pl_box(s0v, shift_amt as int, MAP_BOUND as int + 15_000);
                    lemma_box_mono(
                        band_pl@,
                        MAP_BOUND as int + 15_000 + 30_000,
                        WORK_BOUND as int,
                    );
                }
                let c = rainbow_palette(idx);
                match band_pl.make_polygons(bw) {
                    Some(p) => {
                        batch.push(c, p);
                    },
                    None => {},
                }
            },
            None => {},
        }
        proof {
            assert(batch@ =~= start + rainbow_bands_upto(s0v, bw as int, idx as int + 1));
        }
        idx = idx + 1;
    }
    proof {
        assert(batch@ =~= start + rainbow_spec(*map, *t));
    }
}

} // verus!
