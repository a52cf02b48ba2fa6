//! Curb-line polygons along sidewalk corners: the same corner walk as the
//! corner polygons, but offset by a fixed curb thickness toward the road,
//! mirrored by the driving-side configuration, and extended by a short
//! run-out at each end so curbs terminate flush.

use vstd::prelude::*;
use crate::geometry::{
    clean, dedup_adj, div_t, div_trunc, galong, gdist_sq, gopposite, gseg_len, gshift_off,
    gshift_pt, in_box, lemma_box_mono, lemma_dedup_adj_props, lemma_div_t_neg, lemma_galong_near,
    lemma_gshift_off_bound, lemma_seg_len_pos, lemma_shift_pl_box, polys_view, pts_in_box,
    pts_view, shift_pl, thick_loop, GPt, PolyLine, Polygon, Pt, EPSILON_SQ, MAP_BOUND, MAX_PTS,
    PT_BOUND, WORK_BOUND,
};
use crate::model::{DrivingSide, Intersection, Lane, MapModel, Turn, TurnType};
use crate::corners::owns_corner;

verus! {

/// Curb thickness (0.2 m in mm).
pub const CURB_THICKNESS: i64 = 200;

/// The unsigned offset that centers a curb of fixed thickness at the edge
/// of a lane of the given width.
pub open spec fn curb_shift(width: int) -> int {
    div_t(width - CURB_THICKNESS, 2)
}

/// The signed curb offset: mirrored by the driving side. Right-hand traffic
/// shifts the curb the other way round than left-hand traffic.
pub open spec fn curb_offset(side: DrivingSide, width: int) -> int {
    if side == DrivingSide::Right {
        -curb_shift(width)
    } else {
        curb_shift(width)
    }
}

/// The curb point walk for two lanes of equal width, before deduplication:
/// a run-out behind the source lane's end, the source lane's shifted end,
/// the shifted turn geometry, the destination lane's shifted start, and a
/// run-out beyond it.
pub open spec fn curb_loop_pts(l1: Lane, l2: Lane, g: Seq<GPt>, d: int) -> Seq<GPt> {
    let l2a = l2.lane_center_pts@[0];
    let l2b = l2.lane_center_pts@[1];
    let m = l1.lane_center_pts@.len();
    let l1a = l1.lane_center_pts@[m - 2];
    let l1b = l1.lane_center_pts@[m - 1];
    let p1s = gshift_pt(l1a, l1a, l1b, d);
    let p2s = gshift_pt(l1b, l1a, l1b, d);
    let f2a = gshift_pt(l2a, l2a, l2b, d);
    let f2b = gshift_pt(l2b, l2a, l2b, d);
    seq![galong(p2s, p1s, CURB_THICKNESS as int), p2s] + shift_pl(g, d) + seq![
        f2a,
        galong(f2a, f2b, CURB_THICKNESS as int),
    ]
}

/// The curb point walk joining two lanes of unequal width: each lane end
/// offset by its own curb shift, with a run-out at each end.
pub open spec fn curb_quad_pts(l1: Lane, l2: Lane, d1: int, d2: int) -> Seq<GPt> {
    let l2a = l2.lane_center_pts@[0];
    let l2b = l2.lane_center_pts@[1];
    let m = l1.lane_center_pts@.len();
    let l1a = l1.lane_center_pts@[m - 2];
    let l1b = l1.lane_center_pts@[m - 1];
    let p1s = gshift_pt(l1a, l1a, l1b, d1);
    let p2s = gshift_pt(l1b, l1a, l1b, d1);
    let f2a = gshift_pt(l2a, l2a, l2b, d2);
    let f2b = gshift_pt(l2b, l2a, l2b, d2);
    seq![
        galong(p2s, p1s, CURB_THICKNESS as int),
        p2s,
        f2a,
        galong(f2a, f2b, CURB_THICKNESS as int),
    ]
}

/// The curb polygon one owned turn contributes, if geometry permits one.
pub open spec fn curb_for_turn(map: MapModel, i: Intersection, t: Turn, side: DrivingSide)
    -> Option<Seq<GPt>> {
    let l1 = map.lanes@[t.id.src.0 as int];
    let l2 = map.lanes@[t.id.dst.0 as int];
    if l1.width == l2.width {
        if clean(t.geom@) {
            let pts = curb_loop_pts(l1, l2, t.geom@, curb_offset(side, l1.width as int));
            let ded = dedup_adj(pts);
            if 2 <= ded.len() <= MAX_PTS && clean(ded) {
                Some(thick_loop(ded, CURB_THICKNESS as int))
            } else {
                None
            }
        } else {
            None
        }
    } else {
        let pts = curb_quad_pts(
            l1,
            l2,
            curb_offset(side, l1.width as int),
            curb_offset(side, l2.width as int),
        );
        let ded = dedup_adj(pts);
        if 2 <= ded.len() <= MAX_PTS && clean(ded) {
            Some(thick_loop(ded, CURB_THICKNESS as int))
        } else {
            None
        }
    }
}

/// The curb polygons contributed by the first `k` turns of the map.
pub open spec fn curbs_upto(map: MapModel, i: Intersection, side: DrivingSide, k: int)
    -> Seq<Seq<GPt>>
    decreases k,
{
    if k <= 0 {
        Seq::empty()
    } else {
        curbs_upto(map, i, side, k - 1) + (if owns_corner(map, i, map.turns@[k - 1]) {
            match curb_for_turn(map, i, map.turns@[k - 1], side) {
                Some(p) => seq![p],
                None => Seq::empty(),
            }
        } else {
            Seq::empty()
        })
    }
}

/// All curb polygons of intersection `i`.
pub open spec fn curbs_spec(map: MapModel, i: Intersection, side: DrivingSide) -> Seq<Seq<GPt>> {
    if i.footway {
        Seq::empty()
    } else {
        curbs_upto(map, i, side, map.turns@.len() as int)
    }
}

/// Negating the shift distance exactly negates a segment's offset vector.
proof fn lemma_gshift_off_neg(a: GPt, b: GPt, d: int)
    requires
        gseg_len(a, b) > 0,
    ensures
        gshift_off(a, b, -d) == gopposite(gshift_off(a, b, d)),
{
    let len = gseg_len(a, b);
    assert((b.y - a.y) * (-d) == -((b.y - a.y) * d)) by (nonlinear_arith);
    assert((a.x - b.x) * (-d) == -((a.x - b.x) * d)) by (nonlinear_arith);
    lemma_div_t_neg((b.y - a.y) * d, len);
    lemma_div_t_neg((a.x - b.x) * d, len);
}

/// Negating the shift distance exactly mirrors every point of a shifted
/// polyline across the base polyline.
proof fn lemma_shift_pl_mirror(g: Seq<GPt>, d: int, k: int)
    requires
        clean(g),
        g.len() >= 2,
        0 <= k < g.len(),
    ensures
        shift_pl(g, d)[k].x + shift_pl(g, -d)[k].x == 2 * g[k].x,
        shift_pl(g, d)[k].y + shift_pl(g, -d)[k].y == 2 * g[k].y,
{
    let n = g.len() as int;
    if k == 0 {
        let j: int = 0;
        assert(gdist_sq(g[j], g[j + 1]) > EPSILON_SQ);
        lemma_seg_len_pos(g[0], g[1]);
        lemma_gshift_off_neg(g[0], g[1], d);
    } else if k == n - 1 {
        let j = k - 1;
        assert(gdist_sq(g[j], g[j + 1]) > EPSILON_SQ);
        lemma_seg_len_pos(g[k - 1], g[k]);
        lemma_gshift_off_neg(g[k - 1], g[k], d);
    } else {
        let j = k - 1;
        assert(gdist_sq(g[j], g[j + 1]) > EPSILON_SQ);
        assert(gdist_sq(g[k], g[k + 1]) > EPSILON_SQ);
        lemma_seg_len_pos(g[k - 1], g[k]);
        lemma_seg_len_pos(g[k], g[k + 1]);
        lemma_gshift_off_neg(g[k - 1], g[k], d);
        lemma_gshift_off_neg(g[k], g[k + 1], d);
        let oa = gshift_off(g[k - 1], g[k], d);
        let ob = gshift_off(g[k], g[k + 1], d);
        assert(-(oa.x) + -(ob.x) == -(oa.x + ob.x));
        lemma_div_t_neg(oa.x + ob.x, 2);
        lemma_div_t_neg(oa.y + ob.y, 2);
    }
}

/// Mirror symmetry of the curb walk under the driving-side configuration:
/// for identical input geometry, flipping the driving side flips the offset
/// direction of every curb point — each point of the left-hand walk is the
/// exact reflection of the corresponding right-hand point across the
/// unshifted base path. Stated for the equal-width corner walk.
pub proof fn lemma_curb_side_mirror(l1: Lane, l2: Lane, g: Seq<GPt>, k: int)
    requires
        clean(g),
        g.len() >= 2,
        clean(l1.lane_center_pts@),
        clean(l2.lane_center_pts@),
        l1.lane_center_pts@.len() >= 2,
        l2.lane_center_pts@.len() >= 2,
        0 <= k < curb_loop_pts(l1, l2, g, curb_offset(DrivingSide::Left, l1.width as int)).len(),
    ensures
        curb_loop_pts(l1, l2, g, curb_offset(DrivingSide::Left, l1.width as int)).len()
            == curb_loop_pts(l1, l2, g, curb_offset(DrivingSide::Right, l1.width as int)).len(),
        curb_loop_pts(l1, l2, g, curb_offset(DrivingSide::Left, l1.width as int))[k].x
            + curb_loop_pts(l1, l2, g, curb_offset(DrivingSide::Right, l1.width as int))[k].x
            == 2 * curb_base_pts(l1, l2, g)[k].x,
        curb_loop_pts(l1, l2, g, curb_offset(DrivingSide::Left, l1.width as int))[k].y
            + curb_loop_pts(l1, l2, g, curb_offset(DrivingSide::Right, l1.width as int))[k].y
            == 2 * curb_base_pts(l1, l2, g)[k].y,
{
    let d = curb_shift(l1.width as int);
    let lhs = curb_loop_pts(l1, l2, g, d);
    let rhs = curb_loop_pts(l1, l2, g, -d);
    let base = curb_base_pts(l1, l2, g);
    let n = g.len() as int;
    let l2a = l2.lane_center_pts@[0];
    let l2b = l2.lane_center_pts@[1];
    let m = l1.lane_center_pts@.len();
    let l1a = l1.lane_center_pts@[m - 2];
    let l1b = l1.lane_center_pts@[m - 1];
    let j0: int = 0;
    assert(gdist_sq(l2.lane_center_pts@[j0], l2.lane_center_pts@[j0 + 1]) > EPSILON_SQ);
    let jm: int = m - 2;
    assert(gdist_sq(l1.lane_center_pts@[jm], l1.lane_center_pts@[jm + 1]) > EPSILON_SQ);
    lemma_seg_len_pos(l1a, l1b);
    lemma_seg_len_pos(l2a, l2b);
    lemma_gshift_off_neg(l1a, l1b, d);
    lemma_gshift_off_neg(l2a, l2b, d);
    let t = CURB_THICKNESS as int;
    let off1 = gshift_off(l1a, l1b, d);
    let off2 = gshift_off(l2a, l2b, d);
    let p1s = gshift_pt(l1a, l1a, l1b, d);
    let p2s = gshift_pt(l1b, l1a, l1b, d);
    let p1sn = gshift_pt(l1a, l1a, l1b, -d);
    let p2sn = gshift_pt(l1b, l1a, l1b, -d);
    assert(gdist_sq(p2s, p1s) == gdist_sq(l1b, l1a));
    assert(gdist_sq(p2sn, p1sn) == gdist_sq(l1b, l1a));
    assert(galong(p2s, p1s, t).x == galong(l1b, l1a, t).x + off1.x);
    assert(galong(p2s, p1s, t).y == galong(l1b, l1a, t).y + off1.y);
    assert(galong(p2sn, p1sn, t).x == galong(l1b, l1a, t).x - off1.x);
    assert(galong(p2sn, p1sn, t).y == galong(l1b, l1a, t).y - off1.y);
    let f2a = gshift_pt(l2a, l2a, l2b, d);
    let f2b = gshift_pt(l2b, l2a, l2b, d);
    let f2an = gshift_pt(l2a, l2a, l2b, -d);
    let f2bn = gshift_pt(l2b, l2a, l2b, -d);
    assert(gdist_sq(f2a, f2b) == gdist_sq(l2a, l2b));
    assert(gdist_sq(f2an, f2bn) == gdist_sq(l2a, l2b));
    assert(galong(f2a, f2b, t).x == galong(l2a, l2b, t).x + off2.x);
    assert(galong(f2a, f2b, t).y == galong(l2a, l2b, t).y + off2.y);
    assert(galong(f2an, f2bn, t).x == galong(l2a, l2b, t).x - off2.x);
    assert(galong(f2an, f2bn, t).y == galong(l2a, l2b, t).y - off2.y);
    if 2 <= k < n + 2 {
        lemma_shift_pl_mirror(g, d, k - 2);
        assert(lhs[k] == shift_pl(g, d)[k - 2]);
        assert(rhs[k] == shift_pl(g, -d)[k - 2]);
        assert(base[k] == g[k - 2]);
    }
}

/// The unshifted base path of the equal-width curb walk: the reflection
/// axis of `lemma_curb_side_mirror`.
pub open spec fn curb_base_pts(l1: Lane, l2: Lane, g: Seq<GPt>) -> Seq<GPt> {
    let l2a = l2.lane_center_pts@[0];
    let l2b = l2.lane_center_pts@[1];
    let m = l1.lane_center_pts@.len();
    let l1a = l1.lane_center_pts@[m - 2];
    let l1b = l1.lane_center_pts@[m - 1];
    seq![galong(l1b, l1a, CURB_THICKNESS as int), l1b] + g + seq![
        l2a,
        galong(l2a, l2b, CURB_THICKNESS as int),
    ]
}

/// Builds the curb polygon for two equal-width lanes, offset by `d`.
#[verifier::rlimit(60)]
fn curb_equal_piece(l1: &Lane, l2: &Lane, t: &Turn, d: i64) -> (r: Option<Polygon>)
    requires
        clean(l1.lane_center_pts@),
        clean(l2.lane_center_pts@),
        pts_in_box(l1.lane_center_pts@, MAP_BOUND as int),
        pts_in_box(l2.lane_center_pts@, MAP_BOUND as int),
        2 <= l1.lane_center_pts@.len() <= MAX_PTS,
        2 <= l2.lane_center_pts@.len() <= MAX_PTS,
        pts_in_box(t.geom@, MAP_BOUND as int),
        2 <= t.geom@.len() <= MAX_PTS,
        -15_000 <= d <= 15_000,
    ensures
        ({
            let pts = curb_loop_pts(*l1, *l2, t.geom@, d as int);
            let ded = dedup_adj(pts);
            &&& (r is Some <==> clean(t.geom@) && 2 <= ded.len() <= MAX_PTS && clean(ded))
            &&& (r is Some ==> r->Some_0@ == thick_loop(ded, CURB_THICKNESS as int)
                && r->Some_0.wf())
        }),
{
    let ghost g = t.geom@;
    proof {
        lemma_box_mono(t.geom@, MAP_BOUND as int, WORK_BOUND as int);
        lemma_box_mono(l1.lane_center_pts@, MAP_BOUND as int, WORK_BOUND as int);
        lemma_box_mono(l2.lane_center_pts@, MAP_BOUND as int, WORK_BOUND as int);
        let j0: int = 0;
        assert(gdist_sq(l2.lane_center_pts@[j0], l2.lane_center_pts@[j0 + 1]) > EPSILON_SQ);
        let jm: int = l1.lane_center_pts@.len() - 2;
        assert(gdist_sq(l1.lane_center_pts@[jm], l1.lane_center_pts@[jm + 1]) > EPSILON_SQ);
        assert(in_box(l1.lane_center_pts@[jm], MAP_BOUND as int));
        assert(in_box(l1.lane_center_pts@[jm + 1], MAP_BOUND as int));
        assert(in_box(l2.lane_center_pts@[j0], MAP_BOUND as int));
        assert(in_box(l2.lane_center_pts@[j0 + 1], MAP_BOUND as int));
    }
    let l1_last = l1.lane_center_pts.last_line();
    let l2_first = l2.lane_center_pts.first_line();
    let shifted = match t.geom.shift_either(d) {
        Some(pl) => pl,
        None => {
            return None;
        },
    };
    let sl = l1_last.shift(d);
    let rev = sl.reverse();
    proof {
        lemma_seg_len_pos(l1_last.p1@, l1_last.p2@);
        lemma_gshift_off_bound(l1_last.p1@, l1_last.p2@, d as int);
        crate::geometry::lemma_gdist_sq_sym(sl.p1@, sl.p2@);
        assert(rev.in_box_l(WORK_BOUND as int));
    }
    let ext1 = rev.unbounded_dist_along(CURB_THICKNESS);
    let f2 = l2_first.shift(d);
    proof {
        lemma_seg_len_pos(l2_first.p1@, l2_first.p2@);
        lemma_gshift_off_bound(l2_first.p1@, l2_first.p2@, d as int);
        assert(f2.in_box_l(WORK_BOUND as int));
    }
    let ext2 = f2.unbounded_dist_along(CURB_THICKNESS);
    let mut pts: Vec<Pt> = Vec::new();
    pts.push(ext1);
    pts.push(rev.p1);
    let mut q: usize = 0;
    let sn = shifted.pts.len();
    while q < sn
        invariant
            sn == shifted.pts@.len(),
            pts@.len() == 2 + q,
            q <= sn,
            pts@[0] == ext1,
            pts@[1] == rev.p1,
            forall|z: int| 0 <= z < q ==> pts@[z + 2] == shifted.pts@[z],
        decreases sn - q,
    {
        pts.push(shifted.pts[q]);
        q = q + 1;
    }
    pts.push(f2.p1);
    pts.push(ext2);
    let ghost walk = curb_loop_pts(*l1, *l2, g, d as int);
    proof {
        assert(pts_view(pts@) =~= walk);
        lemma_shift_pl_box(g, d as int, MAP_BOUND as int);
        lemma_seg_len_pos(rev.p1@, rev.p2@);
        lemma_galong_near(rev.p1@, rev.p2@, CURB_THICKNESS as int);
        lemma_seg_len_pos(f2.p1@, f2.p2@);
        lemma_galong_near(f2.p1@, f2.p2@, CURB_THICKNESS as int);
        assert(pts_in_box(walk, 10_300_000)) by {
            assert(forall|z: int|
                0 <= z < walk.len() - 4 ==> walk[z + 2] == #[trigger] shift_pl(g, d as int)[z]);
        }
    }
    match PolyLine::deduping_new(pts) {
        Some(pl) => {
            proof {
                lemma_dedup_adj_props(walk, 10_300_000);
                lemma_box_mono(dedup_adj(walk), 10_300_000, WORK_BOUND as int);
                lemma_box_mono(dedup_adj(walk), 10_300_000, PT_BOUND as int);
            }
            pl.make_polygons(CURB_THICKNESS)
        },
        None => None,
    }
}

/// Builds the curb polygon joining two unequal-width lanes.
#[verifier::rlimit(60)]
fn curb_quad_piece(l1: &Lane, l2: &Lane, d1: i64, d2: i64) -> (r: Option<Polygon>)
    requires
        clean(l1.lane_center_pts@),
        clean(l2.lane_center_pts@),
        pts_in_box(l1.lane_center_pts@, MAP_BOUND as int),
        pts_in_box(l2.lane_center_pts@, MAP_BOUND as int),
        2 <= l1.lane_center_pts@.len() <= MAX_PTS,
        2 <= l2.lane_center_pts@.len() <= MAX_PTS,
        -15_000 <= d1 <= 15_000,
        -15_000 <= d2 <= 15_000,
    ensures
        ({
            let pts = curb_quad_pts(*l1, *l2, d1 as int, d2 as int);
            let ded = dedup_adj(pts);
            &&& (r is Some <==> 2 <= ded.len() <= MAX_PTS && clean(ded))
            &&& (r is Some ==> r->Some_0@ == thick_loop(ded, CURB_THICKNESS as int)
                && r->Some_0.wf())
        }),
{
    proof {
        lemma_box_mono(l1.lane_center_pts@, MAP_BOUND as int, WORK_BOUND as int);
        lemma_box_mono(l2.lane_center_pts@, MAP_BOUND as int, WORK_BOUND as int);
        let j0: int = 0;
        assert(gdist_sq(l2.lane_center_pts@[j0], l2.lane_center_pts@[j0 + 1]) > EPSILON_SQ);
        let jm: int = l1.lane_center_pts@.len() - 2;
        assert(gdist_sq(l1.lane_center_pts@[jm], l1.lane_center_pts@[jm + 1]) > EPSILON_SQ);
        assert(in_box(l1.lane_center_pts@[jm], MAP_BOUND as int));
        assert(in_box(l1.lane_center_pts@[jm + 1], MAP_BOUND as int));
        assert(in_box(l2.lane_center_pts@[j0], MAP_BOUND as int));
        assert(in_box(l2.lane_center_pts@[j0 + 1], MAP_BOUND as int));
    }
    let l1_last = l1.lane_center_pts.last_line();
    let l2_first = l2.lane_center_pts.first_line();
    let sl = l1_last.shift(d1);
    let rev = sl.reverse();
    proof {
        lemma_seg_len_pos(l1_last.p1@, l1_last.p2@);
        lemma_gshift_off_bound(l1_last.p1@, l1_last.p2@, d1 as int);
        crate::geometry::lemma_gdist_sq_sym(sl.p1@, sl.p2@);
        assert(rev.in_box_l(WORK_BOUND as int));
    }
    let ext1 = rev.unbounded_dist_along(CURB_THICKNESS);
    let f2 = l2_first.shift(d2);
    proof {
        lemma_seg_len_pos(l2_first.p1@, l2_first.p2@);
        lemma_gshift_off_bound(l2_first.p1@, l2_first.p2@, d2 as int);
        assert(f2.in_box_l(WORK_BOUND as int));
    }
    let ext2 = f2.unbounded_dist_along(CURB_THICKNESS);
    let mut pts: Vec<Pt> = Vec::new();
    pts.push(ext1);
    pts.push(rev.p1);
    pts.push(f2.p1);
    pts.push(ext2);
    let ghost walk = curb_quad_pts(*l1, *l2, d1 as int, d2 as int);
    proof {
        assert(pts_view(pts@) =~= walk);
        lemma_seg_len_pos(rev.p1@, rev.p2@);
        lemma_galong_near(rev.p1@, rev.p2@, CURB_THICKNESS as int);
        lemma_seg_len_pos(f2.p1@, f2.p2@);
        lemma_galong_near(f2.p1@, f2.p2@, CURB_THICKNESS as int);
        assert(pts_in_box(walk, 10_300_000));
    }
    match PolyLine::deduping_new(pts) {
        Some(pl) => {
            proof {
                lemma_dedup_adj_props(walk, 10_300_000);
                lemma_box_mono(dedup_adj(walk), 10_300_000, WORK_BOUND as int);
                lemma_box_mono(dedup_adj(walk), 10_300_000, PT_BOUND as int);
            }
            pl.make_polygons(CURB_THICKNESS)
        },
        None => None,
    }
}

/// Computes the curb polygons of intersection `i`, for the given
/// driving-side configuration.
#[verifier::loop_isolation(false)]
#[verifier::rlimit(60)]
pub fn calculate_corner_curbs(i: &Intersection, map: &MapModel, side: DrivingSide) -> (r: Vec<
    Polygon,
>)
    requires
        map.wf(),
        i.id.0 < map.n_inters(),
        *i == map.intersections@[i.id.0 as int],
    ensures
        polys_view(r@) == curbs_spec(*map, *i, side),
        forall|k: int| 0 <= k < r@.len() ==> (#[trigger] r@[k]).wf(),
{
    let mut out: Vec<Polygon> = Vec::new();
    if i.footway {
        proof {
            assert(polys_view(out@) =~= curbs_spec(*map, *i, side));
        }
        return out;
    }
    let n = map.turns.len();
    let mut k: usize = 0;
    while k < n
        invariant
            polys_view(out@) =~= curbs_upto(*map, *i, side, k as int),
            forall|j: int| 0 <= j < out@.len() ==> (#[trigger] out@[j]).wf(),
            k <= n,
        decreases n - k,
    {
        let t = &map.turns[k];
        let ghost prev = out@;
        proof {
            assert(map.turns@[k as int].wf(map.n_lanes(), map.n_inters()));
        }
        if t.id.parent == i.id && t.turn_type == TurnType::SharedSidewalkCorner {
            let l1 = map.get_l(t.id.src);
            if l1.dst_i == i.id {
                let l2 = map.get_l(t.id.dst);
                if l1.width == l2.width {
                    let sh = div_trunc(l1.width - CURB_THICKNESS, 2);
                    proof {
                        crate::geometry::lemma_div_t_bound(
                            l1.width as int - CURB_THICKNESS as int,
                            2,
                            14_900,
                        );
                    }
                    let d: i64 = if matches!(side, DrivingSide::Right) {
                        -sh
                    } else {
                        sh
                    };
                    proof {
                        assert(d as int == curb_offset(side, l1.width as int));
                    }
                    match curb_equal_piece(l1, l2, t, d) {
                        Some(p) => {
                            out.push(p);
                            proof {
                                assert(polys_view(out@) =~= polys_view(prev).push(p@));
                            }
                        },
                        None => {},
                    }
                } else {
                    let sh1 = div_trunc(l1.width - CURB_THICKNESS, 2);
                    let sh2 = div_trunc(l2.width - CURB_THICKNESS, 2);
                    proof {
                        crate::geometry::lemma_div_t_bound(
                            l1.width as int - CURB_THICKNESS as int,
                            2,
                            14_900,
                        );
                        crate::geometry::lemma_div_t_bound(
                            l2.width as int - CURB_THICKNESS as int,
                            2,
                            14_900,
                        );
                    }
                    let d1: i64 = if matches!(side, DrivingSide::Right) {
                        -sh1
                    } else {
                        sh1
                    };
                    let d2: i64 = if matches!(side, DrivingSide::Right) {
                        -sh2
                    } else {
                        sh2
                    };
                    proof {
                        assert(d1 as int == curb_offset(side, l1.width as int));
                        assert(d2 as int == curb_offset(side, l2.width as int));
                    }
                    match curb_quad_piece(l1, l2, d1, d2) {
                        Some(p) => {
                            out.push(p);
                            proof {
                                assert(polys_view(out@) =~= polys_view(prev).push(p@));
                            }
                        },
                        None => {},
                    }
                }
            }
        }
        proof {
            assert(polys_view(out@) =~= curbs_upto(*map, *i, side, k as int + 1));
        }
        k = k + 1;
    }
    out
}

} // verus!
