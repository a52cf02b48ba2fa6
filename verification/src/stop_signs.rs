//! Stop-sign glyph placement: an octagon and a pole at the end of a
//! stop-controlled approach lane, or "no room" when the lane is too short.
//!
//! The approach's edge lane is trimmed a fixed 0.1 m at its far end; if the
//! remainder is at or below the degeneracy tolerance there is no room. The
//! glyph sits on the last segment of the trimmed centerline, shifted
//! outward by the lane's width on the side dictated by the driving-side
//! configuration.

use vstd::prelude::*;
use crate::geometry::{
    clean, gdir, gdist_sq, gopposite, gproject, gshift_pt, in_box, lemma_box_mono,
    lemma_gshift_off_bound, lemma_seg_len_pos, lemma_slice_pts_props, make_octagon, octagon_loop,
    pl_len, project_away, pts_view, slice_pts, thick_loop, Dir, GPt, Line, Polygon,
    PolyLine, Pt, EPSILON_MM, EPSILON_SQ, MAP_BOUND, WORK_BOUND,
};
use crate::model::{DrivingSide, MapModel, RoadWithStopSign};

verus! {

/// How much is trimmed off the far end of the approach lane (0.1 m in mm).
pub const TRIM_BACK_MM: i64 = 100;

/// Radius of the stop-sign octagon (1.0 m in mm).
pub const OCTAGON_RADIUS_MM: i64 = 1_000;

/// Width of the stop-sign pole (0.3 m in mm).
pub const POLE_WIDTH_MM: i64 = 300;

/// Far end of the pole behind the octagon (1.5 m in mm).
pub const POLE_FAR_MM: i64 = 1_500;

/// Near end of the pole behind the octagon (0.9 m in mm).
pub const POLE_NEAR_MM: i64 = 900;

/// The stop-sign glyph of one approach: octagon loop, pole loop, and facing
/// heading — or `None` when there is no room or the geometry degenerates.
pub open spec fn stop_sign_spec(map: MapModel, ss: RoadWithStopSign, side: DrivingSide) -> Option<
    (Seq<GPt>, Seq<GPt>, GPt),
> {
    let lane = map.lanes@[ss.lane_closest_to_edge.0 as int];
    let g = lane.lane_center_pts@;
    let len = pl_len(g);
    if len - TRIM_BACK_MM <= EPSILON_MM {
        None
    } else {
        let sl = slice_pts(g, 0, len - TRIM_BACK_MM);
        let a = sl[sl.len() - 2];
        let b = sl[sl.len() - 1];
        if gdist_sq(a, b) <= EPSILON_SQ {
            None
        } else {
            let d: int = if side == DrivingSide::Right {
                -(lane.width as int)
            } else {
                lane.width as int
            };
            let aa = gshift_pt(a, a, b, d);
            let bb = gshift_pt(b, a, b, d);
            let dir = gdir(aa, bb);
            let opp = gopposite(dir);
            let pole_pl = seq![
                gproject(bb, opp, POLE_FAR_MM as int),
                gproject(bb, opp, POLE_NEAR_MM as int),
            ];
            Some(
                (
                    octagon_loop(bb, OCTAGON_RADIUS_MM as int, dir),
                    thick_loop(pole_pl, POLE_WIDTH_MM as int),
                    dir,
                ),
            )
        }
    }
}

/// A non-degenerate segment's unit direction vector has at least one
/// component of half magnitude or more.
proof fn lemma_gdir_component(a: GPt, b: GPt)
    requires
        in_box(a, crate::geometry::PT_BOUND as int),
        in_box(b, crate::geometry::PT_BOUND as int),
        gdist_sq(a, b) > EPSILON_SQ,
    ensures
        crate::geometry::abs_i(gdir(a, b).x) >= 5_000 || crate::geometry::abs_i(gdir(a, b).y)
            >= 5_000,
{
    let len = crate::geometry::gseg_len(a, b);
    let n = gdist_sq(a, b);
    lemma_seg_len_pos(a, b);
    crate::geometry::lemma_dist_sq_bounds(a, b);
    crate::geometry::lemma_sqrt_floor_props(n);
    let dx = b.x - a.x;
    let dy = b.y - a.y;
    let unit = crate::geometry::DIR_UNIT as int;
    if dx * dx >= dy * dy {
        assert(2 * (dx * dx) >= len * len);
        let ux = crate::geometry::div_t(dx * unit, len);
        crate::geometry::lemma_div_t_rem(dx * unit, len);
        let r = dx * unit - len * ux;
        if dx >= 0 {
            assert(2 * dx > len) by (nonlinear_arith)
                requires
                    2 * (dx * dx) >= len * len,
                    dx >= 0,
                    len > 0,
            ;
            assert(dx * unit >= 5_000 * (len + 1)) by (nonlinear_arith)
                requires
                    2 * dx >= len + 1,
                    unit == 10_000,
            ;
            assert(len * ux > 4_999 * len) by (nonlinear_arith)
                requires
                    len * ux == dx * unit - r,
                    dx * unit >= 5_000 * (len + 1),
                    r < len,
                    len <= 5_000 * (len + 1) - 4_999 * len,
            ;
            assert(ux >= 5_000) by (nonlinear_arith)
                requires
                    len * ux > 4_999 * len,
                    len > 0,
            ;
        } else {
            assert(2 * (-dx) > len) by (nonlinear_arith)
                requires
                    2 * (dx * dx) >= len * len,
                    dx < 0,
                    len > 0,
            ;
            assert(dx * unit <= -(5_000 * (len + 1))) by (nonlinear_arith)
                requires
                    2 * dx <= -(len + 1),
                    unit == 10_000,
            ;
            assert(len * ux < -(4_999 * len)) by (nonlinear_arith)
                requires
                    len * ux == dx * unit - r,
                    dx * unit <= -(5_000 * (len + 1)),
                    -len < r,
                    len <= 5_000 * (len + 1) - 4_999 * len,
            ;
            assert(ux <= -5_000) by (nonlinear_arith)
                requires
                    len * ux < -(4_999 * len),
                    len > 0,
            ;
        }
    } else {
        assert(2 * (dy * dy) >= len * len);
        let uy = crate::geometry::div_t(dy * unit, len);
        crate::geometry::lemma_div_t_rem(dy * unit, len);
        let r = dy * unit - len * uy;
        if dy >= 0 {
            assert(2 * dy > len) by (nonlinear_arith)
                requires
                    2 * (dy * dy) >= len * len,
                    dy >= 0,
                    len > 0,
            ;
            assert(dy * unit >= 5_000 * (len + 1)) by (nonlinear_arith)
                requires
                    2 * dy >= len + 1,
                    unit == 10_000,
            ;
            assert(len * uy > 4_999 * len) by (nonlinear_arith)
                requires
                    len * uy == dy * unit - r,
                    dy * unit >= 5_000 * (len + 1),
                    r < len,
                    len <= 5_000 * (len + 1) - 4_999 * len,
            ;
            assert(uy >= 5_000) by (nonlinear_arith)
                requires
                    len * uy > 4_999 * len,
                    len > 0,
            ;
        } else {
            assert(2 * (-dy) > len) by (nonlinear_arith)
                requires
                    2 * (dy * dy) >= len * len,
                    dy < 0,
                    len > 0,
            ;
            assert(dy * unit <= -(5_000 * (len + 1))) by (nonlinear_arith)
                requires
                    2 * dy <= -(len + 1),
                    unit == 10_000,
            ;
            assert(len * uy < -(4_999 * len)) by (nonlinear_arith)
                requires
                    len * uy == dy * unit - r,
                    dy * unit <= -(5_000 * (len + 1)),
                    -len < r,
                    len <= 5_000 * (len + 1) - 4_999 * len,
            ;
            assert(uy <= -5_000) by (nonlinear_arith)
                requires
                    len * uy < -(4_999 * len),
                    len > 0,
            ;
        }
    }
}

/// Two projections of one point along a near-unit heading, 1.5 m and 0.9 m
/// out, are farther apart than the degeneracy tolerance.
proof fn lemma_pole_pts_apart(c: GPt, d: GPt)
    requires
        crate::geometry::abs_i(d.x) >= 5_000 || crate::geometry::abs_i(d.y) >= 5_000,
    ensures
        gdist_sq(
            gproject(c, d, POLE_FAR_MM as int),
            gproject(c, d, POLE_NEAR_MM as int),
        ) > EPSILON_SQ,
{
    let unit = crate::geometry::DIR_UNIT as int;
    let p1 = gproject(c, d, POLE_FAR_MM as int);
    let p2 = gproject(c, d, POLE_NEAR_MM as int);
    let q1x = crate::geometry::div_t(1_500 * d.x, unit);
    let q2x = crate::geometry::div_t(900 * d.x, unit);
    let q1y = crate::geometry::div_t(1_500 * d.y, unit);
    let q2y = crate::geometry::div_t(900 * d.y, unit);
    crate::geometry::lemma_div_t_rem(1_500 * d.x, unit);
    crate::geometry::lemma_div_t_rem(900 * d.x, unit);
    crate::geometry::lemma_div_t_rem(1_500 * d.y, unit);
    crate::geometry::lemma_div_t_rem(900 * d.y, unit);
    let ex = q1x - q2x;
    let ey = q1y - q2y;
    assert(1_500 * d.x - 900 * d.x == 600 * d.x) by (nonlinear_arith);
    assert(1_500 * d.y - 900 * d.y == 600 * d.y) by (nonlinear_arith);
    assert(unit * (q1x - q2x) == unit * q1x - unit * q2x) by (nonlinear_arith);
    assert(unit * (q1y - q2y) == unit * q1y - unit * q2y) by (nonlinear_arith);
    assert(600 * d.x - 2 * unit < unit * ex < 600 * d.x + 2 * unit);
    assert(600 * d.y - 2 * unit < unit * ey < 600 * d.y + 2 * unit);
    if crate::geometry::abs_i(d.x) >= 5_000 {
        if d.x >= 0 {
            assert(unit * ex > 600 * 5_000 - 2 * unit);
            assert(ex > 10) by (nonlinear_arith)
                requires
                    unit * ex > 2_980_000,
                    unit == 10_000,
            ;
            assert(ex * ex > EPSILON_SQ) by (nonlinear_arith)
                requires
                    ex > 10,
            ;
        } else {
            assert(unit * ex < -(600 * 5_000) + 2 * unit);
            assert(ex < -10) by (nonlinear_arith)
                requires
                    unit * ex < -2_980_000,
                    unit == 10_000,
            ;
            assert(ex * ex > EPSILON_SQ) by (nonlinear_arith)
                requires
                    ex < -10,
            ;
        }
        assert(ey * ey >= 0) by (nonlinear_arith);
    } else {
        if d.y >= 0 {
            assert(unit * ey > 600 * 5_000 - 2 * unit);
            assert(ey > 10) by (nonlinear_arith)
                requires
                    unit * ey > 2_980_000,
                    unit == 10_000,
            ;
            assert(ey * ey > EPSILON_SQ) by (nonlinear_arith)
                requires
                    ey > 10,
            ;
        } else {
            assert(unit * ey < -(600 * 5_000) + 2 * unit);
            assert(ey < -10) by (nonlinear_arith)
                requires
                    unit * ey < -2_980_000,
                    unit == 10_000,
            ;
            assert(ey * ey > EPSILON_SQ) by (nonlinear_arith)
                requires
                    ey < -10,
            ;
        }
        assert(ex * ex >= 0) by (nonlinear_arith);
    }
    assert(p2.x - p1.x == q2x - q1x && p2.y - p1.y == q2y - q1y);
    assert(gdist_sq(p1, p2) == ex * ex + ey * ey) by (nonlinear_arith)
        requires
            p2.x - p1.x == -(ex),
            p2.y - p1.y == -(ey),
    ;
}

/// Computes the stop-sign glyph for one approach: `Some((octagon, pole,
/// facing))` when there is room, `None` otherwise. "No room" happens
/// exactly when the edge lane, trimmed by 0.1 m, is at or below the
/// degeneracy tolerance, or the remaining geometry degenerates.
pub fn stop_sign_glyph(ss: &RoadWithStopSign, map: &MapModel, side: DrivingSide) -> (r: Option<
    (Polygon, Polygon, Dir),
>)
    requires
        map.wf(),
        ss.lane_closest_to_edge.0 < map.n_lanes(),
    ensures
        r is Some <==> stop_sign_spec(*map, *ss, side) is Some,
        r is Some ==> {
            let (oct, pole, dir) = stop_sign_spec(*map, *ss, side)->Some_0;
            &&& r->Some_0.0@ == oct
            &&& r->Some_0.1@ == pole
            &&& r->Some_0.2@ == dir
            &&& r->Some_0.0.wf()
            &&& r->Some_0.1.wf()
        },
        pl_len(map.lanes@[ss.lane_closest_to_edge.0 as int].lane_center_pts@) - TRIM_BACK_MM
            <= EPSILON_MM ==> r is None,
{
    let lane = map.get_l(ss.lane_closest_to_edge);
    let ghost g = lane.lane_center_pts@;
    proof {
        lemma_box_mono(g, MAP_BOUND as int, WORK_BOUND as int);
    }
    let len = lane.lane_center_pts.length();
    if len - TRIM_BACK_MM <= EPSILON_MM {
        return None;
    }
    proof {
        lemma_slice_pts_props(g, 0, len as int - TRIM_BACK_MM as int, MAP_BOUND as int);
    }
    let trimmed = lane.lane_center_pts.exact_slice(0, len - TRIM_BACK_MM);
    let m = trimmed.pts.len();
    let a = trimmed.pts[m - 2];
    let b = trimmed.pts[m - 1];
    proof {
        assert(a@ == slice_pts(g, 0, len as int - TRIM_BACK_MM as int)[m - 2]);
        assert(b@ == slice_pts(g, 0, len as int - TRIM_BACK_MM as int)[m - 1]);
        assert(in_box(a@, MAP_BOUND as int));
        assert(in_box(b@, MAP_BOUND as int));
    }
    let dsq = crate::geometry::dist_sq_e(a, b);
    if dsq <= EPSILON_SQ {
        return None;
    }
    let d: i64 = if matches!(side, DrivingSide::Right) {
        -lane.width
    } else {
        lane.width
    };
    let last_line = Line { p1: a, p2: b };
    proof {
        lemma_seg_len_pos(a@, b@);
        lemma_gshift_off_bound(a@, b@, d as int);
    }
    let shifted = last_line.shift(d);
    let dir = shifted.dir();
    proof {
        assert(in_box(shifted.p2@, 10_100_000));
    }
    let octagon = make_octagon(shifted.p2, OCTAGON_RADIUS_MM, dir);
    let opp = dir.opposite();
    let pole_far = project_away(shifted.p2, POLE_FAR_MM, opp);
    let pole_near = project_away(shifted.p2, POLE_NEAR_MM, opp);
    let mut pole_pts: Vec<Pt> = Vec::new();
    pole_pts.push(pole_far);
    pole_pts.push(pole_near);
    let ghost pole_v = seq![
        gproject(shifted.p2@, gopposite(dir@), POLE_FAR_MM as int),
        gproject(shifted.p2@, gopposite(dir@), POLE_NEAR_MM as int),
    ];
    proof {
        assert(pts_view(pole_pts@) =~= pole_v);
    }
    let pole_pl = PolyLine::new(pole_pts);
    proof {
        lemma_gdir_component(shifted.p1@, shifted.p2@);
        lemma_pole_pts_apart(shifted.p2@, gopposite(dir@));
        let j: int = 0;
        assert(gdist_sq(pole_v[j], pole_v[j + 1]) > EPSILON_SQ);
        assert(clean(pole_v));
    }
    match pole_pl.make_polygons(POLE_WIDTH_MM) {
        Some(pole) => Some((octagon, pole, dir)),
        None => {
            proof {
                assert(false);
            }
            None
        },
    }
}

} // verus!
